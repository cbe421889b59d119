//! The operator console's router-facing half: it owns the duplex channel
//! that carries command lines to the router and responses back. Reading
//! standard input and printing responses is I/O and lives with the
//! process around the library, which drives this endpoint.

use crate::double_channel::Endpoint;
use vstd::prelude::*;

verus! {

/// The console's end of the command/response channel to the router.
pub struct Console {
    link_core: Endpoint<String, String>,
}

impl Console {
    pub fn new(link: Endpoint<String, String>) -> Console {
        Console { link_core: link }
    }

    /// The channel to the router: commands go out, responses come back.
    pub fn link(&self) -> &Endpoint<String, String> {
        &self.link_core
    }
}

} // verus!
