//! The message framer: an incremental parser that cuts a raw byte stream
//! into complete balanced-brace frames and decodes each frame as an
//! inbound message.
//!
//! The scan keeps a running open-brace depth. Whenever the depth returns
//! to zero, everything since the previous boundary is one candidate
//! frame: if it contains at least one `{` it is decoded (and dropped with
//! no further effect when malformed); otherwise it is discarded
//! silently. Braces inside string literals are not special-cased: frames
//! are cut on raw brace counts alone.

use crate::json::spec_decode_frame;
use crate::messages::MessageIn;
use crate::messages::MessageInView;
use std::collections::VecDeque;
use vstd::prelude::*;

verus! {

broadcast use vstd::std_specs::vec::group_vec_axioms, vstd::seq::group_seq_axioms;

/// The framer's abstract state: the bytes of the frame in progress, the
/// decoded messages not yet handed out, and how many frames were cut but
/// failed to decode.
pub ghost struct FramerState {
    pub buf: Seq<u8>,
    pub msgs: Seq<MessageInView>,
    pub dropped: nat,
}

/// The running open-brace depth of a byte sequence: `{` raises it, `}`
/// lowers it but never below zero.
pub open spec fn brace_depth(buf: Seq<u8>) -> nat
    decreases buf.len(),
{
    if buf.len() == 0 {
        0
    } else {
        let d = brace_depth(buf.drop_last());
        if buf.last() == 0x7b {
            d + 1
        } else if buf.last() == 0x7d {
            if d > 0 {
                (d - 1) as nat
            } else {
                0
            }
        } else {
            d
        }
    }
}

/// How many `{` bytes a sequence holds.
pub open spec fn open_count(buf: Seq<u8>) -> nat
    decreases buf.len(),
{
    if buf.len() == 0 {
        0
    } else {
        open_count(buf.drop_last()) + if buf.last() == 0x7b {
            1nat
        } else {
            0nat
        }
    }
}

proof fn lemma_counts_bounded(buf: Seq<u8>)
    ensures
        brace_depth(buf) <= open_count(buf) <= buf.len(),
    decreases buf.len(),
{
    if buf.len() > 0 {
        lemma_counts_bounded(buf.drop_last());
    }
}

/// One step of the scan: append a byte; when the depth returns to zero
/// the accumulated bytes form a frame, which is decoded if it held at
/// least one `{`.
pub open spec fn scan_byte(st: FramerState, b: u8) -> FramerState {
    let buf2 = st.buf.push(b);
    if brace_depth(buf2) == 0 {
        if open_count(buf2) > 0 {
            match spec_decode_frame(buf2) {
                Some(m) => FramerState {
                    buf: Seq::empty(),
                    msgs: st.msgs.push(m),
                    dropped: st.dropped,
                },
                None => FramerState {
                    buf: Seq::empty(),
                    msgs: st.msgs,
                    dropped: st.dropped + 1,
                },
            }
        } else {
            FramerState { buf: Seq::empty(), msgs: st.msgs, dropped: st.dropped }
        }
    } else {
        FramerState { buf: buf2, msgs: st.msgs, dropped: st.dropped }
    }
}

/// The scan over a whole chunk, byte by byte in order.
pub open spec fn scan(st: FramerState, bytes: Seq<u8>) -> FramerState
    decreases bytes.len(),
{
    if bytes.len() == 0 {
        st
    } else {
        scan_byte(scan(st, bytes.drop_last()), bytes.last())
    }
}

/// The scan over a sequence of chunks, in order.
pub open spec fn scan_chunks(st: FramerState, chunks: Seq<Seq<u8>>) -> FramerState
    decreases chunks.len(),
{
    if chunks.len() == 0 {
        st
    } else {
        scan_chunks(scan(st, chunks.first()), chunks.drop_first())
    }
}

/// Scanning two chunks one after the other is scanning their
/// concatenation.
pub proof fn lemma_scan_concat(st: FramerState, a: Seq<u8>, b: Seq<u8>)
    ensures
        scan(scan(st, a), b) == scan(st, a + b),
    decreases b.len(),
{
    if b.len() == 0 {
        assert(a + b =~= a);
    } else {
        lemma_scan_concat(st, a, b.drop_last());
        assert((a + b).drop_last() =~= a + b.drop_last());
        assert((a + b).last() == b.last());
    }
}

/// Chunking invariance: however a byte stream is cut into chunks,
/// scanning the chunks one at a time ends in the same state (same
/// residual buffer, same decoded messages in the same order, same drop
/// count) as scanning the whole stream at once.
pub proof fn lemma_scan_chunking(st: FramerState, chunks: Seq<Seq<u8>>)
    ensures
        scan_chunks(st, chunks) == scan(st, chunks.flatten()),
    decreases chunks.len(),
{
    if chunks.len() == 0 {
        assert(scan(st, chunks.flatten()) == st);
    } else {
        lemma_scan_chunking(scan(st, chunks.first()), chunks.drop_first());
        lemma_scan_concat(st, chunks.first(), chunks.drop_first().flatten());
    }
}

/// The incremental frame parser. `push` feeds it raw bytes; `pop` drains
/// decoded messages in arrival order.
pub struct MessageParser {
    buffer: Vec<u8>,
    open_parentheses: usize,
    parentheses_counter: usize,
    messages: VecDeque<MessageIn>,
    dropped_frames: Ghost<nat>,
}

impl View for MessageParser {
    type V = FramerState;

    closed spec fn view(&self) -> FramerState {
        FramerState {
            buf: self.buffer@,
            msgs: self.messages@.map_values(|m: MessageIn| m@),
            dropped: self.dropped_frames@,
        }
    }
}

impl MessageParser {
    /// The counters track the buffer and every queued message is well
    /// formed.
    pub closed spec fn wf(&self) -> bool {
        &&& self.open_parentheses == brace_depth(self.buffer@)
        &&& self.parentheses_counter == open_count(self.buffer@)
        &&& forall|k: int| 0 <= k < self.messages@.len() ==> (#[trigger] self.messages@[k]).wf()
    }

    pub fn new() -> (r: MessageParser)
        ensures
            r.wf(),
            r@.buf == Seq::<u8>::empty(),
            r@.msgs == Seq::<MessageInView>::empty(),
            r@.dropped == 0,
    {
        let r = MessageParser {
            buffer: Vec::new(),
            open_parentheses: 0,
            parentheses_counter: 0,
            messages: VecDeque::new(),
            dropped_frames: Ghost(0),
        };
        proof {
            assert(r@.msgs =~= Seq::<MessageInView>::empty());
        }
        r
    }

    /// Feeds a chunk of raw bytes: frames completed by these bytes are
    /// decoded and queued; an incomplete tail is kept for later chunks.
    /// Returns how many completed frames failed to decode and were
    /// dropped, so that the caller can report them.
    pub fn push(&mut self, text: &[u8]) -> (dropped: usize)
        requires
            old(self).wf(),
        ensures
            final(self).wf(),
            final(self)@ == scan(old(self)@, text@),
            old(self)@.dropped + dropped == final(self)@.dropped,
    {
        let n = text.len();
        let mut k: usize = 0;
        let mut dropped_here: usize = 0;
        while k < n
            invariant
                k <= n == text@.len(),
                self.wf(),
                self@ == scan(old(self)@, text@.take(k as int)),
                old(self)@.dropped + dropped_here == self@.dropped,
                dropped_here <= k,
            decreases n - k,
        {
            let ghost pre = self@;
            let b = text[k];
            self.buffer.push(b);
            let buffered = self.buffer.len();
            proof {
                assert(self.buffer@.drop_last() =~= pre.buf);
                assert(self.buffer@.last() == b);
                lemma_counts_bounded(self.buffer@);
                assert(open_count(self.buffer@) <= buffered);
            }
            if b == 0x7b {
                self.open_parentheses = self.open_parentheses + 1;
                self.parentheses_counter = self.parentheses_counter + 1;
            } else if b == 0x7d {
                if self.open_parentheses != 0 {
                    self.open_parentheses = self.open_parentheses - 1;
                }
            }
            if self.open_parentheses == 0 {
                if self.parentheses_counter > 0 {
                    let ghost q = self.messages@;
                    match crate::json::decode_frame(self.buffer.as_slice()) {
                        Some(msg) => {
                            self.messages.push_back(msg);
                            proof {
                                assert(self.messages@.map_values(|m: MessageIn| m@) =~= q
                                    .map_values(|m: MessageIn| m@).push(
                                    self.messages@.last()@,
                                ));
                            }
                        },
                        None => {
                            dropped_here = dropped_here + 1;
                            proof {
                                self.dropped_frames@ = self.dropped_frames@ + 1;
                            }
                        },
                    }
                }
                self.parentheses_counter = 0;
                self.buffer = Vec::new();
            }
            proof {
                assert(text@.take(k + 1).drop_last() =~= text@.take(k as int));
                assert(text@.take(k + 1).last() == b);
                assert(self@ == scan_byte(pre, b));
            }
            k = k + 1;
        }
        proof {
            assert(text@.take(n as int) =~= text@);
        }
        dropped_here
    }

    /// Hands out the oldest decoded message, if one is waiting.
    pub fn pop(&mut self) -> (r: Option<MessageIn>)
        requires
            old(self).wf(),
        ensures
            final(self).wf(),
            final(self)@.buf == old(self)@.buf,
            final(self)@.dropped == old(self)@.dropped,
            match r {
                Some(m) => {
                    &&& old(self)@.msgs.len() > 0
                    &&& m@ == old(self)@.msgs[0]
                    &&& m.wf()
                    &&& final(self)@.msgs == old(self)@.msgs.drop_first()
                },
                None => {
                    &&& old(self)@.msgs.len() == 0
                    &&& final(self)@.msgs == old(self)@.msgs
                },
            },
    {
        let r = self.messages.pop_front();
        proof {
            let ghost q = old(self).messages@;
            if q.len() > 0 {
                assert(self.messages@.map_values(|m: MessageIn| m@) =~= q.map_values(
                    |m: MessageIn| m@,
                ).drop_first());
            }
        }
        r
    }
}

} // verus!
