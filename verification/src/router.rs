//! The router: sole owner of the publisher, consumer and connection
//! records. It decides, for every inbound message, console command,
//! outbound message and lifecycle event, how the records change and what
//! must be sent where; the surrounding process performs the sends.
//!
//! Consumers are identified by tokens the router issues; the caller keeps
//! the channel each token stands for.

use crate::record::spec_record_in;
use crate::record::spec_record_out;
use crate::messages::MessageIn;
use crate::messages::MessageOut;
use crate::table::NameTable;
use vstd::prelude::*;
use vstd::string::StringExecFns;

verus! {

/// The router's abstract state.
pub ghost struct ServerView {
    /// Names of the connections currently open.
    pub connections: Set<Seq<char>>,
    /// Which connection last carried each publisher's messages.
    pub publishers: Map<Seq<char>, Seq<char>>,
    /// The consumer token serving each publisher.
    pub consumers: Map<Seq<char>, u64>,
    /// The next consumer token to issue.
    pub next_consumer: u64,
    /// The traffic log's file name, while logging is on.
    pub log_name: Option<Seq<char>>,
    /// False once a quit command was taken.
    pub running: bool,
}

/// A new connection was accepted under a name.
pub open spec fn spec_accept(s: ServerView, name: Seq<char>) -> ServerView {
    ServerView { connections: s.connections.insert(name), ..s }
}

/// A connection reported closed: its record goes away; publisher entries
/// pointing at it stay until an outbound message misses (lazy pruning).
pub open spec fn spec_connection_closed(s: ServerView, name: Seq<char>) -> ServerView {
    ServerView { connections: s.connections.remove(name), ..s }
}

/// An inbound message from a connection: the publisher record is
/// rewritten to that connection (last writer wins), and the message goes
/// to the publisher's consumer if one is running. It is logged exactly
/// when it is forwarded and the log is on.
pub open spec fn spec_on_inbound(s: ServerView, conn: Seq<char>, publisher: Seq<char>) -> (
    ServerView,
    Option<u64>,
    bool,
) {
    let s2 = ServerView { publishers: s.publishers.insert(publisher, conn), ..s };
    let forward = if s.consumers.contains_key(publisher) {
        Some(s.consumers[publisher])
    } else {
        None
    };
    (s2, forward, forward is Some && s.log_name is Some)
}

/// Where an outbound message goes.
pub ghost enum DeliveryView {
    /// The publisher's connection is live: deliver there.
    Forward(Seq<char>),
    /// The publisher's connection is gone: drop the message and prune
    /// the stale publisher record.
    Orphaned,
    /// No record of the publisher: drop the message.
    Unknown,
}

/// An outbound message for a publisher: it is logged first (when the log
/// is on), then delivered to the connection that last carried the
/// publisher, if that connection is still live.
pub open spec fn spec_on_outbound(s: ServerView, publisher: Seq<char>) -> (
    ServerView,
    DeliveryView,
) {
    if s.publishers.contains_key(publisher) {
        let conn = s.publishers[publisher];
        if s.connections.contains(conn) {
            (s, DeliveryView::Forward(conn))
        } else {
            (
                ServerView { publishers: s.publishers.remove(publisher), ..s },
                DeliveryView::Orphaned,
            )
        }
    } else {
        (s, DeliveryView::Unknown)
    }
}

/// A consumer is started for a publisher: a fresh token is bound to the
/// publisher; the token previously bound, if any, is reported so that
/// its consumer can be told to terminate.
pub open spec fn spec_start(s: ServerView, publisher: Seq<char>) -> (ServerView, Option<u64>, u64) {
    let fresh = s.next_consumer;
    let s2 = ServerView {
        consumers: s.consumers.insert(publisher, fresh),
        next_consumer: (s.next_consumer + 1) as u64,
        ..s
    };
    let previous = if s.consumers.contains_key(publisher) {
        Some(s.consumers[publisher])
    } else {
        None
    };
    (s2, previous, fresh)
}

/// A publisher's consumer is stopped: its record goes away and its token
/// is reported so that it can be told to terminate. Stopping a publisher
/// with no consumer changes nothing.
pub open spec fn spec_stop(s: ServerView, publisher: Seq<char>) -> (ServerView, Option<u64>) {
    if s.consumers.contains_key(publisher) {
        (
            ServerView { consumers: s.consumers.remove(publisher), ..s },
            Some(s.consumers[publisher]),
        )
    } else {
        (s, None)
    }
}

/// The traffic log is opened under a name, or left as it was when the
/// file could not be opened.
pub open spec fn spec_log_start(s: ServerView, name: Seq<char>, opened: bool) -> ServerView {
    if opened {
        ServerView { log_name: Some(name), ..s }
    } else {
        s
    }
}

/// The traffic log is closed.
pub open spec fn spec_log_stop(s: ServerView) -> ServerView {
    ServerView { log_name: None, ..s }
}

/// Stopping or closing a publisher that has no running consumer is a
/// no-op, however often it is repeated: the records are unchanged and no
/// consumer is told to terminate.
pub proof fn lemma_stop_without_consumer(s: ServerView, publisher: Seq<char>)
    requires
        !s.consumers.contains_key(publisher),
    ensures
        spec_stop(s, publisher).0 == s,
        spec_stop(s, publisher).1 is None,
        spec_stop(spec_stop(s, publisher).0, publisher).0 == s,
        spec_stop(spec_stop(s, publisher).0, publisher).1 is None,
{
}

/// After any stop, a second stop of the same publisher is such a no-op.
pub proof fn lemma_stop_idempotent(s: ServerView, publisher: Seq<char>)
    ensures
        spec_stop(spec_stop(s, publisher).0, publisher).0 == spec_stop(s, publisher).0,
        spec_stop(spec_stop(s, publisher).0, publisher).1 is None,
{
    let s1 = spec_stop(s, publisher).0;
    assert(!s1.consumers.contains_key(publisher));
}

/// Starting a consumer for a publisher twice leaves exactly one record:
/// the second token. The first start reports no previous consumer and the
/// second reports exactly the first token, so the first consumer is told
/// to terminate exactly once.
pub proof fn lemma_start_twice(s: ServerView, publisher: Seq<char>)
    requires
        !s.consumers.contains_key(publisher),
        s.next_consumer + 2 <= u64::MAX,
    ensures
        ({
            let (s1, previous1, first) = spec_start(s, publisher);
            let (s2, previous2, second) = spec_start(s1, publisher);
            &&& previous1 is None
            &&& previous2 == Some(first)
            &&& first != second
            &&& s2.consumers.contains_key(publisher)
            &&& s2.consumers[publisher] == second
            &&& s2.consumers.remove(publisher) == s.consumers
        }),
{
    let (s1, previous1, first) = spec_start(s, publisher);
    let (s2, previous2, second) = spec_start(s1, publisher);
    assert(s2.consumers.remove(publisher) =~= s.consumers);
}

/// Last writer wins: when two inbound messages carry the same publisher
/// name on different connections, the publisher record ends up pointing
/// at the connection of the later message.
pub proof fn lemma_last_writer_wins(
    s: ServerView,
    conn1: Seq<char>,
    conn2: Seq<char>,
    publisher: Seq<char>,
)
    ensures
        ({
            let s1 = spec_on_inbound(s, conn1, publisher).0;
            let s2 = spec_on_inbound(s1, conn2, publisher).0;
            &&& s2.publishers.contains_key(publisher)
            &&& s2.publishers[publisher] == conn2
        }),
{
}

/// Orphan pruning: once a publisher's connection has closed, an outbound
/// message for that publisher is dropped without delivery and the stale
/// publisher record is removed.
pub proof fn lemma_orphan_pruning(s: ServerView, publisher: Seq<char>)
    requires
        s.publishers.contains_key(publisher),
    ensures
        ({
            let closed = spec_connection_closed(s, s.publishers[publisher]);
            let (after, delivery) = spec_on_outbound(closed, publisher);
            &&& delivery is Orphaned
            &&& !after.publishers.contains_key(publisher)
            &&& after.publishers == s.publishers.remove(publisher)
            &&& after.consumers == s.consumers
        }),
{
}

/// What the router decides for one inbound message.
pub struct InboundRoute {
    /// The consumer token to forward the message to, if one serves its
    /// publisher.
    pub forward_to: Option<u64>,
    /// The record to append to the traffic log, when the message is
    /// forwarded while logging is on.
    pub log_record: Option<Vec<u8>>,
}

/// What the router decides for one outbound message.
pub enum Delivery {
    /// Deliver to this connection.
    Forward(String),
    /// The publisher's connection is gone; its record was pruned.
    Orphaned,
    /// The publisher is unknown.
    Unknown,
}

/// An outbound decision beside its traffic-log record.
pub struct OutboundRoute {
    pub delivery: Delivery,
    /// The record to append to the traffic log, when logging is on.
    pub log_record: Option<Vec<u8>>,
}

/// The router's record-keeping state.
pub struct Server {
    port: u32,
    connections: NameTable<()>,
    publishers: NameTable<String>,
    consumers: NameTable<u64>,
    next_consumer: u64,
    log_name: Option<String>,
    running: bool,
}

impl View for Server {
    type V = ServerView;

    closed spec fn view(&self) -> ServerView {
        ServerView {
            connections: self.connections@.dom(),
            publishers: self.publishers@,
            consumers: self.consumers@,
            next_consumer: self.next_consumer,
            log_name: match self.log_name {
                Some(ref name) => Some(name@),
                None => None,
            },
            running: self.running,
        }
    }
}

impl Server {
    /// The record tables are well formed.
    pub closed spec fn wf(&self) -> bool {
        &&& self.connections.wf()
        &&& self.publishers.wf()
        &&& self.consumers.wf()
    }

    /// The names of the publishers with a running consumer, in the order
    /// their consumers were started.
    pub closed spec fn consumer_names(&self) -> Seq<Seq<char>> {
        self.consumers.keys_view()
    }

    pub fn new(port: u32) -> (r: Server)
        ensures
            r.wf(),
            r.spec_port() == port,
            r@ == (ServerView {
                connections: Set::<Seq<char>>::empty(),
                publishers: Map::<Seq<char>, Seq<char>>::empty(),
                consumers: Map::<Seq<char>, u64>::empty(),
                next_consumer: 0,
                log_name: None::<Seq<char>>,
                running: true,
            }),
    {
        let r = Server {
            port,
            connections: NameTable::new(),
            publishers: NameTable::new(),
            consumers: NameTable::new(),
            next_consumer: 0,
            log_name: None,
            running: true,
        };
        proof {
            assert(r@.connections =~= Set::<Seq<char>>::empty());
        }
        r
    }

    /// Whether another consumer token can still be issued; a caller must
    /// see this hold before starting a consumer.
    pub fn can_start(&self) -> (r: bool)
        ensures
            r == (self@.next_consumer < u64::MAX),
    {
        self.next_consumer < u64::MAX
    }

    /// The names the `list` response shows are exactly the publishers
    /// with a running consumer.
    pub proof fn lemma_consumer_names(&self)
        requires
            self.wf(),
        ensures
            forall|k: int|
                0 <= k < self.consumer_names().len() ==> self@.consumers.contains_key(
                    #[trigger] self.consumer_names()[k],
                ),
            forall|q: Seq<char>|
                #[trigger] self@.consumers.contains_key(q) ==> exists|k: int|
                    0 <= k < self.consumer_names().len() && self.consumer_names()[k] == q,
    {
        self.consumers.lemma_keys();
    }

    /// The port the listener was asked to bind.
    pub fn port(&self) -> (r: u32)
        ensures
            r == self.spec_port(),
    {
        self.port
    }

    pub closed spec fn spec_port(&self) -> u32 {
        self.port
    }

    /// Records a newly accepted connection.
    pub fn on_connection_accepted(&mut self, name: String)
        requires
            old(self).wf(),
        ensures
            final(self).wf(),
            final(self)@ == spec_accept(old(self)@, name@),
            final(self).consumer_names() == old(self).consumer_names(),
    {
        let _ = self.connections.insert(name, ());
        proof {
            assert(self.connections@.dom() =~= old(self).connections@.dom().insert(name@));
        }
    }

    /// Records that a connection closed. Publisher records that point at
    /// it are pruned later, when an outbound message misses.
    pub fn on_connection_closed(&mut self, name: &String)
        requires
            old(self).wf(),
        ensures
            final(self).wf(),
            final(self)@ == spec_connection_closed(old(self)@, name@),
            final(self).consumer_names() == old(self).consumer_names(),
    {
        let _ = self.connections.remove(name.as_str());
        proof {
            assert(self.connections@.dom() =~= old(self).connections@.dom().remove(name@));
        }
    }

    /// Routes one inbound message: rewrites the publisher record to the
    /// carrying connection and forwards to the publisher's consumer if
    /// one is running, logging the message exactly when it is forwarded
    /// while the log is on.
    pub fn on_inbound(&mut self, connection: &String, msg: &MessageIn) -> (r: InboundRoute)
        requires
            old(self).wf(),
        ensures
            final(self).wf(),
            final(self)@ == spec_on_inbound(old(self)@, connection@, msg.publisher@).0,
            r.forward_to == spec_on_inbound(old(self)@, connection@, msg.publisher@).1,
            final(self).consumer_names() == old(self).consumer_names(),
            match r.log_record {
                Some(record) => spec_on_inbound(old(self)@, connection@, msg.publisher@).2
                    && record@ == spec_record_in(msg),
                None => !spec_on_inbound(old(self)@, connection@, msg.publisher@).2,
            },
    {
        let forward_to = match self.consumers.get(msg.publisher.as_str()) {
            Some(token) => Some(*token),
            None => None,
        };
        let log_record = if forward_to.is_some() && self.log_name.is_some() {
            Some(crate::record::record_message_in(msg))
        } else {
            None
        };
        let _ = self.publishers.insert(msg.publisher.clone(), connection.clone());
        InboundRoute { forward_to, log_record }
    }

    /// Routes one outbound message: logs it when the log is on, then
    /// looks up the publisher's connection; a missing connection prunes
    /// the stale publisher record and drops the message.
    pub fn on_outbound(&mut self, msg: &MessageOut) -> (r: OutboundRoute)
        requires
            old(self).wf(),
        ensures
            final(self).wf(),
            final(self)@ == spec_on_outbound(old(self)@, msg.publisher@).0,
            final(self).consumer_names() == old(self).consumer_names(),
            match r.delivery {
                Delivery::Forward(conn) => spec_on_outbound(old(self)@, msg.publisher@).1
                    == DeliveryView::Forward(conn@),
                Delivery::Orphaned => spec_on_outbound(old(self)@, msg.publisher@).1
                    == DeliveryView::Orphaned,
                Delivery::Unknown => spec_on_outbound(old(self)@, msg.publisher@).1
                    == DeliveryView::Unknown,
            },
            match r.log_record {
                Some(record) => old(self)@.log_name is Some && record@ == spec_record_out(msg@),
                None => old(self)@.log_name is None,
            },
    {
        let log_record = if self.log_name.is_some() {
            Some(crate::record::record_message_out(msg))
        } else {
            None
        };
        let target: Option<String> = match self.publishers.get(msg.publisher.as_str()) {
            Some(conn) => Some(conn.clone()),
            None => None,
        };
        let delivery = match target {
            Some(conn) => {
                let live = match self.connections.get(conn.as_str()) {
                    Some(_) => true,
                    None => false,
                };
                if live {
                    Delivery::Forward(conn)
                } else {
                    let _ = self.publishers.remove(msg.publisher.as_str());
                    Delivery::Orphaned
                }
            },
            None => Delivery::Unknown,
        };
        OutboundRoute { delivery, log_record }
    }
}

/// The response to `list`: the running publishers' names, one per line,
/// after a heading.
pub open spec fn spec_list_response(names: Seq<Seq<char>>) -> Seq<char>
    decreases names.len(),
{
    if names.len() == 0 {
        "Running visualizations:"@
    } else {
        spec_list_response(names.drop_last()) + "\n"@ + names.last()
    }
}

/// The response to `start`.
pub open spec fn spec_start_response(replaced: bool) -> Seq<char> {
    if replaced {
        "Warning: closing previous visualization\nNew visualization started succesfully"@
    } else {
        "New visualization started succesfully"@
    }
}

/// The response to a `close` that found a running consumer.
pub open spec fn spec_stopped_response(publisher: Seq<char>) -> Seq<char> {
    "Visualization "@ + publisher + " stopped succesfully"@
}

/// The response to a `close` (or `stop`) of a publisher with no running
/// consumer.
pub open spec fn spec_not_running_response(publisher: Seq<char>) -> Seq<char> {
    "Visualization "@ + publisher + " isn't currently running"@
}

/// The notice sent to the console when a consumer terminates by itself.
pub open spec fn spec_stopped_notice(publisher: Seq<char>) -> Seq<char> {
    "Visualization "@ + publisher + " has been stopped"@
}

/// Builds a string of three pieces.
fn compose3(prefix: &str, mid: &str, suffix: &str) -> (r: String)
    ensures
        r@ == prefix@ + mid@ + suffix@,
{
    let mut r = prefix.to_owned();
    r.append(mid);
    r.append(suffix);
    proof {
        assert(r@ =~= prefix@ + mid@ + suffix@);
    }
    r
}

/// Builds a string of two pieces.
fn compose2(prefix: &str, suffix: &str) -> (r: String)
    ensures
        r@ == prefix@ + suffix@,
{
    let mut r = prefix.to_owned();
    r.append(suffix);
    r
}

impl Server {
    /// The response to `list`: a heading, then the name of every
    /// publisher with a running consumer, one per line, in the order the
    /// consumers were started.
    pub fn print_visualizations(&self) -> (r: String)
        requires
            self.wf(),
        ensures
            r@ == spec_list_response(self.consumer_names()),
    {
        let ghost names = self.consumer_names();
        let mut r: String = "Running visualizations:".to_owned();
        let n = self.consumers.len();
        let mut k: usize = 0;
        proof {
            assert(names.take(0) =~= Seq::<Seq<char>>::empty());
        }
        while k < n
            invariant
                k <= n == names.len(),
                names == self.consumer_names(),
                self.wf(),
                r@ == spec_list_response(names.take(k as int)),
            decreases n - k,
        {
            r.append("\n");
            r.append(self.consumers.key_at(k).as_str());
            proof {
                assert(names.take(k + 1).drop_last() =~= names.take(k as int));
                assert(names.take(k + 1).last() == names[k as int]);
                assert(r@ =~= spec_list_response(names.take(k + 1)));
            }
            k = k + 1;
        }
        proof {
            assert(names.take(n as int) =~= names);
        }
        r
    }

    /// Starts a consumer for a publisher: binds a fresh token to the
    /// publisher and reports the token of the consumer it displaces, if
    /// any, so that the displaced consumer is told to terminate.
    pub fn start_visualization(&mut self, publisher: String, configuration: String) -> (r: (
        String,
        Option<u64>,
        u64,
    ))
        requires
            old(self).wf(),
            old(self)@.next_consumer < u64::MAX,
        ensures
            final(self).wf(),
            final(self)@ == spec_start(old(self)@, publisher@).0,
            r.1 == spec_start(old(self)@, publisher@).1,
            r.2 == spec_start(old(self)@, publisher@).2,
            r.0@ == spec_start_response(old(self)@.consumers.contains_key(publisher@)),
            old(self)@.consumers.contains_key(publisher@) ==> final(self).consumer_names() == old(
                self,
            ).consumer_names(),
            !old(self)@.consumers.contains_key(publisher@) ==> final(self).consumer_names() == old(
                self,
            ).consumer_names().push(publisher@),
    {
        let _ = configuration;
        let token = self.next_consumer;
        self.next_consumer = self.next_consumer + 1;
        let previous = self.consumers.insert(publisher, token);
        let response: String = match previous {
            Some(_) => "Warning: closing previous visualization\nNew visualization started succesfully".to_owned(),
            None => "New visualization started succesfully".to_owned(),
        };
        (response, previous, token)
    }

    /// Stops a publisher's consumer, reporting its token so that it is
    /// told to terminate; a publisher with no running consumer leaves
    /// the records unchanged.
    pub fn stop_visualization(&mut self, publisher: &String) -> (r: (String, Option<u64>))
        requires
            old(self).wf(),
        ensures
            final(self).wf(),
            final(self)@ == spec_stop(old(self)@, publisher@).0,
            r.1 == spec_stop(old(self)@, publisher@).1,
            r.0@ == if old(self)@.consumers.contains_key(publisher@) {
                spec_stopped_response(publisher@)
            } else {
                spec_not_running_response(publisher@)
            },
            !old(self)@.consumers.contains_key(publisher@) ==> final(self).consumer_names() == old(
                self,
            ).consumer_names(),
    {
        let removed = self.consumers.remove(publisher.as_str());
        match removed {
            Some(_) => (
                compose3("Visualization ", publisher.as_str(), " stopped succesfully"),
                removed,
            ),
            None => (
                compose3("Visualization ", publisher.as_str(), " isn't currently running"),
                removed,
            ),
        }
    }

    /// Handles a consumer that terminated by itself: its record goes
    /// away as under `close`, and the console is told.
    pub fn on_consumer_stopped(&mut self, publisher: &String) -> (r: (String, Option<u64>))
        requires
            old(self).wf(),
        ensures
            final(self).wf(),
            final(self)@ == spec_stop(old(self)@, publisher@).0,
            r.1 == spec_stop(old(self)@, publisher@).1,
            r.0@ == spec_stopped_notice(publisher@),
    {
        let removed = self.consumers.remove(publisher.as_str());
        (compose3("Visualization ", publisher.as_str(), " has been stopped"), removed)
    }

    /// Turns the traffic log on under a file name, or reports that the
    /// file could not be opened (the caller opens it).
    pub fn launch_traffic_log(&mut self, filename: String, opened: bool) -> (r: String)
        requires
            old(self).wf(),
        ensures
            final(self).wf(),
            final(self)@ == spec_log_start(old(self)@, filename@, opened),
            final(self).consumer_names() == old(self).consumer_names(),
            r@ == if opened {
                "Saving logs to "@ + filename@
            } else {
                "Failed to open "@ + filename@
            },
    {
        if opened {
            let response = compose2("Saving logs to ", filename.as_str());
            self.log_name = Some(filename);
            response
        } else {
            compose2("Failed to open ", filename.as_str())
        }
    }

    /// Turns the traffic log off, reporting where the records were
    /// saved, or that no log was running.
    pub fn stop_traffic_log(&mut self) -> (r: String)
        requires
            old(self).wf(),
        ensures
            final(self).wf(),
            final(self)@ == spec_log_stop(old(self)@),
            final(self).consumer_names() == old(self).consumer_names(),
            r@ == match old(self)@.log_name {
                Some(name) => "Logs saved to "@ + name,
                None => "No logger running"@,
            },
    {
        let response: String = match self.log_name {
            Some(ref name) => compose2("Logs saved to ", name.as_str()),
            None => "No logger running".to_owned(),
        };
        self.log_name = None;
        response
    }

    /// Begins shutdown.
    pub fn quit(&mut self) -> (r: String)
        requires
            old(self).wf(),
        ensures
            final(self).wf(),
            final(self)@ == (ServerView { running: false, ..old(self)@ }),
            final(self).consumer_names() == old(self).consumer_names(),
            r@ == "Shutting down"@,
    {
        self.running = false;
        "Shutting down".to_owned()
    }
}

/// A token separator in a command line.
pub open spec fn is_sep(c: char) -> bool {
    c == ' ' || c == '\t'
}

/// Length of the leading run of non-separator characters.
pub open spec fn spec_token_end(line: Seq<char>) -> int
    decreases line.len(),
{
    if line.len() == 0 || is_sep(line.first()) {
        0
    } else {
        1 + spec_token_end(line.drop_first())
    }
}

proof fn lemma_token_end_bounds(line: Seq<char>)
    ensures
        0 <= spec_token_end(line) <= line.len(),
    decreases line.len(),
{
    if line.len() > 0 && !is_sep(line.first()) {
        lemma_token_end_bounds(line.drop_first());
    }
}

/// The whitespace-separated tokens of a command line, in order.
pub open spec fn spec_tokens(line: Seq<char>) -> Seq<Seq<char>>
    decreases line.len(),
{
    if line.len() == 0 {
        Seq::empty()
    } else if is_sep(line.first()) {
        spec_tokens(line.drop_first())
    } else {
        let k = spec_token_end(line);
        if 1 <= k <= line.len() {
            seq![line.take(k)] + spec_tokens(line.skip(k))
        } else {
            seq![line]
        }
    }
}

fn scan_token(line: &str, i: usize) -> (j: usize)
    requires
        i <= line@.len(),
    ensures
        i <= j <= line@.len(),
        j - i == spec_token_end(line@.skip(i as int)),
    decreases line@.len() - i,
{
    proof {
        assert(line@.skip(i as int).len() == line@.len() - i);
    }
    if i < line.unicode_len() {
        let c = line.get_char(i);
        if !(c == ' ' || c == '\t') {
            let j = scan_token(line, i + 1);
            proof {
                assert(line@.skip(i as int).first() == line@[i as int]);
                assert(line@.skip(i as int).drop_first() =~= line@.skip(i + 1));
            }
            return j;
        }
    }
    proof {
        if i < line@.len() {
            assert(line@.skip(i as int).first() == line@[i as int]);
        }
    }
    i
}

/// Splits a command line into its whitespace-separated tokens.
pub fn tokenize(line: &str) -> (r: Vec<String>)
    ensures
        r@.map_values(|t: String| t@) == spec_tokens(line@),
{
    let n = line.unicode_len();
    let mut toks: Vec<String> = Vec::new();
    let mut i: usize = 0;
    proof {
        assert(line@.skip(0) =~= line@);
        assert(toks@.map_values(|t: String| t@) =~= Seq::<Seq<char>>::empty());
    }
    while i < n
        invariant
            i <= n == line@.len(),
            spec_tokens(line@) == toks@.map_values(|t: String| t@) + spec_tokens(
                line@.skip(i as int),
            ),
        decreases n - i,
    {
        let c = line.get_char(i);
        if c == ' ' || c == '\t' {
            proof {
                assert(line@.skip(i as int).first() == line@[i as int]);
                assert(line@.skip(i as int).drop_first() =~= line@.skip(i + 1));
            }
            i = i + 1;
        } else {
            let j = scan_token(line, i);
            proof {
                lemma_token_end_bounds(line@.skip(i + 1));
                assert(line@.skip(i as int).first() == line@[i as int]);
                assert(line@.skip(i as int).drop_first() =~= line@.skip(i + 1));
                assert(j - i == 1 + spec_token_end(line@.skip(i + 1)));
                assert(j > i);
            }
            let token = line.substring_char(i, j).to_owned();
            let ghost prior = toks@.map_values(|t: String| t@);
            toks.push(token);
            proof {
                let tail = line@.skip(i as int);
                let k = spec_token_end(tail);
                assert(k == j - i);
                assert(tail.take(k) =~= line@.subrange(i as int, j as int));
                assert(tail.skip(k) =~= line@.skip(j as int));
                assert(toks@.map_values(|t: String| t@) =~= prior.push(
                    line@.subrange(i as int, j as int),
                ));
                assert(spec_tokens(tail) == seq![tail.take(k)] + spec_tokens(tail.skip(k)));
                assert(spec_tokens(line@) =~= toks@.map_values(|t: String| t@) + spec_tokens(
                    line@.skip(j as int),
                ));
            }
            i = j;
        }
    }
    proof {
        assert(line@.skip(n as int) =~= Seq::<char>::empty());
        assert(spec_tokens(line@) =~= toks@.map_values(|t: String| t@));
    }
    toks
}

/// The tokens put back together with single spaces.
pub open spec fn spec_join(tokens: Seq<Seq<char>>) -> Seq<char>
    decreases tokens.len(),
{
    if tokens.len() == 0 {
        Seq::empty()
    } else if tokens.len() == 1 {
        tokens[0]
    } else {
        spec_join(tokens.drop_last()) + " "@ + tokens.last()
    }
}

fn join_tokens(tokens: &Vec<String>) -> (r: String)
    ensures
        r@ == spec_join(tokens@.map_values(|t: String| t@)),
{
    let ghost tv = tokens@.map_values(|t: String| t@);
    let mut r = String::new();
    let n = tokens.len();
    let mut k: usize = 0;
    proof {
        assert(tv.take(0) =~= Seq::<Seq<char>>::empty());
    }
    while k < n
        invariant
            k <= n == tv.len(),
            tv == tokens@.map_values(|t: String| t@),
            r@ == spec_join(tv.take(k as int)),
        decreases n - k,
    {
        if k > 0 {
            r.append(" ");
        }
        r.append(tokens[k].as_str());
        proof {
            assert(tv.take(k + 1).drop_last() =~= tv.take(k as int));
            assert(tv.take(k + 1).last() == tv[k as int]);
            if k == 0 {
                assert(tv.take(1).len() == 1);
                assert(tv.take(1)[0] == tv[0]);
                assert(r@ =~= spec_join(tv.take(1)));
            } else {
                assert(r@ =~= spec_join(tv.take(k + 1)));
            }
        }
        k = k + 1;
    }
    proof {
        assert(tv.take(n as int) =~= tv);
    }
    r
}

/// The ghost shape of a parsed console command.
pub ghost enum CommandView {
    List,
    Start(Seq<char>, Seq<char>),
    Close(Seq<char>),
    LogStart(Seq<char>),
    LogStop,
    Quit,
    LogInvalid(Seq<char>),
    Unknown(Seq<char>),
}

/// One parsed console command. A recognized verb with the wrong number
/// of arguments is reported as `Unknown`, like an unrecognized verb; a
/// `log` line whose subcommand is malformed is reported as `LogInvalid`
/// carrying the line's tokens rejoined.
pub enum Command {
    List,
    Start(String, String),
    Close(String),
    LogStart(String),
    LogStop,
    Quit,
    LogInvalid(String),
    Unknown(String),
}

impl View for Command {
    type V = CommandView;

    open spec fn view(&self) -> CommandView {
        match self {
            Command::List => CommandView::List,
            Command::Start(p, c) => CommandView::Start(p@, c@),
            Command::Close(p) => CommandView::Close(p@),
            Command::LogStart(f) => CommandView::LogStart(f@),
            Command::LogStop => CommandView::LogStop,
            Command::Quit => CommandView::Quit,
            Command::LogInvalid(t) => CommandView::LogInvalid(t@),
            Command::Unknown(v) => CommandView::Unknown(v@),
        }
    }
}

/// The command a token list spells, by verb and argument count.
pub open spec fn spec_command(tokens: Seq<Seq<char>>) -> CommandView {
    if tokens.len() == 0 {
        CommandView::Unknown(Seq::empty())
    } else if tokens[0] == "list"@ && tokens.len() == 1 {
        CommandView::List
    } else if tokens[0] == "start"@ && tokens.len() == 3 {
        CommandView::Start(tokens[1], tokens[2])
    } else if tokens[0] == "close"@ && tokens.len() == 2 {
        CommandView::Close(tokens[1])
    } else if tokens[0] == "log"@ && (tokens.len() == 2 || tokens.len() == 3) {
        if tokens[1] == "start"@ && tokens.len() == 3 {
            CommandView::LogStart(tokens[2])
        } else if tokens[1] == "stop"@ && tokens.len() == 2 {
            CommandView::LogStop
        } else {
            CommandView::LogInvalid(spec_join(tokens))
        }
    } else if (tokens[0] == "quit"@ || tokens[0] == "exit"@) && tokens.len() == 1 {
        CommandView::Quit
    } else {
        CommandView::Unknown(tokens[0])
    }
}

/// Parses one console line: tokens are split on spaces and tabs, and the
/// verb and argument count pick the command.
pub fn parse_command(line: &str) -> (c: Command)
    ensures
        c@ == spec_command(spec_tokens(line@)),
{
    let tokens = tokenize(line);
    let n = tokens.len();
    if n == 0 {
        return Command::Unknown(String::new());
    }
    if crate::messages::str_eq_str(tokens[0].as_str(), "list") && n == 1 {
        Command::List
    } else if crate::messages::str_eq_str(tokens[0].as_str(), "start") && n == 3 {
        Command::Start(tokens[1].clone(), tokens[2].clone())
    } else if crate::messages::str_eq_str(tokens[0].as_str(), "close") && n == 2 {
        Command::Close(tokens[1].clone())
    } else if crate::messages::str_eq_str(tokens[0].as_str(), "log") && (n == 2 || n == 3) {
        if crate::messages::str_eq_str(tokens[1].as_str(), "start") && n == 3 {
            Command::LogStart(tokens[2].clone())
        } else if crate::messages::str_eq_str(tokens[1].as_str(), "stop") && n == 2 {
            Command::LogStop
        } else {
            Command::LogInvalid(join_tokens(&tokens))
        }
    } else if (crate::messages::str_eq_str(tokens[0].as_str(), "quit") || crate::messages::str_eq_str(
        tokens[0].as_str(),
        "exit",
    )) && n == 1 {
        Command::Quit
    } else {
        Command::Unknown(tokens[0].clone())
    }
}

/// What one console command asks the surrounding process to do, besides
/// showing the response.
pub struct CommandOutcome {
    /// The text the console shows.
    pub response: String,
    /// True exactly for a quit command: the router loop should wind
    /// down.
    pub quit: bool,
    /// A consumer to send the termination sentinel to.
    pub stop_consumer: Option<u64>,
    /// A consumer to spawn, under this token.
    pub spawn_consumer: Option<u64>,
}

impl Server {
    /// Executes one console command against the records. `log_opened`
    /// says whether the caller managed to open the file a `log start`
    /// names; it is ignored for every other command.
    pub fn apply_command(&mut self, command: &Command, log_opened: bool) -> (r: CommandOutcome)
        requires
            old(self).wf(),
            command@ is Start ==> old(self)@.next_consumer < u64::MAX,
        ensures
            final(self).wf(),
            r.quit == (command@ is Quit),
            match command@ {
                CommandView::List => {
                    &&& final(self)@ == old(self)@
                    &&& r.response@ == spec_list_response(old(self).consumer_names())
                    &&& r.stop_consumer is None
                    &&& r.spawn_consumer is None
                },
                CommandView::Start(p, _) => {
                    &&& final(self)@ == spec_start(old(self)@, p).0
                    &&& r.stop_consumer == spec_start(old(self)@, p).1
                    &&& r.spawn_consumer == Some(spec_start(old(self)@, p).2)
                    &&& r.response@ == spec_start_response(old(self)@.consumers.contains_key(p))
                },
                CommandView::Close(p) => {
                    &&& final(self)@ == spec_stop(old(self)@, p).0
                    &&& r.stop_consumer == spec_stop(old(self)@, p).1
                    &&& r.spawn_consumer is None
                    &&& r.response@ == if old(self)@.consumers.contains_key(p) {
                        spec_stopped_response(p)
                    } else {
                        spec_not_running_response(p)
                    }
                },
                CommandView::LogStart(f) => {
                    &&& final(self)@ == spec_log_start(old(self)@, f, log_opened)
                    &&& r.stop_consumer is None
                    &&& r.spawn_consumer is None
                    &&& r.response@ == if log_opened {
                        "Saving logs to "@ + f
                    } else {
                        "Failed to open "@ + f
                    }
                },
                CommandView::LogStop => {
                    &&& final(self)@ == spec_log_stop(old(self)@)
                    &&& r.stop_consumer is None
                    &&& r.spawn_consumer is None
                    &&& r.response@ == match old(self)@.log_name {
                        Some(name) => "Logs saved to "@ + name,
                        None => "No logger running"@,
                    }
                },
                CommandView::Quit => {
                    &&& final(self)@ == (ServerView { running: false, ..old(self)@ })
                    &&& r.stop_consumer is None
                    &&& r.spawn_consumer is None
                    &&& r.response@ == "Shutting down"@
                },
                CommandView::LogInvalid(t) => {
                    &&& final(self)@ == old(self)@
                    &&& r.stop_consumer is None
                    &&& r.spawn_consumer is None
                    &&& r.response@ == "Invalid command: \""@ + t + "\""@
                },
                CommandView::Unknown(v) => {
                    &&& final(self)@ == old(self)@
                    &&& r.stop_consumer is None
                    &&& r.spawn_consumer is None
                    &&& r.response@ == "Unknown command: \""@ + v + "\""@
                },
            },
    {
        match command {
            Command::List => CommandOutcome {
                response: self.print_visualizations(),
                quit: false,
                stop_consumer: None,
                spawn_consumer: None,
            },
            Command::Start(publisher, configuration) => {
                let (response, previous, token) = self.start_visualization(
                    publisher.clone(),
                    configuration.clone(),
                );
                CommandOutcome {
                    response,
                    quit: false,
                    stop_consumer: previous,
                    spawn_consumer: Some(token),
                }
            },
            Command::Close(publisher) => {
                let (response, removed) = self.stop_visualization(publisher);
                CommandOutcome { response, quit: false, stop_consumer: removed, spawn_consumer: None }
            },
            Command::LogStart(filename) => CommandOutcome {
                response: self.launch_traffic_log(filename.clone(), log_opened),
                quit: false,
                stop_consumer: None,
                spawn_consumer: None,
            },
            Command::LogStop => CommandOutcome {
                response: self.stop_traffic_log(),
                quit: false,
                stop_consumer: None,
                spawn_consumer: None,
            },
            Command::Quit => CommandOutcome {
                response: self.quit(),
                quit: true,
                stop_consumer: None,
                spawn_consumer: None,
            },
            Command::LogInvalid(text) => CommandOutcome {
                response: compose3("Invalid command: \"", text.as_str(), "\""),
                quit: false,
                stop_consumer: None,
                spawn_consumer: None,
            },
            Command::Unknown(verb) => CommandOutcome {
                response: compose3("Unknown command: \"", verb.as_str(), "\""),
                quit: false,
                stop_consumer: None,
                spawn_consumer: None,
            },
        }
    }
}

} // verus!
