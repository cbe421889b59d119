//! Traffic-log records: every routed message is appended to the log as
//! one newline-terminated, debug-formatted record naming the message
//! shape and its fields. String fields are quoted with the same escapes
//! the wire format uses.

use crate::json::spec_decimal;
use crate::json::spec_encode_string;
use crate::messages::MessageIn;
use crate::messages::MessageOut;
use crate::messages::MessageOutView;
use crate::messages::Object;
use vstd::prelude::*;
use vstd::string::StringSliceAdditionalSpecFns;
use vstd::utf8::encode_utf8;

verus! {

/// Appends a fixed piece of record text.
fn push_bytes(out: &mut Vec<u8>, piece: &[u8])
    ensures
        final(out)@ == old(out)@ + piece@,
{
    let n = piece.len();
    let mut k: usize = 0;
    proof {
        assert(out@ =~= out@ + piece@.take(0));
    }
    while k < n
        invariant
            k <= n == piece@.len(),
            out@ == old(out)@ + piece@.take(k as int),
        decreases n - k,
    {
        out.push(piece[k]);
        proof {
            assert(piece@.take(k + 1).drop_last() =~= piece@.take(k as int));
            assert(out@ =~= old(out)@ + piece@.take(k + 1));
        }
        k = k + 1;
    }
    proof {
        assert(piece@.take(n as int) =~= piece@);
    }
}

/// An attribute bag's entries inside a record: `"name": "value"` pairs,
/// comma-separated, in entry order.
pub open spec fn spec_record_entries(entries: Seq<(Seq<char>, Seq<char>)>) -> Seq<u8>
    decreases entries.len(),
{
    if entries.len() == 0 {
        Seq::empty()
    } else if entries.len() == 1 {
        spec_encode_string(entries[0].0) + encode_utf8(": "@) + spec_encode_string(entries[0].1)
    } else {
        spec_record_entries(entries.drop_last()) + encode_utf8(", "@) + spec_encode_string(
            entries.last().0,
        ) + encode_utf8(": "@) + spec_encode_string(entries.last().1)
    }
}

/// An attribute bag inside a record, written as a braced map.
pub open spec fn spec_record_object(o: &Object) -> Seq<u8> {
    seq![0x7bu8] + spec_record_entries(o.entries_view()) + seq![0x7du8]
}

/// A message's attribute bags inside a record, comma-separated.
pub open spec fn spec_record_objects(objects: Seq<Object>) -> Seq<u8>
    decreases objects.len(),
{
    if objects.len() == 0 {
        Seq::empty()
    } else if objects.len() == 1 {
        spec_record_object(&objects[0])
    } else {
        spec_record_objects(objects.drop_last()) + encode_utf8(", "@) + spec_record_object(
            &objects.last(),
        )
    }
}

/// The debug-formatted record for one inbound message (without the
/// trailing newline).
pub open spec fn spec_record_in(m: &MessageIn) -> Seq<u8> {
    encode_utf8("MessageIn { publisher: "@) + spec_encode_string(m.publisher@) + encode_utf8(
        ", id: "@,
    ) + spec_encode_string(m.id@) + encode_utf8(", objects: ["@) + spec_record_objects(m.objects@)
        + encode_utf8("] }"@)
}

/// The debug-formatted record for one outbound message (without the
/// trailing newline).
pub open spec fn spec_record_out(m: MessageOutView) -> Seq<u8> {
    encode_utf8("MessageOut { publisher: "@) + spec_encode_string(m.publisher) + encode_utf8(
        ", id: "@,
    ) + spec_encode_string(m.id) + encode_utf8(", object_id: "@) + spec_decimal(
        m.object_id as int,
    ) + encode_utf8(", key_code: "@) + spec_encode_string(m.key_code) + encode_utf8(" }"@)
}

/// Appends the record form of an attribute bag.
fn push_record_object(out: &mut Vec<u8>, o: &Object)
    ensures
        final(out)@ == old(out)@ + spec_record_object(o),
{
    let ghost base = out@;
    let ghost entries = o.entries_view();
    out.push(0x7b);
    let n = o.len();
    let mut k: usize = 0;
    proof {
        assert(out@ =~= base + seq![0x7bu8] + spec_record_entries(entries.take(0)));
    }
    while k < n
        invariant
            k <= n == entries.len(),
            entries == o.entries_view(),
            out@ == base + seq![0x7bu8] + spec_record_entries(entries.take(k as int)),
        decreases n - k,
    {
        if k > 0 {
            push_bytes(out, ", ".as_bytes());
        }
        let (key, value) = o.entry_at(k);
        crate::json::push_json_string(out, key.as_str());
        push_bytes(out, ": ".as_bytes());
        crate::json::push_json_string(out, value.as_str());
        proof {
            assert(entries.take(k + 1).drop_last() =~= entries.take(k as int));
            assert(entries.take(k + 1).last() == entries[k as int]);
            if k == 0 {
                assert(entries.take(1).len() == 1);
                assert(entries.take(1)[0] == entries[0]);
                assert(out@ =~= base + seq![0x7bu8] + spec_record_entries(entries.take(1)));
            } else {
                assert(out@ =~= base + seq![0x7bu8] + spec_record_entries(entries.take(k + 1)));
            }
        }
        k = k + 1;
    }
    out.push(0x7d);
    proof {
        assert(entries.take(n as int) =~= entries);
        assert(out@ =~= base + spec_record_object(o));
    }
}

/// Renders the traffic-log record for an inbound message.
pub fn record_message_in(m: &MessageIn) -> (r: Vec<u8>)
    ensures
        r@ == spec_record_in(m),
{
    let mut out: Vec<u8> = Vec::new();
    push_bytes(&mut out, "MessageIn { publisher: ".as_bytes());
    crate::json::push_json_string(&mut out, m.publisher.as_str());
    push_bytes(&mut out, ", id: ".as_bytes());
    crate::json::push_json_string(&mut out, m.id.as_str());
    push_bytes(&mut out, ", objects: [".as_bytes());
    let ghost mid = out@;
    let n = m.objects.len();
    let mut k: usize = 0;
    proof {
        assert(out@ =~= mid + spec_record_objects(m.objects@.take(0)));
    }
    while k < n
        invariant
            k <= n == m.objects@.len(),
            out@ == mid + spec_record_objects(m.objects@.take(k as int)),
        decreases n - k,
    {
        if k > 0 {
            push_bytes(&mut out, ", ".as_bytes());
        }
        push_record_object(&mut out, &m.objects[k]);
        proof {
            assert(m.objects@.take(k + 1).drop_last() =~= m.objects@.take(k as int));
            assert(m.objects@.take(k + 1).last() == m.objects@[k as int]);
            if k == 0 {
                assert(m.objects@.take(1).len() == 1);
                assert(m.objects@.take(1)[0] == m.objects@[0]);
                assert(out@ =~= mid + spec_record_objects(m.objects@.take(1)));
            } else {
                assert(out@ =~= mid + spec_record_objects(m.objects@.take(k + 1)));
            }
        }
        k = k + 1;
    }
    push_bytes(&mut out, "] }".as_bytes());
    proof {
        assert(m.objects@.take(n as int) =~= m.objects@);
        assert(out@ =~= spec_record_in(m));
    }
    out
}

/// Renders the traffic-log record for an outbound message.
pub fn record_message_out(m: &MessageOut) -> (r: Vec<u8>)
    ensures
        r@ == spec_record_out(m@),
{
    let mut out: Vec<u8> = Vec::new();
    push_bytes(&mut out, "MessageOut { publisher: ".as_bytes());
    crate::json::push_json_string(&mut out, m.publisher.as_str());
    push_bytes(&mut out, ", id: ".as_bytes());
    crate::json::push_json_string(&mut out, m.id.as_str());
    push_bytes(&mut out, ", object_id: ".as_bytes());
    crate::json::push_decimal(&mut out, m.object_id);
    push_bytes(&mut out, ", key_code: ".as_bytes());
    crate::json::push_json_string(&mut out, m.key_code.as_str());
    push_bytes(&mut out, " }".as_bytes());
    proof {
        assert(out@ =~= spec_record_out(m@));
    }
    out
}

} // verus!
