//! The message types carried through the system: inbound telemetry messages,
//! outbound feedback messages, and the attribute bags they contain.

use vstd::prelude::*;
use vstd::string::StringSliceAdditionalSpecFns;

verus! {

/// The map an association list denotes: later entries overwrite earlier ones.
pub open spec fn assoc_map(entries: Seq<(Seq<char>, Seq<char>)>) -> Map<Seq<char>, Seq<char>>
    decreases entries.len(),
{
    if entries.len() == 0 {
        Map::empty()
    } else {
        assoc_map(entries.drop_last()).insert(entries.last().0, entries.last().1)
    }
}

/// An attribute bag: a mapping from attribute names to untyped string
/// values, with each name present at most once.
pub struct Object {
    entries: Vec<(String, String)>,
}

impl View for Object {
    type V = Map<Seq<char>, Seq<char>>;

    open spec fn view(&self) -> Map<Seq<char>, Seq<char>> {
        assoc_map(self.entries_view())
    }
}

impl Object {
    /// The entries in insertion order, as character sequences.
    pub closed spec fn entries_view(&self) -> Seq<(Seq<char>, Seq<char>)> {
        self.entries@.map_values(|e: (String, String)| (e.0@, e.1@))
    }

    /// Each attribute name occurs at most once.
    pub open spec fn wf(&self) -> bool {
        forall|i: int, j: int|
            0 <= i < j < self.entries_view().len() ==> (#[trigger] self.entries_view()[i]).0 != (
            #[trigger] self.entries_view()[j]).0
    }

    pub fn new() -> (r: Object)
        ensures
            r.wf(),
            r@ == Map::<Seq<char>, Seq<char>>::empty(),
            r.entries_view() == Seq::<(Seq<char>, Seq<char>)>::empty(),
    {
        Object { entries: Vec::new() }
    }

    /// Number of attributes.
    pub fn len(&self) -> (n: usize)
        ensures
            n == self.entries_view().len(),
    {
        self.entries.len()
    }

    /// The attribute pair at a position, in insertion order.
    pub fn entry_at(&self, i: usize) -> (r: (&String, &String))
        requires
            i < self.entries_view().len(),
        ensures
            r.0@ == self.entries_view()[i as int].0,
            r.1@ == self.entries_view()[i as int].1,
            (r.0@, r.1@) == self.entries_view()[i as int],
    {
        (&self.entries[i].0, &self.entries[i].1)
    }

    /// Binds a value to an attribute name; a previous binding of the same
    /// name is overwritten.
    pub fn insert(&mut self, key: String, value: String)
        requires
            old(self).wf(),
        ensures
            final(self).wf(),
            final(self)@ == old(self)@.insert(key@, value@),
    {
        let ghost pre = self.entries_view();
        let n = self.entries.len();
        let mut i: usize = 0;
        while i < n
            invariant
                n == pre.len(),
                pre == self.entries_view(),
                old(self).wf(),
                pre == old(self).entries_view(),
                i <= n,
                forall|k: int| 0 <= k < i ==> (#[trigger] pre[k]).0 != key@,
            decreases n - i,
        {
            if string_eq(&self.entries[i].0, &key) {
                let ghost idx = i as int;
                self.entries[i] = (key, value);
                proof {
                    let post = self.entries_view();
                    assert(post =~= pre.update(idx, (pre[idx].0, value@)));
                    lemma_assoc_update(pre, idx, value@);
                    assert(forall|k: int| 0 <= k < post.len() ==> post[k].0 == #[trigger] pre[k].0);
                }
                return ;
            }
            i = i + 1;
        }
        self.entries.push((key, value));
        proof {
            let post = self.entries_view();
            assert(post.drop_last() =~= pre);
            assert(post.last() == (key@, value@));
            assert(forall|k: int| 0 <= k < pre.len() ==> post[k] == #[trigger] pre[k]);
            assert forall|a: int, b: int| 0 <= a < b < post.len() implies (#[trigger] post[a]).0
                != (#[trigger] post[b]).0 by {
                if b == post.len() - 1 {
                    assert(pre[a].0 != key@);
                    assert(post[a] == pre[a]);
                } else {
                    assert(post[a] == pre[a]);
                    assert(post[b] == pre[b]);
                    assert(pre[a].0 != pre[b].0);
                }
            }
            assert(assoc_map(post) == assoc_map(pre).insert(key@, value@));
        }
    }

    /// Looks an attribute up by name.
    pub fn get(&self, key: &str) -> (r: Option<&String>)
        requires
            self.wf(),
        ensures
            match r {
                Some(v) => self@.contains_key(key@) && v@ == self@[key@],
                None => !self@.contains_key(key@),
            },
    {
        let n = self.entries.len();
        let mut i: usize = 0;
        proof {
            lemma_assoc_contains(self.entries_view());
        }
        while i < n
            invariant
                self.wf(),
                n == self.entries_view().len(),
                i <= n,
                forall|k: int| 0 <= k < i ==> #[trigger] self.entries_view()[k].0 != key@,
                forall|k: int|
                    0 <= k < self.entries_view().len() ==> (self@.contains_key(
                        #[trigger] self.entries_view()[k].0,
                    ) && self@[self.entries_view()[k].0] == self.entries_view()[k].1),
                forall|q: Seq<char>|
                    #[trigger] self@.contains_key(q) ==> exists|k: int|
                        0 <= k < self.entries_view().len() && (
                        #[trigger] self.entries_view()[k]).0 == q,
            decreases n - i,
        {
            if str_eq_str(self.entries[i].0.as_str(), key) {
                proof {
                    assert(self.entries_view()[i as int].0 == key@);
                    assert(self@.contains_key(self.entries_view()[i as int].0));
                }
                return Some(&self.entries[i].1);
            }
            i = i + 1;
        }
        proof {
            if self@.contains_key(key@) {
                let k = choose|k: int|
                    0 <= k < self.entries_view().len() && (#[trigger] self.entries_view()[k]).0
                        == key@;
                assert(self.entries_view()[k].0 != key@);
            }
        }
        None
    }
}

/// With unique names to its left, updating the entry holding a name denotes
/// the same map as inserting the new value.
proof fn lemma_assoc_update(entries: Seq<(Seq<char>, Seq<char>)>, i: int, value: Seq<char>)
    requires
        0 <= i < entries.len(),
        forall|a: int, b: int|
            0 <= a < b < entries.len() ==> #[trigger] entries[a].0 != #[trigger] entries[b].0,
    ensures
        assoc_map(entries.update(i, (entries[i].0, value))) == assoc_map(entries).insert(
            entries[i].0,
            value,
        ),
    decreases entries.len(),
{
    let updated = entries.update(i, (entries[i].0, value));
    if i == entries.len() - 1 {
        assert(updated.drop_last() == entries.drop_last());
        lemma_assoc_absent_key(entries.drop_last(), entries[i].0);
        assert(assoc_map(updated) =~= assoc_map(entries).insert(entries[i].0, value));
    } else {
        assert(updated.drop_last() == entries.drop_last().update(i, (entries[i].0, value)));
        lemma_assoc_update(entries.drop_last(), i, value);
        assert(updated.last() == entries.last());
        assert(assoc_map(updated) =~= assoc_map(entries).insert(entries[i].0, value));
    }
}

/// A name no entry holds is not in the denoted map's domain.
proof fn lemma_assoc_absent_key(entries: Seq<(Seq<char>, Seq<char>)>, key: Seq<char>)
    requires
        forall|k: int| 0 <= k < entries.len() ==> #[trigger] entries[k].0 != key,
    ensures
        !assoc_map(entries).contains_key(key),
    decreases entries.len(),
{
    if entries.len() > 0 {
        lemma_assoc_absent_key(entries.drop_last(), key);
    }
}

/// The denoted map binds exactly the names the entries hold; with unique
/// names, each to the value beside it.
pub proof fn lemma_assoc_contains(entries: Seq<(Seq<char>, Seq<char>)>)
    requires
        forall|a: int, b: int|
            0 <= a < b < entries.len() ==> #[trigger] entries[a].0 != #[trigger] entries[b].0,
    ensures
        forall|k: int|
            0 <= k < entries.len() ==> (assoc_map(entries).contains_key(
                #[trigger] entries[k].0,
            ) && assoc_map(entries)[entries[k].0] == entries[k].1),
        forall|q: Seq<char>|
            #[trigger] assoc_map(entries).contains_key(q) ==> exists|k: int|
                0 <= k < entries.len() && (#[trigger] entries[k]).0 == q,
    decreases entries.len(),
{
    if entries.len() > 0 {
        let prior = entries.drop_last();
        lemma_assoc_contains(prior);
        assert(forall|k: int| 0 <= k < entries.len() - 1 ==> #[trigger] prior[k] == entries[k]);
        assert forall|k: int| 0 <= k < entries.len() implies (assoc_map(entries).contains_key(
            (#[trigger] entries[k]).0,
        ) && assoc_map(entries)[entries[k].0] == entries[k].1) by {
            if k == entries.len() - 1 {
                assert(assoc_map(entries) == assoc_map(prior).insert(
                    entries[k].0,
                    entries[k].1,
                ));
            } else {
                assert(prior[k] == entries[k]);
                assert(assoc_map(prior).contains_key(entries[k].0));
                assert(entries[k].0 != entries.last().0);
            }
        }
        assert forall|q: Seq<char>| #[trigger] assoc_map(entries).contains_key(q) implies exists|
            k: int,
        | 0 <= k < entries.len() && (#[trigger] entries[k]).0 == q by {
            if q == entries.last().0 {
                assert(entries[entries.len() - 1].0 == q);
            } else {
                assert(assoc_map(prior).contains_key(q));
                let k = choose|k: int| 0 <= k < prior.len() && (#[trigger] prior[k]).0 == q;
                assert(entries[k].0 == q);
            }
        }
    }
}

/// Compares two strings character for character.
pub fn string_eq(a: &String, b: &String) -> (r: bool)
    ensures
        r == (a@ == b@),
{
    a.eq(b)
}

/// Compares two string slices character for character.
pub fn str_eq_str(a: &str, b: &str) -> (r: bool)
    ensures
        r == (a@ == b@),
{
    let a_bytes = a.as_bytes();
    let b_bytes = b.as_bytes();
    proof {
        vstd::utf8::encode_utf8_decode_utf8(a@);
        vstd::utf8::encode_utf8_decode_utf8(b@);
    }
    if a_bytes.len() != b_bytes.len() {
        return false;
    }
    let n = a_bytes.len();
    let mut i: usize = 0;
    while i < n
        invariant
            n == a_bytes@.len() == b_bytes@.len(),
            i <= n,
            forall|k: int| 0 <= k < i ==> a_bytes@[k] == b_bytes@[k],
            a_bytes@ == a.spec_bytes(),
            b_bytes@ == b.spec_bytes(),
            a@ == vstd::utf8::decode_utf8(a.spec_bytes()),
            b@ == vstd::utf8::decode_utf8(b.spec_bytes()),
        decreases n - i,
    {
        if a_bytes[i] != b_bytes[i] {
            proof {
                assert(a.spec_bytes() != b.spec_bytes());
            }
            return false;
        }
        i = i + 1;
    }
    proof {
        assert(a.spec_bytes() =~= b.spec_bytes());
    }
    true
}

/// The ghost shape of an inbound message.
pub ghost struct MessageInView {
    pub publisher: Seq<char>,
    pub id: Seq<char>,
    pub objects: Seq<Map<Seq<char>, Seq<char>>>,
}

/// One telemetry message received from a publisher: the routing key, an
/// opaque correlation token, and an ordered sequence of attribute bags.
pub struct MessageIn {
    pub publisher: String,
    pub id: String,
    pub objects: Vec<Object>,
}

impl View for MessageIn {
    type V = MessageInView;

    open spec fn view(&self) -> MessageInView {
        MessageInView {
            publisher: self.publisher@,
            id: self.id@,
            objects: self.objects@.map_values(|o: Object| o@),
        }
    }
}

impl MessageIn {
    /// Every attribute bag is well formed.
    pub open spec fn wf(&self) -> bool {
        forall|i: int| 0 <= i < self.objects@.len() ==> (#[trigger] self.objects@[i]).wf()
    }
}

/// The ghost shape of an outbound message.
pub ghost struct MessageOutView {
    pub publisher: Seq<char>,
    pub id: Seq<char>,
    pub object_id: u32,
    pub key_code: Seq<char>,
}

/// One feedback message for a publisher: it echoes the id of the inbound
/// message that triggered it and names the object and key involved.
pub struct MessageOut {
    pub publisher: String,
    pub id: String,
    pub object_id: u32,
    pub key_code: String,
}

impl View for MessageOut {
    type V = MessageOutView;

    open spec fn view(&self) -> MessageOutView {
        MessageOutView {
            publisher: self.publisher@,
            id: self.id@,
            object_id: self.object_id,
            key_code: self.key_code@,
        }
    }
}

/// A timestamped variant of the inbound message shape, kept for publishers
/// that stamp their telemetry at the source.
pub struct Message {
    pub publisher: String,
    pub topic: String,
    pub timestamp: u64,
    pub objects: Vec<Object>,
}

} // verus!
