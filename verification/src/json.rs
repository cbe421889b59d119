//! The wire format: frames are JSON objects carried as raw bytes. This
//! module defines the grammar as specification functions over byte
//! sequences and provides an executable parser and printer proved against
//! it.
//!
//! The grammar is standard JSON: strings take the single-character
//! escapes and `\u` escapes (a surrogate pair as two escapes; a lone
//! surrogate is rejected), and may otherwise contain any byte except `"`
//! and `\`, with the whole content required to be valid UTF-8. A frame
//! outside the grammar is dropped.

use crate::messages::assoc_map;
use crate::messages::str_eq_str;
use crate::messages::MessageIn;
use crate::messages::MessageInView;
use crate::messages::Object;
use vstd::prelude::*;
use vstd::string::StringSliceAdditionalSpecFns;
use vstd::utf8::decode_utf8;
use vstd::utf8::encode_utf8;
use vstd::utf8::valid_utf8;

verus! {

broadcast use vstd::std_specs::vec::group_vec_axioms, vstd::seq::group_seq_axioms;

/// Insignificant whitespace between tokens: space, tab, line feed,
/// carriage return.
pub open spec fn is_ws(b: u8) -> bool {
    b == 0x20 || b == 0x09 || b == 0x0a || b == 0x0d
}

/// First position at or after `i` holding a byte that is not whitespace.
pub open spec fn spec_skip_ws(s: Seq<u8>, i: int) -> int
    decreases s.len() - i,
{
    if 0 <= i < s.len() && is_ws(s[i]) {
        spec_skip_ws(s, i + 1)
    } else {
        i
    }
}

pub proof fn lemma_skip_ws_bounds(s: Seq<u8>, i: int)
    requires
        0 <= i <= s.len(),
    ensures
        i <= spec_skip_ws(s, i) <= s.len(),
    decreases s.len() - i,
{
    if i < s.len() && is_ws(s[i]) {
        lemma_skip_ws_bounds(s, i + 1);
    }
}

fn skip_ws(s: &[u8], i: usize) -> (j: usize)
    requires
        i <= s@.len(),
    ensures
        j == spec_skip_ws(s@, i as int),
        i <= j <= s@.len(),
    decreases s@.len() - i,
{
    if i < s.len() {
        let b = s[i];
        if b == 0x20 || b == 0x09 || b == 0x0a || b == 0x0d {
            return skip_ws(s, i + 1);
        }
    }
    i
}

/// An ASCII decimal digit.
pub open spec fn is_digit(b: u8) -> bool {
    0x30 <= b <= 0x39
}

/// First position at or after `i` holding a byte that is not a digit.
pub open spec fn spec_skip_digits(s: Seq<u8>, i: int) -> int
    decreases s.len() - i,
{
    if 0 <= i < s.len() && is_digit(s[i]) {
        spec_skip_digits(s, i + 1)
    } else {
        i
    }
}

pub proof fn lemma_skip_digits_bounds(s: Seq<u8>, i: int)
    requires
        0 <= i <= s.len(),
    ensures
        i <= spec_skip_digits(s, i) <= s.len(),
    decreases s.len() - i,
{
    if i < s.len() && is_digit(s[i]) {
        lemma_skip_digits_bounds(s, i + 1);
    }
}

fn skip_digits(s: &[u8], i: usize) -> (j: usize)
    requires
        i <= s@.len(),
    ensures
        j == spec_skip_digits(s@, i as int),
        i <= j <= s@.len(),
    decreases s@.len() - i,
{
    if i < s.len() {
        let b = s[i];
        if 0x30 <= b && b <= 0x39 {
            return skip_digits(s, i + 1);
        }
    }
    i
}

/// The byte a backslash escape stands for, if the escape is accepted.
pub open spec fn spec_unescape(b: u8) -> Option<u8> {
    if b == 0x22 {
        Some(0x22)
    } else if b == 0x5c {
        Some(0x5c)
    } else if b == 0x2f {
        Some(0x2f)
    } else if b == 0x62 {
        Some(0x08)
    } else if b == 0x66 {
        Some(0x0c)
    } else if b == 0x6e {
        Some(0x0a)
    } else if b == 0x72 {
        Some(0x0d)
    } else if b == 0x74 {
        Some(0x09)
    } else {
        None
    }
}

fn unescape(b: u8) -> (r: Option<u8>)
    ensures
        r == spec_unescape(b),
{
    if b == 0x22 {
        Some(0x22)
    } else if b == 0x5c {
        Some(0x5c)
    } else if b == 0x2f {
        Some(0x2f)
    } else if b == 0x62 {
        Some(0x08)
    } else if b == 0x66 {
        Some(0x0c)
    } else if b == 0x6e {
        Some(0x0a)
    } else if b == 0x72 {
        Some(0x0d)
    } else if b == 0x74 {
        Some(0x09)
    } else {
        None
    }
}

/// The numeric value of an ASCII hexadecimal digit.
#[verifier::opaque]
pub open spec fn spec_hex_val(b: u8) -> Option<u32> {
    if 0x30 <= b <= 0x39 {
        Some((b - 0x30) as u32)
    } else if 0x41 <= b <= 0x46 {
        Some((b - 0x41 + 10) as u32)
    } else if 0x61 <= b <= 0x66 {
        Some((b - 0x61 + 10) as u32)
    } else {
        None
    }
}

/// The value of the four hexadecimal digits starting at `i`.
#[verifier::opaque]
pub open spec fn spec_hex4(s: Seq<u8>, i: int) -> Option<u32> {
    if 0 <= i && i + 4 <= s.len() {
        match (
            spec_hex_val(s[i]),
            spec_hex_val(s[i + 1]),
            spec_hex_val(s[i + 2]),
            spec_hex_val(s[i + 3]),
        ) {
            (Some(a), Some(b), Some(c), Some(d)) => Some(
                (((a * 16 + b) * 16 + c) * 16 + d) as u32,
            ),
            _ => None,
        }
    } else {
        None
    }
}

/// A `\u` escape starting at its backslash: the scalar it denotes and
/// the position after it. A supplementary-plane scalar is written as a
/// surrogate pair, two `\u` escapes; a lone surrogate is rejected.
#[verifier::opaque]
pub open spec fn spec_unicode_escape(s: Seq<u8>, i: int) -> Option<(u32, int)> {
    match spec_hex4(s, i + 2) {
        None => None,
        Some(unit1) => if 0xD800 <= unit1 <= 0xDBFF {
            if i + 8 <= s.len() && s[i + 6] == 0x5c && s[i + 7] == 0x75 {
                match spec_hex4(s, i + 8) {
                    Some(unit2) => if 0xDC00 <= unit2 <= 0xDFFF {
                        Some(
                            (
                                (0x10000 + (unit1 - 0xD800) * 0x400 + (unit2 - 0xDC00)) as u32,
                                i + 12,
                            ),
                        )
                    } else {
                        None
                    },
                    None => None,
                }
            } else {
                None
            }
        } else if 0xDC00 <= unit1 <= 0xDFFF {
            None
        } else {
            Some((unit1, i + 6))
        },
    }
}

/// Scans a string literal's content from just after the opening quote:
/// yields the bytes the content stands for and the position after the
/// closing quote.
pub open spec fn spec_string_body(s: Seq<u8>, i: int) -> Option<(Seq<u8>, int)>
    decreases s.len() - i,
{
    if !(0 <= i < s.len()) {
        None
    } else if s[i] == 0x22 {
        Some((Seq::empty(), i + 1))
    } else if s[i] == 0x5c {
        if i + 1 >= s.len() {
            None
        } else if s[i + 1] == 0x75 {
            match spec_unicode_escape(s, i) {
                Some((v, j)) => if i < j <= s.len() {
                    match spec_string_body(s, j) {
                        Some((rest, k)) => Some((vstd::utf8::encode_scalar(v) + rest, k)),
                        None => None,
                    }
                } else {
                    None
                },
                None => None,
            }
        } else {
            match spec_unescape(s[i + 1]) {
                Some(b) => match spec_string_body(s, i + 2) {
                    Some((rest, j)) => Some((seq![b] + rest, j)),
                    None => None,
                },
                None => None,
            }
        }
    } else {
        match spec_string_body(s, i + 1) {
            Some((rest, j)) => Some((seq![s[i]] + rest, j)),
            None => None,
        }
    }
}

pub proof fn lemma_string_body_bounds(s: Seq<u8>, i: int)
    requires
        0 <= i <= s.len(),
    ensures
        match spec_string_body(s, i) {
            Some((_, j)) => i < j <= s.len(),
            None => true,
        },
    decreases s.len() - i,
{
    if i < s.len() && s[i] != 0x22 {
        if s[i] == 0x5c {
            if i + 1 < s.len() && s[i + 1] == 0x75 {
                if let Some((v, j)) = spec_unicode_escape(s, i) {
                    if i < j <= s.len() {
                        lemma_string_body_bounds(s, j);
                    }
                }
            } else if i + 2 <= s.len() {
                lemma_string_body_bounds(s, i + 2);
            }
        } else {
            lemma_string_body_bounds(s, i + 1);
        }
    }
}

/// A whole string literal starting at `i`: the character sequence it
/// denotes and the position after the closing quote. The content must be
/// valid UTF-8 once escapes are resolved.
pub open spec fn spec_parse_string(s: Seq<u8>, i: int) -> Option<(Seq<char>, int)> {
    if 0 <= i < s.len() && s[i] == 0x22 {
        match spec_string_body(s, i + 1) {
            Some((bytes, j)) => if valid_utf8(bytes) {
                Some((decode_utf8(bytes), j))
            } else {
                None
            },
            None => None,
        }
    } else {
        None
    }
}

/// Builds the string a byte vector encodes.
///
/// Relies on `String::from_utf8`: it succeeds exactly on valid UTF-8 input
/// and returns the string whose UTF-8 encoding is that input.
#[verifier::external_body]
fn string_from_utf8(bytes: Vec<u8>) -> (r: Option<String>)
    ensures
        match r {
            Some(t) => valid_utf8(bytes@) && t@ == decode_utf8(bytes@),
            None => !valid_utf8(bytes@),
        },
{
    String::from_utf8(bytes).ok()
}

fn hex_val(b: u8) -> (r: Option<u32>)
    ensures
        r == spec_hex_val(b),
        r matches Some(v) ==> v < 16,
{
    proof {
        reveal(spec_hex_val);
    }
    if 0x30 <= b && b <= 0x39 {
        Some((b - 0x30) as u32)
    } else if 0x41 <= b && b <= 0x46 {
        Some((b - 0x41 + 10) as u32)
    } else if 0x61 <= b && b <= 0x66 {
        Some((b - 0x61 + 10) as u32)
    } else {
        None
    }
}

fn hex4(s: &[u8], i: usize) -> (r: Option<u32>)
    requires
        i <= s@.len(),
    ensures
        r == spec_hex4(s@, i as int),
        r matches Some(v) ==> v <= 0xFFFF && i + 4 <= s@.len(),
{
    proof {
        reveal(spec_hex4);
    }
    if s.len() - i >= 4 {
        match (hex_val(s[i]), hex_val(s[i + 1]), hex_val(s[i + 2]), hex_val(s[i + 3])) {
            (Some(a), Some(b), Some(c), Some(d)) => Some(((a * 16 + b) * 16 + c) * 16 + d),
            _ => None,
        }
    } else {
        None
    }
}

fn unicode_escape(s: &[u8], i: usize) -> (r: Option<(u32, usize)>)
    requires
        i < s@.len(),
    ensures
        match (r, spec_unicode_escape(s@, i as int)) {
            (Some((v, j)), Some((sv, sj))) => v == sv && j == sj && i < j <= s@.len()
                && vstd::utf8::is_scalar(v),
            (None, None) => true,
            _ => false,
        },
{
    proof {
        reveal(spec_unicode_escape);
        reveal(spec_hex4);
    }
    if s.len() - i < 6 {
        return None;
    }
    let unit1 = match hex4(s, i + 2) {
        Some(v) => v,
        None => {
            return None;
        },
    };
    if 0xD800 <= unit1 && unit1 <= 0xDBFF {
        if s.len() - i >= 8 && s[i + 6] == 0x5c && s[i + 7] == 0x75 {
            match hex4(s, i + 8) {
                Some(unit2) => if 0xDC00 <= unit2 && unit2 <= 0xDFFF {
                    Some((0x10000 + (unit1 - 0xD800) * 0x400 + (unit2 - 0xDC00), i + 12))
                } else {
                    None
                },
                None => None,
            }
        } else {
            None
        }
    } else if 0xDC00 <= unit1 && unit1 <= 0xDFFF {
        None
    } else {
        Some((unit1, i + 6))
    }
}

/// Appends the UTF-8 encoding of one Unicode scalar.
fn push_scalar_utf8(out: &mut Vec<u8>, v: u32)
    requires
        vstd::utf8::is_scalar(v),
    ensures
        final(out)@ == old(out)@ + vstd::utf8::encode_scalar(v),
{
    if v <= 0x7F {
        out.push((v & 0x7F) as u8);
        proof {
            assert(out@ =~= old(out)@ + vstd::utf8::encode_scalar(v));
        }
    } else if v <= 0x7FF {
        out.push(0xC0 | ((v >> 6) & 0x1F) as u8);
        out.push(0x80 | (v & 0x3F) as u8);
        proof {
            assert(out@ =~= old(out)@ + vstd::utf8::encode_scalar(v));
        }
    } else if v <= 0xFFFF {
        out.push(0xE0 | ((v >> 12) & 0x0F) as u8);
        out.push(0x80 | ((v >> 6) & 0x3F) as u8);
        out.push(0x80 | (v & 0x3F) as u8);
        proof {
            assert(out@ =~= old(out)@ + vstd::utf8::encode_scalar(v));
        }
    } else {
        out.push(0xF0 | ((v >> 18) & 0x7) as u8);
        out.push(0x80 | ((v >> 12) & 0x3F) as u8);
        out.push(0x80 | ((v >> 6) & 0x3F) as u8);
        out.push(0x80 | (v & 0x3F) as u8);
        proof {
            assert(out@ =~= old(out)@ + vstd::utf8::encode_scalar(v));
        }
    }
}

fn parse_string(s: &[u8], i: usize) -> (r: Option<(String, usize)>)
    requires
        i <= s@.len(),
    ensures
        match (r, spec_parse_string(s@, i as int)) {
            (Some((t, j)), Some((tv, jv))) => t@ == tv && j == jv && i < j <= s@.len(),
            (None, None) => true,
            _ => false,
        },
{
    if i >= s.len() || s[i] != 0x22 {
        return None;
    }
    let mut acc: Vec<u8> = Vec::new();
    let mut cur: usize = i + 1;
    loop
        invariant
            i + 1 <= cur <= s@.len(),
            i < s@.len() && s@[i as int] == 0x22,
            spec_string_body(s@, i + 1) == (match spec_string_body(s@, cur as int) {
                Some((rest, j)) => Some((acc@ + rest, j)),
                None => None::<(Seq<u8>, int)>,
            }),
        decreases s@.len() - cur,
    {
        if cur >= s.len() {
            return None;
        }
        let b = s[cur];
        if b == 0x22 {
            proof {
                assert(spec_string_body(s@, cur as int) == Some(
                    (Seq::<u8>::empty(), cur + 1 as int),
                ));
                assert(acc@ + Seq::<u8>::empty() =~= acc@);
            }
            let j = cur + 1;
            match string_from_utf8(acc) {
                Some(t) => {
                    return Some((t, j));
                },
                None => {
                    return None;
                },
            }
        } else if b == 0x5c {
            if cur + 1 >= s.len() {
                return None;
            }
            if s[cur + 1] == 0x75 {
                match unicode_escape(s, cur) {
                    Some((v, j)) => {
                        let ghost old_acc = acc@;
                        push_scalar_utf8(&mut acc, v);
                        proof {
                            if let Some((rest, k)) = spec_string_body(s@, j as int) {
                                assert(old_acc + (vstd::utf8::encode_scalar(v) + rest) =~= acc@
                                    + rest);
                            }
                        }
                        cur = j;
                    },
                    None => {
                        return None;
                    },
                }
            } else {
                match unescape(s[cur + 1]) {
                    Some(x) => {
                        let ghost old_acc = acc@;
                        acc.push(x);
                        proof {
                            if let Some((rest, j)) = spec_string_body(s@, cur + 2 as int) {
                                assert(old_acc + (seq![x] + rest) =~= acc@ + rest);
                            }
                        }
                        cur = cur + 2;
                    },
                    None => {
                        return None;
                    },
                }
            }
        } else {
            let ghost old_acc = acc@;
            acc.push(b);
            proof {
                if let Some((rest, j)) = spec_string_body(s@, cur + 1 as int) {
                    assert(old_acc + (seq![b] + rest) =~= acc@ + rest);
                }
            }
            cur = cur + 1;
        }
    }
}

/// End of the number literal starting at `i`, if the bytes there spell a
/// JSON number: an optional minus sign, an integer part without a leading
/// zero, then optional fraction and exponent parts.
pub open spec fn spec_number_end(s: Seq<u8>, i: int) -> Option<int> {
    let j0 = if 0 <= i < s.len() && s[i] == 0x2d {
        i + 1
    } else {
        i
    };
    if !(0 <= j0 < s.len() && is_digit(s[j0])) {
        None
    } else {
        let j1 = if s[j0] == 0x30 {
            j0 + 1
        } else {
            spec_skip_digits(s, j0)
        };
        match spec_number_frac(s, j1) {
            None => None,
            Some(j2) => spec_number_exp(s, j2),
        }
    }
}

/// End of the optional fraction part starting at `j1`.
pub open spec fn spec_number_frac(s: Seq<u8>, j1: int) -> Option<int> {
    if 0 <= j1 < s.len() && s[j1] == 0x2e {
        let j2 = spec_skip_digits(s, j1 + 1);
        if j2 > j1 + 1 {
            Some(j2)
        } else {
            None
        }
    } else {
        Some(j1)
    }
}

/// End of the optional exponent part starting at `j2`.
pub open spec fn spec_number_exp(s: Seq<u8>, j2: int) -> Option<int> {
    if 0 <= j2 < s.len() && (s[j2] == 0x65 || s[j2] == 0x45) {
        let j3 = if j2 + 1 < s.len() && (s[j2 + 1] == 0x2b || s[j2 + 1] == 0x2d) {
            j2 + 2
        } else {
            j2 + 1
        };
        let j4 = spec_skip_digits(s, j3);
        if j4 > j3 {
            Some(j4)
        } else {
            None
        }
    } else {
        Some(j2)
    }
}

pub proof fn lemma_number_end_bounds(s: Seq<u8>, i: int)
    requires
        0 <= i <= s.len(),
    ensures
        match spec_number_end(s, i) {
            Some(j) => i < j <= s.len(),
            None => true,
        },
{
    let j0 = if i < s.len() && s[i] == 0x2d {
        i + 1
    } else {
        i
    };
    if j0 < s.len() && is_digit(s[j0]) {
        lemma_skip_digits_bounds(s, j0);
        if s[j0] != 0x30 {
            assert(spec_skip_digits(s, j0) == spec_skip_digits(s, j0 + 1));
            lemma_skip_digits_bounds(s, j0 + 1);
        }
        let j1 = if s[j0] == 0x30 {
            j0 + 1
        } else {
            spec_skip_digits(s, j0)
        };
        assert(j0 < j1 <= s.len());
        if j1 < s.len() && s[j1] == 0x2e {
            lemma_skip_digits_bounds(s, j1 + 1);
        }
        if let Some(j2) = spec_number_frac(s, j1) {
            if j2 < s.len() && (s[j2] == 0x65 || s[j2] == 0x45) {
                let j3 = if j2 + 1 < s.len() && (s[j2 + 1] == 0x2b || s[j2 + 1] == 0x2d) {
                    j2 + 2
                } else {
                    j2 + 1
                };
                lemma_skip_digits_bounds(s, j3);
            }
        }
    }
}

fn number_end(s: &[u8], i: usize) -> (r: Option<usize>)
    requires
        i <= s@.len(),
    ensures
        match (r, spec_number_end(s@, i as int)) {
            (Some(j), Some(jv)) => j == jv && i < j <= s@.len(),
            (None, None) => true,
            _ => false,
        },
{
    proof {
        lemma_number_end_bounds(s@, i as int);
    }
    let j0: usize = if i < s.len() && s[i] == 0x2d {
        i + 1
    } else {
        i
    };
    if !(j0 < s.len() && 0x30 <= s[j0] && s[j0] <= 0x39) {
        return None;
    }
    let j1: usize = if s[j0] == 0x30 {
        j0 + 1
    } else {
        skip_digits(s, j0)
    };
    let j2: usize = if j1 < s.len() && s[j1] == 0x2e {
        let k = skip_digits(s, j1 + 1);
        if k > j1 + 1 {
            k
        } else {
            return None;
        }
    } else {
        j1
    };
    if j2 < s.len() && (s[j2] == 0x65 || s[j2] == 0x45) {
        let j3: usize = if j2 + 1 < s.len() && (s[j2 + 1] == 0x2b || s[j2 + 1] == 0x2d) {
            j2 + 2
        } else {
            j2 + 1
        };
        let j4 = skip_digits(s, j3);
        if j4 > j3 {
            Some(j4)
        } else {
            None
        }
    } else {
        Some(j2)
    }
}

/// The ghost shape of a parsed JSON value.
pub ghost enum JsonView {
    Null,
    Bool(bool),
    Num(Seq<u8>),
    Str(Seq<char>),
    Arr(Seq<JsonView>),
    Obj(Seq<(Seq<char>, JsonView)>),
}

/// A parsed JSON value. Numbers keep their raw spelling: nothing in the
/// system reads a number other than to carry it along.
pub enum JsonValue {
    Null,
    Bool(bool),
    Num(Vec<u8>),
    Str(String),
    Arr(Vec<JsonValue>),
    Obj(Vec<(String, JsonValue)>),
}

/// The ghost shapes of a sequence of parsed values, in order.
pub open spec fn views_of_values(items: Seq<JsonValue>) -> Seq<JsonView>
    decreases items,
{
    if items.len() == 0 {
        Seq::empty()
    } else {
        views_of_values(items.drop_last()).push(items.last()@)
    }
}

/// The ghost shapes of a sequence of parsed members, in order.
pub open spec fn views_of_members(members: Seq<(String, JsonValue)>) -> Seq<(Seq<char>, JsonView)>
    decreases members,
{
    if members.len() == 0 {
        Seq::empty()
    } else {
        views_of_members(members.drop_last()).push((members.last().0@, members.last().1@))
    }
}

impl View for JsonValue {
    type V = JsonView;

    open spec fn view(&self) -> JsonView
        decreases self,
    {
        match self {
            JsonValue::Null => JsonView::Null,
            JsonValue::Bool(b) => JsonView::Bool(*b),
            JsonValue::Num(raw) => JsonView::Num(raw@),
            JsonValue::Str(t) => JsonView::Str(t@),
            JsonValue::Arr(items) => JsonView::Arr(views_of_values(items@)),
            JsonValue::Obj(members) => JsonView::Obj(views_of_members(members@)),
        }
    }
}

/// A complete JSON value starting at `i`: its shape and the position just
/// after it.
pub open spec fn spec_parse_value(s: Seq<u8>, i: int) -> Option<(JsonView, int)>
    decreases s.len() - i, 0int,
{
    if !(0 <= i < s.len()) {
        None
    } else if s[i] == 0x7b {
        match spec_object_rest(s, i + 1) {
            Some((ms, j)) => Some((JsonView::Obj(ms), j)),
            None => None,
        }
    } else if s[i] == 0x5b {
        match spec_array_rest(s, i + 1) {
            Some((vs, j)) => Some((JsonView::Arr(vs), j)),
            None => None,
        }
    } else if s[i] == 0x22 {
        match spec_parse_string(s, i) {
            Some((t, j)) => Some((JsonView::Str(t), j)),
            None => None,
        }
    } else if s[i] == 0x74 {
        if i + 4 <= s.len() && s[i + 1] == 0x72 && s[i + 2] == 0x75 && s[i + 3] == 0x65 {
            Some((JsonView::Bool(true), i + 4))
        } else {
            None
        }
    } else if s[i] == 0x66 {
        if i + 5 <= s.len() && s[i + 1] == 0x61 && s[i + 2] == 0x6c && s[i + 3] == 0x73 && s[i + 4]
            == 0x65 {
            Some((JsonView::Bool(false), i + 5))
        } else {
            None
        }
    } else if s[i] == 0x6e {
        if i + 4 <= s.len() && s[i + 1] == 0x75 && s[i + 2] == 0x6c && s[i + 3] == 0x6c {
            Some((JsonView::Null, i + 4))
        } else {
            None
        }
    } else if s[i] == 0x2d || is_digit(s[i]) {
        match spec_number_end(s, i) {
            Some(j) => if i < j <= s.len() {
                Some((JsonView::Num(s.subrange(i, j)), j))
            } else {
                None
            },
            None => None,
        }
    } else {
        None
    }
}

/// The remainder of an object starting just after its `{`.
pub open spec fn spec_object_rest(s: Seq<u8>, i: int) -> Option<(Seq<(Seq<char>, JsonView)>, int)>
    decreases s.len() - i, 2int,
{
    if !(0 <= i <= s.len()) {
        None
    } else {
        let j = spec_skip_ws(s, i);
        if !(i <= j < s.len()) {
            None
        } else if s[j] == 0x7d {
            Some((Seq::empty(), j + 1))
        } else {
            spec_members(s, j)
        }
    }
}

/// One or more `key: value` members starting at the first key's quote,
/// up to and including the closing `}`.
pub open spec fn spec_members(s: Seq<u8>, i: int) -> Option<(Seq<(Seq<char>, JsonView)>, int)>
    decreases s.len() - i, 1int,
{
    if !(0 <= i < s.len()) {
        None
    } else {
        match spec_parse_string(s, i) {
            None => None,
            Some((key, k)) => {
                let m = spec_skip_ws(s, k);
                if !(0 <= m < s.len() && s[m] == 0x3a) {
                    None
                } else {
                    let v_at = spec_skip_ws(s, m + 1);
                    if !(i <= v_at <= s.len()) {
                        None
                    } else {
                        match spec_parse_value(s, v_at) {
                            None => None,
                            Some((val, e)) => {
                                let t = spec_skip_ws(s, e);
                                if !(0 <= t < s.len()) {
                                    None
                                } else if s[t] == 0x7d {
                                    Some((seq![(key, val)], t + 1))
                                } else if s[t] == 0x2c {
                                    let n = spec_skip_ws(s, t + 1);
                                    if !(i < n <= s.len()) {
                                        None
                                    } else {
                                        match spec_members(s, n) {
                                            Some((rest, z)) => Some((seq![(key, val)] + rest, z)),
                                            None => None,
                                        }
                                    }
                                } else {
                                    None
                                }
                            },
                        }
                    }
                }
            },
        }
    }
}

/// The remainder of an array starting just after its `[`.
pub open spec fn spec_array_rest(s: Seq<u8>, i: int) -> Option<(Seq<JsonView>, int)>
    decreases s.len() - i, 2int,
{
    if !(0 <= i <= s.len()) {
        None
    } else {
        let j = spec_skip_ws(s, i);
        if !(i <= j < s.len()) {
            None
        } else if s[j] == 0x5d {
            Some((Seq::empty(), j + 1))
        } else {
            spec_elems(s, j)
        }
    }
}

/// One or more array elements starting at the first element, up to and
/// including the closing `]`.
pub open spec fn spec_elems(s: Seq<u8>, i: int) -> Option<(Seq<JsonView>, int)>
    decreases s.len() - i, 1int,
{
    if !(0 <= i < s.len()) {
        None
    } else {
        match spec_parse_value(s, i) {
            None => None,
            Some((val, e)) => {
                let t = spec_skip_ws(s, e);
                if !(0 <= t < s.len()) {
                    None
                } else if s[t] == 0x5d {
                    Some((seq![val], t + 1))
                } else if s[t] == 0x2c {
                    let n = spec_skip_ws(s, t + 1);
                    if !(i < n <= s.len()) {
                        None
                    } else {
                        match spec_elems(s, n) {
                            Some((rest, z)) => Some((seq![val] + rest, z)),
                            None => None,
                        }
                    }
                } else {
                    None
                }
            },
        }
    }
}

/// A whole frame: one JSON value, surrounded only by whitespace.
pub open spec fn spec_parse_json(s: Seq<u8>) -> Option<JsonView> {
    match spec_parse_value(s, spec_skip_ws(s, 0)) {
        Some((v, j)) => if 0 <= j <= s.len() && spec_skip_ws(s, j) == s.len() {
            Some(v)
        } else {
            None
        },
        None => None,
    }
}

pub proof fn lemma_views_of_values_index(items: Seq<JsonValue>)
    ensures
        views_of_values(items).len() == items.len(),
        forall|k: int| 0 <= k < items.len() ==> views_of_values(items)[k] == (#[trigger] items[k])@,
    decreases items,
{
    if items.len() > 0 {
        lemma_views_of_values_index(items.drop_last());
        assert forall|k: int| 0 <= k < items.len() implies views_of_values(items)[k] == (
        #[trigger] items[k])@ by {
            assert(views_of_values(items) == views_of_values(items.drop_last()).push(
                items.last()@,
            ));
            if k < items.len() - 1 {
                assert(items.drop_last()[k] == items[k]);
                assert(views_of_values(items)[k] == views_of_values(items.drop_last())[k]);
            } else {
                assert(views_of_values(items)[k] == items.last()@);
            }
        }
    }
}

pub proof fn lemma_views_of_members_index(members: Seq<(String, JsonValue)>)
    ensures
        views_of_members(members).len() == members.len(),
        forall|k: int|
            0 <= k < members.len() ==> views_of_members(members)[k] == ((
            #[trigger] members[k]).0@, members[k].1@),
    decreases members,
{
    if members.len() > 0 {
        lemma_views_of_members_index(members.drop_last());
        assert forall|k: int| 0 <= k < members.len() implies views_of_members(members)[k] == ((
        #[trigger] members[k]).0@, members[k].1@) by {
            assert(views_of_members(members) == views_of_members(members.drop_last()).push(
                (members.last().0@, members.last().1@),
            ));
            if k < members.len() - 1 {
                assert(members.drop_last()[k] == members[k]);
                assert(views_of_members(members)[k] == views_of_members(members.drop_last())[k]);
            } else {
                assert(views_of_members(members)[k] == (members.last().0@, members.last().1@));
            }
        }
    }
}

fn parse_value(s: &[u8], i: usize) -> (r: Option<(JsonValue, usize)>)
    requires
        i <= s@.len(),
    ensures
        match (r, spec_parse_value(s@, i as int)) {
            (Some((v, j)), Some((sv, sj))) => v@ == sv && j == sj && i < j <= s@.len(),
            (None, None) => true,
            _ => false,
        },
    decreases s@.len() - i, 0int,
{
    if i >= s.len() {
        return None;
    }
    let b = s[i];
    if b == 0x7b {
        match parse_object_rest(s, i + 1) {
            Some((ms, j)) => Some((JsonValue::Obj(ms), j)),
            None => None,
        }
    } else if b == 0x5b {
        match parse_array_rest(s, i + 1) {
            Some((vs, j)) => Some((JsonValue::Arr(vs), j)),
            None => None,
        }
    } else if b == 0x22 {
        match parse_string(s, i) {
            Some((t, j)) => Some((JsonValue::Str(t), j)),
            None => None,
        }
    } else if b == 0x74 {
        if s.len() - i >= 4 && s[i + 1] == 0x72 && s[i + 2] == 0x75 && s[i + 3] == 0x65 {
            Some((JsonValue::Bool(true), i + 4))
        } else {
            None
        }
    } else if b == 0x66 {
        if s.len() - i >= 5 && s[i + 1] == 0x61 && s[i + 2] == 0x6c && s[i + 3] == 0x73 && s[i + 4]
            == 0x65 {
            Some((JsonValue::Bool(false), i + 5))
        } else {
            None
        }
    } else if b == 0x6e {
        if s.len() - i >= 4 && s[i + 1] == 0x75 && s[i + 2] == 0x6c && s[i + 3] == 0x6c {
            Some((JsonValue::Null, i + 4))
        } else {
            None
        }
    } else if b == 0x2d || (0x30 <= b && b <= 0x39) {
        match number_end(s, i) {
            Some(j) => {
                let mut raw: Vec<u8> = Vec::new();
                let mut k: usize = i;
                while k < j
                    invariant
                        i <= k <= j <= s@.len(),
                        raw@ == s@.subrange(i as int, k as int),
                    decreases j - k,
                {
                    raw.push(s[k]);
                    proof {
                        assert(raw@ =~= s@.subrange(i as int, k + 1 as int));
                    }
                    k = k + 1;
                }
                Some((JsonValue::Num(raw), j))
            },
            None => None,
        }
    } else {
        None
    }
}

fn parse_object_rest(s: &[u8], i: usize) -> (r: Option<(Vec<(String, JsonValue)>, usize)>)
    requires
        i <= s@.len(),
    ensures
        match (r, spec_object_rest(s@, i as int)) {
            (Some((ms, j)), Some((sms, sj))) => views_of_members(ms@) == sms && j == sj && i < j
                <= s@.len(),
            (None, None) => true,
            _ => false,
        },
    decreases s@.len() - i, 2int,
{
    let j = skip_ws(s, i);
    if j >= s.len() {
        return None;
    }
    if s[j] == 0x7d {
        let ms: Vec<(String, JsonValue)> = Vec::new();
        proof {
            assert(views_of_members(ms@) =~= Seq::<(Seq<char>, JsonView)>::empty());
        }
        return Some((ms, j + 1));
    }
    parse_members(s, j)
}

fn parse_members(s: &[u8], i: usize) -> (r: Option<(Vec<(String, JsonValue)>, usize)>)
    requires
        i <= s@.len(),
    ensures
        match (r, spec_members(s@, i as int)) {
            (Some((ms, j)), Some((sms, sj))) => views_of_members(ms@) == sms && j == sj && i < j
                <= s@.len(),
            (None, None) => true,
            _ => false,
        },
    decreases s@.len() - i, 1int,
{
    let mut acc: Vec<(String, JsonValue)> = Vec::new();
    let mut cur: usize = i;
    loop
        invariant
            i <= cur <= s@.len(),
            spec_members(s@, i as int) == (match spec_members(s@, cur as int) {
                Some((rest, z)) => Some((views_of_members(acc@) + rest, z)),
                None => None::<(Seq<(Seq<char>, JsonView)>, int)>,
            }),
        decreases s@.len() - cur,
    {
        if cur >= s.len() {
            return None;
        }
        let (key, k) = match parse_string(s, cur) {
            Some(p) => p,
            None => {
                return None;
            },
        };
        let m = skip_ws(s, k);
        if !(m < s.len() && s[m] == 0x3a) {
            return None;
        }
        let v_at = skip_ws(s, m + 1);
        let (val, e) = match parse_value(s, v_at) {
            Some(p) => p,
            None => {
                return None;
            },
        };
        let t = skip_ws(s, e);
        if t >= s.len() {
            return None;
        }
        if s[t] == 0x7d {
            let ghost old_acc = acc@;
            acc.push((key, val));
            proof {
                assert(acc@.drop_last() =~= old_acc);
                assert(views_of_members(acc@) == views_of_members(old_acc).push(
                    (acc@.last().0@, acc@.last().1@),
                ));
                assert(views_of_members(acc@) =~= views_of_members(old_acc) + seq![
                    (key@, val@),
                ]);
            }
            return Some((acc, t + 1));
        } else if s[t] == 0x2c {
            let n = skip_ws(s, t + 1);
            if !(cur < n) {
                return None;
            }
            let ghost old_acc = acc@;
            acc.push((key, val));
            proof {
                assert(acc@.drop_last() =~= old_acc);
                assert(views_of_members(acc@) == views_of_members(old_acc).push(
                    (acc@.last().0@, acc@.last().1@),
                ));
                if let Some((rest2, z)) = spec_members(s@, n as int) {
                    assert(views_of_members(old_acc) + (seq![(key@, val@)] + rest2)
                        =~= views_of_members(acc@) + rest2);
                }
            }
            cur = n;
        } else {
            return None;
        }
    }
}

fn parse_array_rest(s: &[u8], i: usize) -> (r: Option<(Vec<JsonValue>, usize)>)
    requires
        i <= s@.len(),
    ensures
        match (r, spec_array_rest(s@, i as int)) {
            (Some((vs, j)), Some((svs, sj))) => views_of_values(vs@) == svs && j == sj && i < j
                <= s@.len(),
            (None, None) => true,
            _ => false,
        },
    decreases s@.len() - i, 2int,
{
    let j = skip_ws(s, i);
    if j >= s.len() {
        return None;
    }
    if s[j] == 0x5d {
        let vs: Vec<JsonValue> = Vec::new();
        proof {
            assert(views_of_values(vs@) =~= Seq::<JsonView>::empty());
        }
        return Some((vs, j + 1));
    }
    parse_elems(s, j)
}

fn parse_elems(s: &[u8], i: usize) -> (r: Option<(Vec<JsonValue>, usize)>)
    requires
        i <= s@.len(),
    ensures
        match (r, spec_elems(s@, i as int)) {
            (Some((vs, j)), Some((svs, sj))) => views_of_values(vs@) == svs && j == sj && i < j
                <= s@.len(),
            (None, None) => true,
            _ => false,
        },
    decreases s@.len() - i, 1int,
{
    let mut acc: Vec<JsonValue> = Vec::new();
    let mut cur: usize = i;
    loop
        invariant
            i <= cur <= s@.len(),
            spec_elems(s@, i as int) == (match spec_elems(s@, cur as int) {
                Some((rest, z)) => Some((views_of_values(acc@) + rest, z)),
                None => None::<(Seq<JsonView>, int)>,
            }),
        decreases s@.len() - cur,
    {
        if cur >= s.len() {
            return None;
        }
        let (val, e) = match parse_value(s, cur) {
            Some(p) => p,
            None => {
                return None;
            },
        };
        let t = skip_ws(s, e);
        if t >= s.len() {
            return None;
        }
        if s[t] == 0x5d {
            let ghost old_acc = acc@;
            acc.push(val);
            proof {
                assert(acc@.drop_last() =~= old_acc);
                assert(views_of_values(acc@) == views_of_values(old_acc).push(acc@.last()@));
                assert(views_of_values(acc@) =~= views_of_values(old_acc) + seq![val@]);
            }
            return Some((acc, t + 1));
        } else if s[t] == 0x2c {
            let n = skip_ws(s, t + 1);
            if !(cur < n) {
                return None;
            }
            let ghost old_acc = acc@;
            acc.push(val);
            proof {
                assert(acc@.drop_last() =~= old_acc);
                assert(views_of_values(acc@) == views_of_values(old_acc).push(acc@.last()@));
                if let Some((rest2, z)) = spec_elems(s@, n as int) {
                    assert(views_of_values(old_acc) + (seq![val@] + rest2) =~= views_of_values(
                        acc@,
                    ) + rest2);
                }
            }
            cur = n;
        } else {
            return None;
        }
    }
}

/// The value bound to a key in a member list; when a key repeats, the
/// later member wins.
pub open spec fn json_lookup(ms: Seq<(Seq<char>, JsonView)>, key: Seq<char>) -> Option<JsonView>
    decreases ms.len(),
{
    if ms.len() == 0 {
        None
    } else if ms.last().0 == key {
        Some(ms.last().1)
    } else {
        json_lookup(ms.drop_last(), key)
    }
}

fn lookup<'a>(ms: &'a Vec<(String, JsonValue)>, key: &str) -> (r: Option<&'a JsonValue>)
    ensures
        match (r, json_lookup(views_of_members(ms@), key@)) {
            (Some(v), Some(sv)) => v@ == sv,
            (None, None) => true,
            _ => false,
        },
{
    let ghost sv = views_of_members(ms@);
    proof {
        lemma_views_of_members_index(ms@);
        assert(sv.take(ms@.len() as int) =~= sv);
    }
    let mut idx = ms.len();
    while idx > 0
        invariant
            idx <= ms@.len(),
            sv == views_of_members(ms@),
            sv.len() == ms@.len(),
            forall|k: int| 0 <= k < ms@.len() ==> sv[k] == ((#[trigger] ms@[k]).0@, ms@[k].1@),
            json_lookup(sv, key@) == json_lookup(sv.take(idx as int), key@),
        decreases idx,
    {
        if str_eq_str(ms[idx - 1].0.as_str(), key) {
            proof {
                assert(sv.take(idx as int).last() == sv[idx - 1]);
            }
            return Some(&ms[idx - 1].1);
        }
        proof {
            assert(sv.take(idx as int).last() == sv[idx - 1]);
            assert(sv.take(idx as int).drop_last() =~= sv.take(idx - 1));
        }
        idx = idx - 1;
    }
    proof {
        assert(sv.take(0) =~= Seq::<(Seq<char>, JsonView)>::empty());
    }
    None
}

/// True when every member's value is a string literal.
pub open spec fn all_string_members(ms: Seq<(Seq<char>, JsonView)>) -> bool {
    forall|k: int| 0 <= k < ms.len() ==> (#[trigger] ms[k]).1 is Str
}

/// The attribute pairs a flat object's members denote; members whose
/// value is not a string contribute nothing.
pub open spec fn string_member_pairs(ms: Seq<(Seq<char>, JsonView)>) -> Seq<
    (Seq<char>, Seq<char>),
>
    decreases ms.len(),
{
    if ms.len() == 0 {
        Seq::empty()
    } else {
        let rest = string_member_pairs(ms.drop_last());
        match ms.last().1 {
            JsonView::Str(t) => rest.push((ms.last().0, t)),
            _ => rest,
        }
    }
}

/// The attribute bag a parsed value denotes: it must be an object whose
/// values are all strings; a repeated attribute name keeps the later
/// value.
pub open spec fn spec_object_of(v: JsonView) -> Option<Map<Seq<char>, Seq<char>>> {
    match v {
        JsonView::Obj(ms) => if all_string_members(ms) {
            Some(assoc_map(string_member_pairs(ms)))
        } else {
            None
        },
        _ => None,
    }
}

fn object_of(v: &JsonValue) -> (r: Option<Object>)
    ensures
        match (r, spec_object_of(v@)) {
            (Some(o), Some(m)) => o@ == m && o.wf(),
            (None, None) => true,
            _ => false,
        },
{
    match v {
        JsonValue::Obj(ms) => {
            let ghost sv = views_of_members(ms@);
            proof {
                lemma_views_of_members_index(ms@);
                assert(v@ == JsonView::Obj(sv));
                assert(sv.take(0) =~= Seq::<(Seq<char>, JsonView)>::empty());
            }
            let mut obj = Object::new();
            let n = ms.len();
            let mut k: usize = 0;
            while k < n
                invariant
                    k <= n == ms@.len(),
                    sv == views_of_members(ms@),
                    v@ == JsonView::Obj(sv),
                    sv.len() == ms@.len(),
                    forall|q: int|
                        0 <= q < ms@.len() ==> sv[q] == ((#[trigger] ms@[q]).0@, ms@[q].1@),
                    all_string_members(sv.take(k as int)),
                    obj.wf(),
                    obj@ == assoc_map(string_member_pairs(sv.take(k as int))),
                decreases n - k,
            {
                let (key, val) = &ms[k];
                match val {
                    JsonValue::Str(t) => {
                        proof {
                            assert(sv[k as int].1 == ms@[k as int].1@);
                            assert(sv[k as int].1 is Str);
                        }
                        obj.insert(key.clone(), t.clone());
                        proof {
                            assert(sv.take(k + 1).drop_last() =~= sv.take(k as int));
                            assert(sv.take(k + 1).last() == sv[k as int]);
                            let pp = string_member_pairs(sv.take(k as int));
                            let pair = (ms@[k as int].0@, t@);
                            assert(string_member_pairs(sv.take(k + 1)) == pp.push(pair));
                            assert(pp.push(pair).drop_last() =~= pp);
                            assert(pp.push(pair).last() == pair);
                            assert(assoc_map(pp.push(pair)) == assoc_map(pp).insert(
                                pair.0,
                                pair.1,
                            ));
                            assert forall|q: int| 0 <= q < k + 1 implies (#[trigger] sv.take(
                                k + 1,
                            )[q]).1 is Str by {
                                assert(sv.take(k + 1)[q] == sv[q]);
                                if q < k {
                                    assert(sv.take(k as int)[q] == sv[q]);
                                    assert(sv.take(k as int)[q].1 is Str);
                                }
                            }
                        }
                    },
                    _ => {
                        proof {
                            assert(sv[k as int].1 == ms@[k as int].1@);
                            assert(!(sv[k as int].1 is Str));
                            assert(!all_string_members(sv));
                            assert(spec_object_of(v@) is None);
                        }
                        return None;
                    },
                }
                k = k + 1;
            }
            proof {
                assert(sv.take(n as int) =~= sv);
            }
            Some(obj)
        },
        _ => None,
    }
}

/// The attribute bags an array of flat objects denotes.
pub open spec fn spec_objects_of(vs: Seq<JsonView>) -> Option<Seq<Map<Seq<char>, Seq<char>>>>
    decreases vs.len(),
{
    if vs.len() == 0 {
        Some(Seq::empty())
    } else {
        match (spec_objects_of(vs.drop_last()), spec_object_of(vs.last())) {
            (Some(rest), Some(o)) => Some(rest.push(o)),
            _ => None,
        }
    }
}

/// The inbound message a parsed frame denotes: an object with string
/// fields `publisher` and `id` and an `objects` array of flat string
/// maps. Other members are ignored.
pub open spec fn spec_message_of_json(v: JsonView) -> Option<MessageInView> {
    match v {
        JsonView::Obj(ms) => match (
            json_lookup(ms, "publisher"@),
            json_lookup(ms, "id"@),
            json_lookup(ms, "objects"@),
        ) {
            (Some(JsonView::Str(p)), Some(JsonView::Str(id)), Some(JsonView::Arr(vs))) => match
                spec_objects_of(vs) {
                Some(objs) => Some(MessageInView { publisher: p, id: id, objects: objs }),
                None => None,
            },
            _ => None,
        },
        _ => None,
    }
}

/// Reads an inbound message out of a parsed frame.
pub fn message_in_of_json(v: &JsonValue) -> (r: Option<MessageIn>)
    ensures
        match (r, spec_message_of_json(v@)) {
            (Some(m), Some(mv)) => m@ == mv && m.wf(),
            (None, None) => true,
            _ => false,
        },
{
    let ms = match v {
        JsonValue::Obj(ms) => ms,
        _ => {
            return None;
        },
    };
    proof {
        assert(v@ == JsonView::Obj(views_of_members(ms@)));
    }
    let publisher = match lookup(ms, "publisher") {
        Some(JsonValue::Str(t)) => t.clone(),
        _ => {
            return None;
        },
    };
    let id = match lookup(ms, "id") {
        Some(JsonValue::Str(t)) => t.clone(),
        _ => {
            return None;
        },
    };
    let items = match lookup(ms, "objects") {
        Some(JsonValue::Arr(items)) => items,
        _ => {
            return None;
        },
    };
    let ghost iv = views_of_values(items@);
    proof {
        lemma_views_of_values_index(items@);
        assert(spec_objects_of(iv.take(0)) == Some(Seq::<Map<Seq<char>, Seq<char>>>::empty()));
    }
    let mut objects: Vec<Object> = Vec::new();
    let n = items.len();
    let mut k: usize = 0;
    while k < n
        invariant
            k <= n == items@.len(),
            iv == views_of_values(items@),
            v@ == JsonView::Obj(views_of_members(ms@)),
            json_lookup(views_of_members(ms@), "publisher"@) == Some(
                JsonView::Str(publisher@),
            ),
            json_lookup(views_of_members(ms@), "id"@) == Some(JsonView::Str(id@)),
            json_lookup(views_of_members(ms@), "objects"@) == Some(JsonView::Arr(iv)),
            iv.len() == items@.len(),
            forall|q: int| 0 <= q < items@.len() ==> iv[q] == (#[trigger] items@[q])@,
            objects@.len() == k,
            spec_objects_of(iv.take(k as int)) == Some(
                objects@.map_values(|o: Object| o@),
            ),
            forall|q: int| 0 <= q < objects@.len() ==> (#[trigger] objects@[q]).wf(),
        decreases n - k,
    {
        match object_of(&items[k]) {
            Some(o) => {
                let ghost prev = objects@;
                objects.push(o);
                proof {
                    assert(iv.take(k + 1).drop_last() =~= iv.take(k as int));
                    assert(iv.take(k + 1).last() == iv[k as int]);
                    assert(objects@.map_values(|o: Object| o@) =~= prev.map_values(
                        |o: Object| o@,
                    ).push(objects@.last()@));
                }
            },
            None => {
                proof {
                    assert(iv.take(k + 1).drop_last() =~= iv.take(k as int));
                    assert(iv.take(k + 1).last() == iv[k as int]);
                    lemma_objects_of_prefix_none(iv, k + 1);
                }
                return None;
            },
        }
        k = k + 1;
    }
    proof {
        assert(iv.take(n as int) =~= iv);
    }
    Some(MessageIn { publisher, id, objects })
}

/// Once a prefix of the array fails to denote attribute bags, the whole
/// array fails.
proof fn lemma_objects_of_prefix_none(vs: Seq<JsonView>, k: int)
    requires
        0 <= k <= vs.len(),
        spec_objects_of(vs.take(k)) is None,
    ensures
        spec_objects_of(vs) is None,
    decreases vs.len() - k,
{
    if k < vs.len() {
        assert(vs.take(k + 1).drop_last() =~= vs.take(k));
        lemma_objects_of_prefix_none(vs, k + 1);
    } else {
        assert(vs.take(k) =~= vs);
    }
}

/// The inbound message some frame bytes denote, if they denote one.
pub open spec fn spec_decode_frame(s: Seq<u8>) -> Option<MessageInView> {
    match spec_parse_json(s) {
        Some(v) => spec_message_of_json(v),
        None => None,
    }
}

/// Decodes one frame: the bytes must spell one JSON object, surrounded
/// only by whitespace, with string fields `publisher` and `id` and an
/// `objects` array of flat string maps.
pub fn decode_frame(s: &[u8]) -> (r: Option<MessageIn>)
    ensures
        match (r, spec_decode_frame(s@)) {
            (Some(m), Some(mv)) => m@ == mv && m.wf(),
            (None, None) => true,
            _ => false,
        },
{
    match parse_json(s) {
        Some(v) => message_in_of_json(&v),
        None => None,
    }
}

/// Parses one whole frame: a single JSON value surrounded only by
/// whitespace.
pub fn parse_json(s: &[u8]) -> (r: Option<JsonValue>)
    ensures
        match (r, spec_parse_json(s@)) {
            (Some(v), Some(sv)) => v@ == sv,
            (None, None) => true,
            _ => false,
        },
{
    let start = skip_ws(s, 0);
    match parse_value(s, start) {
        Some((v, j)) => {
            let end = skip_ws(s, j);
            if end == s.len() {
                Some(v)
            } else {
                None
            }
        },
        None => None,
    }
}

/// The bytes a single content byte contributes to a JSON string literal.
pub open spec fn spec_escape_byte(b: u8) -> Seq<u8> {
    if b == 0x22 {
        seq![0x5c, 0x22]
    } else if b == 0x5c {
        seq![0x5c, 0x5c]
    } else if b == 0x08 {
        seq![0x5c, 0x62]
    } else if b == 0x0c {
        seq![0x5c, 0x66]
    } else if b == 0x0a {
        seq![0x5c, 0x6e]
    } else if b == 0x0d {
        seq![0x5c, 0x72]
    } else if b == 0x09 {
        seq![0x5c, 0x74]
    } else {
        seq![b]
    }
}

/// The escaped form of a string's UTF-8 bytes.
pub open spec fn spec_escape_bytes(bytes: Seq<u8>) -> Seq<u8>
    decreases bytes.len(),
{
    if bytes.len() == 0 {
        Seq::empty()
    } else {
        spec_escape_bytes(bytes.drop_last()) + spec_escape_byte(bytes.last())
    }
}

/// The JSON string literal that denotes a character sequence.
pub open spec fn spec_encode_string(t: Seq<char>) -> Seq<u8> {
    seq![0x22u8] + spec_escape_bytes(encode_utf8(t)) + seq![0x22u8]
}

/// Appends the JSON string literal for `t`.
pub(crate) fn push_json_string(out: &mut Vec<u8>, t: &str)
    ensures
        final(out)@ == old(out)@ + spec_encode_string(t@),
{
    let ghost base = out@;
    out.push(0x22);
    let bytes = t.as_bytes();
    let n = bytes.len();
    let mut k: usize = 0;
    while k < n
        invariant
            k <= n == bytes@.len(),
            bytes@ == t.spec_bytes(),
            out@ == base + seq![0x22u8] + spec_escape_bytes(bytes@.take(k as int)),
        decreases n - k,
    {
        let b = bytes[k];
        proof {
            assert(bytes@.take(k + 1).drop_last() =~= bytes@.take(k as int));
            assert(bytes@.take(k + 1).last() == b);
        }
        let ghost before = out@;
        if b == 0x22 {
            out.push(0x5c);
            out.push(0x22);
        } else if b == 0x5c {
            out.push(0x5c);
            out.push(0x5c);
        } else if b == 0x08 {
            out.push(0x5c);
            out.push(0x62);
        } else if b == 0x0c {
            out.push(0x5c);
            out.push(0x66);
        } else if b == 0x0a {
            out.push(0x5c);
            out.push(0x6e);
        } else if b == 0x0d {
            out.push(0x5c);
            out.push(0x72);
        } else if b == 0x09 {
            out.push(0x5c);
            out.push(0x74);
        } else {
            out.push(b);
        }
        proof {
            assert(out@ =~= before + spec_escape_byte(b));
            assert(out@ =~= base + seq![0x22u8] + spec_escape_bytes(bytes@.take(k + 1)));
        }
        k = k + 1;
    }
    out.push(0x22);
    proof {
        assert(bytes@.take(n as int) =~= bytes@);
        assert(out@ =~= base + spec_encode_string(t@));
    }
}

/// The decimal spelling of a nonnegative number.
pub open spec fn spec_decimal(n: int) -> Seq<u8>
    decreases n,
{
    if n < 10 {
        seq![(0x30 + n) as u8]
    } else {
        spec_decimal(n / 10) + seq![(0x30 + n % 10) as u8]
    }
}

/// Appends the decimal spelling of `n`.
pub(crate) fn push_decimal(out: &mut Vec<u8>, n: u32)
    ensures
        final(out)@ == old(out)@ + spec_decimal(n as int),
    decreases n,
{
    if n < 10 {
        out.push((0x30 + n) as u8);
        proof {
            assert(out@ =~= old(out)@ + spec_decimal(n as int));
        }
    } else {
        push_decimal(out, n / 10);
        out.push((0x30 + (n % 10)) as u8);
        proof {
            assert(out@ =~= old(out)@ + spec_decimal(n as int));
        }
    }
}

/// The wire line that encodes an outbound message (without the trailing
/// newline).
pub open spec fn spec_encode_message_out(m: crate::messages::MessageOutView) -> Seq<u8> {
    seq![0x7bu8] + spec_encode_string("publisher"@) + seq![0x3au8] + spec_encode_string(
        m.publisher,
    ) + seq![0x2cu8] + spec_encode_string("id"@) + seq![0x3au8] + spec_encode_string(m.id) + seq![
        0x2cu8,
    ] + spec_encode_string("objectId"@) + seq![0x3au8] + spec_decimal(m.object_id as int) + seq![
        0x2cu8,
    ] + spec_encode_string("keyCode"@) + seq![0x3au8] + spec_encode_string(m.key_code) + seq![
        0x7du8,
    ]
}

/// Encodes an outbound message as one JSON object.
pub fn encode_message_out(m: &crate::messages::MessageOut) -> (r: Vec<u8>)
    ensures
        r@ == spec_encode_message_out(m@),
{
    let mut out: Vec<u8> = Vec::new();
    out.push(0x7b);
    push_json_string(&mut out, "publisher");
    out.push(0x3a);
    push_json_string(&mut out, m.publisher.as_str());
    out.push(0x2c);
    push_json_string(&mut out, "id");
    out.push(0x3a);
    push_json_string(&mut out, m.id.as_str());
    out.push(0x2c);
    push_json_string(&mut out, "objectId");
    out.push(0x3a);
    push_decimal(&mut out, m.object_id);
    out.push(0x2c);
    push_json_string(&mut out, "keyCode");
    out.push(0x3a);
    push_json_string(&mut out, m.key_code.as_str());
    out.push(0x7d);
    proof {
        assert(out@ =~= spec_encode_message_out(m@));
    }
    out
}

/// The members of the JSON object that encodes an attribute bag, in the
/// bag's own entry order.
pub open spec fn spec_encode_entries(entries: Seq<(Seq<char>, Seq<char>)>) -> Seq<u8>
    decreases entries.len(),
{
    if entries.len() == 0 {
        Seq::empty()
    } else if entries.len() == 1 {
        spec_encode_string(entries[0].0) + seq![0x3au8] + spec_encode_string(entries[0].1)
    } else {
        spec_encode_entries(entries.drop_last()) + seq![0x2cu8] + spec_encode_string(
            entries.last().0,
        ) + seq![0x3au8] + spec_encode_string(entries.last().1)
    }
}

/// The JSON object that encodes an attribute bag.
pub open spec fn spec_encode_object(o: &Object) -> Seq<u8> {
    seq![0x7bu8] + spec_encode_entries(o.entries_view()) + seq![0x7du8]
}

/// Appends the JSON object for an attribute bag.
fn push_object(out: &mut Vec<u8>, o: &Object)
    ensures
        final(out)@ == old(out)@ + spec_encode_object(o),
{
    let ghost base = out@;
    let ghost entries = o.entries_view();
    out.push(0x7b);
    let n = o.len();
    let mut k: usize = 0;
    while k < n
        invariant
            k <= n == entries.len(),
            entries == o.entries_view(),
            out@ == base + seq![0x7bu8] + spec_encode_entries(entries.take(k as int)),
        decreases n - k,
    {
        if k > 0 {
            out.push(0x2c);
        }
        let (key, value) = o.entry_at(k);
        push_json_string(out, key.as_str());
        out.push(0x3a);
        push_json_string(out, value.as_str());
        proof {
            assert(entries.take(k + 1).drop_last() =~= entries.take(k as int));
            assert(entries.take(k + 1).last() == entries[k as int]);
            if k == 0 {
                assert(entries.take(1).len() == 1);
                assert(entries.take(1)[0] == entries[0]);
                assert(out@ =~= base + seq![0x7bu8] + spec_encode_entries(entries.take(1)));
            } else {
                assert(out@ =~= base + seq![0x7bu8] + spec_encode_entries(entries.take(k + 1)));
            }
        }
        k = k + 1;
    }
    out.push(0x7d);
    proof {
        assert(entries.take(n as int) =~= entries);
        assert(out@ =~= base + spec_encode_object(o));
    }
}

/// The elements of the JSON array that encodes a message's attribute
/// bags, in order.
pub open spec fn spec_encode_objects(objects: Seq<Object>) -> Seq<u8>
    decreases objects.len(),
{
    if objects.len() == 0 {
        Seq::empty()
    } else if objects.len() == 1 {
        spec_encode_object(&objects[0])
    } else {
        spec_encode_objects(objects.drop_last()) + seq![0x2cu8] + spec_encode_object(
            &objects.last(),
        )
    }
}

/// The JSON object that encodes an inbound message: the same shape the
/// wire carries inbound.
pub open spec fn spec_encode_message_in(m: &MessageIn) -> Seq<u8> {
    seq![0x7bu8] + spec_encode_string("publisher"@) + seq![0x3au8] + spec_encode_string(
        m.publisher@,
    ) + seq![0x2cu8] + spec_encode_string("id"@) + seq![0x3au8] + spec_encode_string(m.id@) + seq![
        0x2cu8,
    ] + spec_encode_string("objects"@) + seq![0x3au8, 0x5bu8] + spec_encode_objects(m.objects@)
        + seq![0x5du8, 0x7du8]
}

/// Encodes an inbound message as one JSON object.
pub fn encode_message_in(m: &MessageIn) -> (r: Vec<u8>)
    ensures
        r@ == spec_encode_message_in(m),
{
    let mut out: Vec<u8> = Vec::new();
    out.push(0x7b);
    push_json_string(&mut out, "publisher");
    out.push(0x3a);
    push_json_string(&mut out, m.publisher.as_str());
    out.push(0x2c);
    push_json_string(&mut out, "id");
    out.push(0x3a);
    push_json_string(&mut out, m.id.as_str());
    out.push(0x2c);
    push_json_string(&mut out, "objects");
    out.push(0x3a);
    out.push(0x5b);
    let ghost mid = out@;
    let n = m.objects.len();
    let mut k: usize = 0;
    while k < n
        invariant
            k <= n == m.objects@.len(),
            out@ == mid + spec_encode_objects(m.objects@.take(k as int)),
        decreases n - k,
    {
        if k > 0 {
            out.push(0x2c);
        }
        push_object(&mut out, &m.objects[k]);
        proof {
            assert(m.objects@.take(k + 1).drop_last() =~= m.objects@.take(k as int));
            assert(m.objects@.take(k + 1).last() == m.objects@[k as int]);
            if k == 0 {
                assert(m.objects@.take(1).len() == 1);
                assert(m.objects@.take(1)[0] == m.objects@[0]);
                assert(out@ =~= mid + spec_encode_objects(m.objects@.take(1)));
            } else {
                assert(out@ =~= mid + spec_encode_objects(m.objects@.take(k + 1)));
            }
        }
        k = k + 1;
    }
    out.push(0x5d);
    out.push(0x7d);
    proof {
        assert(m.objects@.take(n as int) =~= m.objects@);
        assert(out@ =~= spec_encode_message_in(m));
    }
    out
}

/// The escaped form can also be read off the front: the first byte's
/// escape, then the rest.
proof fn lemma_escape_bytes_first(b: Seq<u8>)
    requires
        b.len() > 0,
    ensures
        spec_escape_bytes(b) == spec_escape_byte(b.first()) + spec_escape_bytes(b.drop_first()),
    decreases b.len(),
{
    if b.len() == 1 {
        assert(b.drop_last() =~= Seq::<u8>::empty());
        assert(b.drop_first() =~= Seq::<u8>::empty());
        assert(b.first() == b.last());
        assert(spec_escape_bytes(b) =~= spec_escape_byte(b.first()) + spec_escape_bytes(
            b.drop_first(),
        ));
    } else {
        lemma_escape_bytes_first(b.drop_last());
        assert(b.drop_last().first() == b.first());
        assert(b.drop_last().drop_first() =~= b.drop_first().drop_last());
        assert(b.drop_first().last() == b.last());
        assert(spec_escape_bytes(b) == spec_escape_bytes(b.drop_last()) + spec_escape_byte(
            b.last(),
        ));
        assert(spec_escape_bytes(b.drop_first()) == spec_escape_bytes(b.drop_first().drop_last())
            + spec_escape_byte(b.last()));
        assert(spec_escape_bytes(b) =~= spec_escape_byte(b.first()) + spec_escape_bytes(
            b.drop_first(),
        ));
    }
}

/// Scanning an escaped content followed by a closing quote yields the
/// content back.
proof fn lemma_string_body_round(s: Seq<u8>, i: int, b: Seq<u8>, j: int)
    requires
        0 <= i <= j < s.len(),
        s.subrange(i, j) == spec_escape_bytes(b),
        s[j] == 0x22,
    ensures
        spec_string_body(s, i) == Some((b, j + 1)),
    decreases b.len(),
{
    if b.len() == 0 {
        assert(spec_escape_bytes(b) =~= Seq::<u8>::empty());
        assert(i == j);
    } else {
        lemma_escape_bytes_first(b);
        let head = spec_escape_byte(b.first());
        let tail = spec_escape_bytes(b.drop_first());
        assert(s.subrange(i, j) == head + tail);
        assert(j - i == head.len() + tail.len());
        if b.first() == 0x22 || b.first() == 0x5c || b.first() == 0x08 || b.first() == 0x0c
            || b.first() == 0x0a || b.first() == 0x0d || b.first() == 0x09 {
            assert(head.len() == 2);
            assert(s.subrange(i, j)[0] == s[i]);
            assert(s.subrange(i, j)[1] == s[i + 1]);
            assert(s[i] == head[0]);
            assert(s[i + 1] == head[1]);
            assert(s[i] == 0x5c);
            assert(spec_unescape(s[i + 1]) == Some(b.first()));
            assert forall|q: int| 0 <= q < j - (i + 2) implies s.subrange(i + 2, j)[q]
                == tail[q] by {
                assert(s.subrange(i, j)[q + 2] == s[q + 2 + i]);
                assert(s.subrange(i + 2, j)[q] == s[q + 2 + i]);
                assert((head + tail)[q + 2] == tail[q]);
            }
            assert(s.subrange(i + 2, j) =~= tail);
            lemma_string_body_round(s, i + 2, b.drop_first(), j);
            assert(seq![b.first()] + b.drop_first() =~= b);
        } else {
            assert(head.len() == 1);
            assert(s.subrange(i, j)[0] == s[i]);
            assert(s[i] == head[0]);
            assert(s[i] == b.first());
            assert(s[i] != 0x22 && s[i] != 0x5c);
            assert forall|q: int| 0 <= q < j - (i + 1) implies s.subrange(i + 1, j)[q]
                == tail[q] by {
                assert(s.subrange(i, j)[q + 1] == s[q + 1 + i]);
                assert(s.subrange(i + 1, j)[q] == s[q + 1 + i]);
                assert((head + tail)[q + 1] == tail[q]);
            }
            assert(s.subrange(i + 1, j) =~= tail);
            lemma_string_body_round(s, i + 1, b.drop_first(), j);
            assert(seq![b.first()] + b.drop_first() =~= b);
        }
    }
}

/// Parsing an encoded string literal yields the characters back.
proof fn lemma_parse_string_round(s: Seq<u8>, i: int, t: Seq<char>, j: int)
    requires
        0 <= i < j <= s.len(),
        s.subrange(i, j) == spec_encode_string(t),
    ensures
        spec_parse_string(s, i) == Some((t, j)),
{
    let b = encode_utf8(t);
    let esc = spec_escape_bytes(b);
    assert(spec_encode_string(t).len() == 2 + esc.len());
    assert(j - i == 2 + esc.len());
    assert(s.subrange(i, j)[0] == s[i]);
    assert(s[i] == spec_encode_string(t)[0]);
    assert(s[i] == 0x22);
    assert(s.subrange(i, j)[j - 1 - i] == s[j - 1]);
    assert(spec_encode_string(t)[j - 1 - i] == seq![0x22u8][0]);
    assert(s[j - 1] == 0x22);
    assert forall|q: int| 0 <= q < esc.len() implies s.subrange(i + 1, j - 1)[q] == esc[q] by {
        assert(s.subrange(i, j)[q + 1] == s[q + 1 + i]);
        assert(s.subrange(i + 1, j - 1)[q] == s[q + 1 + i]);
        assert(spec_encode_string(t)[q + 1] == esc[q]);
    }
    assert(s.subrange(i + 1, j - 1) =~= esc);
    lemma_string_body_round(s, i + 1, b, j - 1);
    vstd::utf8::encode_utf8_valid_utf8(t);
    vstd::utf8::encode_utf8_decode_utf8(t);
}

/// The member views a list of attribute pairs denotes: each value as a
/// string literal.
pub open spec fn str_member_views(entries: Seq<(Seq<char>, Seq<char>)>) -> Seq<
    (Seq<char>, JsonView),
> {
    entries.map_values(|e: (Seq<char>, Seq<char>)| (e.0, JsonView::Str(e.1)))
}

/// The encoded members can be read off the front: the first pair, then a
/// comma and the rest.
proof fn lemma_encode_entries_first(entries: Seq<(Seq<char>, Seq<char>)>)
    requires
        entries.len() > 1,
    ensures
        spec_encode_entries(entries) == spec_encode_string(entries[0].0) + seq![0x3au8]
            + spec_encode_string(entries[0].1) + seq![0x2cu8] + spec_encode_entries(
            entries.drop_first(),
        ),
    decreases entries.len(),
{
    if entries.len() == 2 {
        assert(entries.drop_last()[0] == entries[0]);
        assert(entries.drop_last().len() == 1);
        assert(entries.drop_first().len() == 1);
        assert(entries.drop_first()[0] == entries[1]);
        assert(entries.last() == entries[1]);
        assert(spec_encode_entries(entries) =~= spec_encode_string(entries[0].0) + seq![0x3au8]
            + spec_encode_string(entries[0].1) + seq![0x2cu8] + spec_encode_entries(
            entries.drop_first(),
        ));
    } else {
        lemma_encode_entries_first(entries.drop_last());
        assert(entries.drop_last()[0] == entries[0]);
        assert(entries.drop_last().drop_first() =~= entries.drop_first().drop_last());
        assert(entries.drop_first().last() == entries.last());
        assert(entries.drop_first().len() > 1);
        assert(spec_encode_entries(entries) == spec_encode_entries(entries.drop_last()) + seq![
            0x2cu8,
        ] + spec_encode_string(entries.last().0) + seq![0x3au8] + spec_encode_string(
            entries.last().1,
        ));
        assert(spec_encode_entries(entries.drop_last()) == spec_encode_string(entries[0].0)
            + seq![0x3au8] + spec_encode_string(entries[0].1) + seq![0x2cu8]
            + spec_encode_entries(entries.drop_first().drop_last()));
        assert(spec_encode_entries(entries.drop_first()) == spec_encode_entries(
            entries.drop_first().drop_last(),
        ) + seq![0x2cu8] + spec_encode_string(entries.drop_first().last().0) + seq![0x3au8]
            + spec_encode_string(entries.drop_first().last().1));
        assert(spec_encode_entries(entries) =~= spec_encode_string(entries[0].0) + seq![0x3au8]
            + spec_encode_string(entries[0].1) + seq![0x2cu8] + spec_encode_entries(
            entries.drop_first(),
        ));
    }
}

/// One `key: value` member inside a member list: with its pieces parsed,
/// the list parse takes one step.
proof fn lemma_member_step(s: Seq<u8>, i: int, key: Seq<char>, k: int, val: JsonView, e: int)
    requires
        0 <= i < k,
        spec_parse_string(s, i) == Some((key, k)),
        k < s.len(),
        s[k] == 0x3a,
        k + 1 < e,
        !is_ws(s[k + 1]),
        spec_parse_value(s, k + 1) == Some((val, e)),
        0 <= e < s.len(),
    ensures
        s[e] == 0x7d ==> spec_members(s, i) == Some((seq![(key, val)], e + 1)),
        (s[e] == 0x2c && e + 1 < s.len() && !is_ws(s[e + 1])) ==> spec_members(s, i) == (match
            spec_members(s, e + 1) {
            Some((rest, z)) => Some((seq![(key, val)] + rest, z)),
            None => None,
        }),
{
    assert(spec_skip_ws(s, k) == k);
    assert(spec_skip_ws(s, k + 1) == k + 1);
    if s[e] == 0x7d || s[e] == 0x2c {
        assert(spec_skip_ws(s, e) == e);
    }
    if s[e] == 0x2c && e + 1 < s.len() && !is_ws(s[e + 1]) {
        assert(spec_skip_ws(s, e + 1) == e + 1);
        assert(i < e + 1 <= s.len());
    }
}

/// Parsing encoded members followed by a closing brace yields the pairs
/// back, each value as a string literal.
#[verifier::spinoff_prover]
proof fn lemma_members_round(s: Seq<u8>, i: int, entries: Seq<(Seq<char>, Seq<char>)>, j: int)
    requires
        entries.len() > 0,
        0 <= i <= j < s.len(),
        s.subrange(i, j) == spec_encode_entries(entries),
        s[j] == 0x7d,
    ensures
        spec_members(s, i) == Some((str_member_views(entries), j + 1)),
    decreases entries.len(),
{
    let key_enc = spec_encode_string(entries[0].0);
    let val_enc = spec_encode_string(entries[0].1);
    let k = i + key_enc.len();
    let e = k + 1 + val_enc.len();
    if entries.len() == 1 {
        assert(spec_encode_entries(entries) == key_enc + seq![0x3au8] + val_enc);
        assert(j - i == key_enc.len() + 1 + val_enc.len());
        assert forall|q: int| 0 <= q < key_enc.len() implies s.subrange(i, k)[q] == key_enc[q] by {
            assert(s.subrange(i, j)[q] == s[q + i]);
            assert(s.subrange(i, k)[q] == s[q + i]);
        }
        assert(s.subrange(i, k) =~= key_enc);
        lemma_parse_string_round(s, i, entries[0].0, k);
        assert(s.subrange(i, j)[k - i] == s[k]);
        assert(s[k] == 0x3a);
        assert forall|q: int| 0 <= q < val_enc.len() implies s.subrange(k + 1, e)[q]
            == val_enc[q] by {
            assert(s.subrange(i, j)[q + k + 1 - i] == s[q + k + 1]);
            assert(s.subrange(k + 1, e)[q] == s[q + k + 1]);
        }
        assert(s.subrange(k + 1, e) =~= val_enc);
        lemma_parse_string_round(s, k + 1, entries[0].1, e);
        assert(s.subrange(i, j)[k + 1 - i] == s[k + 1]);
        assert(s[k + 1] == 0x22);
        assert(spec_parse_value(s, k + 1) == Some((JsonView::Str(entries[0].1), e)));
        assert(e == j);
        lemma_member_step(s, i, entries[0].0, k, JsonView::Str(entries[0].1), e);
        assert(str_member_views(entries) =~= seq![(entries[0].0, JsonView::Str(entries[0].1))]);
    } else {
        lemma_encode_entries_first(entries);
        let rest_enc = spec_encode_entries(entries.drop_first());
        assert(s.subrange(i, j) == key_enc + seq![0x3au8] + val_enc + seq![0x2cu8] + rest_enc);
        assert(j - i == key_enc.len() + 1 + val_enc.len() + 1 + rest_enc.len());
        assert forall|q: int| 0 <= q < key_enc.len() implies s.subrange(i, k)[q] == key_enc[q] by {
            assert(s.subrange(i, j)[q] == s[q + i]);
            assert(s.subrange(i, k)[q] == s[q + i]);
        }
        assert(s.subrange(i, k) =~= key_enc);
        lemma_parse_string_round(s, i, entries[0].0, k);
        assert(s.subrange(i, j)[k - i] == s[k]);
        assert(s[k] == 0x3a);
        assert forall|q: int| 0 <= q < val_enc.len() implies s.subrange(k + 1, e)[q]
            == val_enc[q] by {
            assert(s.subrange(i, j)[q + k + 1 - i] == s[q + k + 1]);
            assert(s.subrange(k + 1, e)[q] == s[q + k + 1]);
        }
        assert(s.subrange(k + 1, e) =~= val_enc);
        lemma_parse_string_round(s, k + 1, entries[0].1, e);
        assert(s.subrange(i, j)[k + 1 - i] == s[k + 1]);
        assert(s[k + 1] == 0x22);
        assert(spec_parse_value(s, k + 1) == Some((JsonView::Str(entries[0].1), e)));
        assert(s.subrange(i, j)[e - i] == s[e]);
        assert(s[e] == 0x2c);
        assert forall|q: int| 0 <= q < rest_enc.len() implies s.subrange(e + 1, j)[q]
            == rest_enc[q] by {
            assert(s.subrange(i, j)[q + e + 1 - i] == s[q + e + 1]);
            assert(s.subrange(e + 1, j)[q] == s[q + e + 1]);
        }
        assert(s.subrange(e + 1, j) =~= rest_enc);
        assert(s.subrange(i, j)[e + 1 - i] == s[e + 1]);
        if entries.drop_first().len() == 1 {
            assert(rest_enc == spec_encode_string(entries.drop_first()[0].0) + seq![0x3au8]
                + spec_encode_string(entries.drop_first()[0].1));
        } else {
            lemma_encode_entries_first(entries.drop_first());
        }
        assert(rest_enc[0] == spec_encode_string(entries.drop_first()[0].0)[0]);
        assert(s[e + 1] == 0x22);
        assert(!is_ws(s[e + 1]));
        lemma_members_round(s, e + 1, entries.drop_first(), j);
        lemma_member_step(s, i, entries[0].0, k, JsonView::Str(entries[0].1), e);
        assert(str_member_views(entries) =~= seq![(entries[0].0, JsonView::Str(entries[0].1))]
            + str_member_views(entries.drop_first()));
    }
}

/// Parsing an encoded attribute bag yields its members back.
proof fn lemma_object_value_round(s: Seq<u8>, i: int, o: &Object, j: int)
    requires
        0 <= i < j <= s.len(),
        s.subrange(i, j) == spec_encode_object(o),
    ensures
        spec_parse_value(s, i) == Some((JsonView::Obj(str_member_views(o.entries_view())), j)),
{
    let entries = o.entries_view();
    let inner = spec_encode_entries(entries);
    assert(spec_encode_object(o) == seq![0x7bu8] + inner + seq![0x7du8]);
    assert(j - i == 2 + inner.len());
    assert(s.subrange(i, j)[0] == s[i]);
    assert(s[i] == 0x7b);
    assert(s.subrange(i, j)[j - 1 - i] == s[j - 1]);
    assert(s[j - 1] == 0x7d);
    assert forall|q: int| 0 <= q < inner.len() implies s.subrange(i + 1, j - 1)[q]
        == inner[q] by {
        assert(s.subrange(i, j)[q + 1] == s[q + 1 + i]);
        assert(s.subrange(i + 1, j - 1)[q] == s[q + 1 + i]);
    }
    assert(s.subrange(i + 1, j - 1) =~= inner);
    if entries.len() == 0 {
        assert(inner =~= Seq::<u8>::empty());
        assert(j == i + 2);
        assert(spec_skip_ws(s, i + 1) == i + 1);
        assert(spec_object_rest(s, i + 1) == Some(
            (Seq::<(Seq<char>, JsonView)>::empty(), i + 2),
        ));
        assert(str_member_views(entries) =~= Seq::<(Seq<char>, JsonView)>::empty());
    } else {
        if entries.len() == 1 {
            assert(inner == spec_encode_string(entries[0].0) + seq![0x3au8] + spec_encode_string(
                entries[0].1,
            ));
        } else {
            lemma_encode_entries_first(entries);
        }
        assert(inner[0] == spec_encode_string(entries[0].0)[0]);
        assert(s.subrange(i + 1, j - 1)[0] == s[i + 1]);
        assert(s[i + 1] == 0x22);
        assert(spec_skip_ws(s, i + 1) == i + 1);
        lemma_members_round(s, i + 1, entries, j - 1);
    }
}

/// The encoded attribute bags can be read off the front: the first bag,
/// then a comma and the rest.
proof fn lemma_encode_objects_first(objects: Seq<Object>)
    requires
        objects.len() > 1,
    ensures
        spec_encode_objects(objects) == spec_encode_object(&objects[0]) + seq![0x2cu8]
            + spec_encode_objects(objects.drop_first()),
    decreases objects.len(),
{
    if objects.len() == 2 {
        assert(objects.drop_last()[0] == objects[0]);
        assert(objects.drop_last().len() == 1);
        assert(objects.drop_first().len() == 1);
        assert(objects.drop_first()[0] == objects[1]);
        assert(objects.last() == objects[1]);
        assert(spec_encode_objects(objects) == spec_encode_objects(objects.drop_last()) + seq![
            0x2cu8,
        ] + spec_encode_object(&objects.last()));
        assert(spec_encode_objects(objects.drop_last()) == spec_encode_object(
            &objects.drop_last()[0],
        ));
        assert(spec_encode_objects(objects.drop_first()) == spec_encode_object(
            &objects.drop_first()[0],
        ));
        assert(spec_encode_objects(objects) =~= spec_encode_object(&objects[0]) + seq![0x2cu8]
            + spec_encode_objects(objects.drop_first()));
    } else {
        lemma_encode_objects_first(objects.drop_last());
        assert(objects.drop_last()[0] == objects[0]);
        assert(objects.drop_last().drop_first() =~= objects.drop_first().drop_last());
        assert(objects.drop_first().last() == objects.last());
        assert(objects.drop_first().len() > 1);
        assert(spec_encode_objects(objects) == spec_encode_objects(objects.drop_last()) + seq![
            0x2cu8,
        ] + spec_encode_object(&objects.last()));
        assert(spec_encode_objects(objects.drop_last()) == spec_encode_object(&objects[0]) + seq![
            0x2cu8,
        ] + spec_encode_objects(objects.drop_first().drop_last()));
        assert(spec_encode_objects(objects.drop_first()) == spec_encode_objects(
            objects.drop_first().drop_last(),
        ) + seq![0x2cu8] + spec_encode_object(&objects.drop_first().last()));
        assert(spec_encode_objects(objects) =~= spec_encode_object(&objects[0]) + seq![0x2cu8]
            + spec_encode_objects(objects.drop_first()));
    }
}

/// The array element views a list of attribute bags denotes.
pub open spec fn object_views_of(objects: Seq<Object>) -> Seq<JsonView> {
    objects.map_values(|o: Object| JsonView::Obj(str_member_views(o.entries_view())))
}

/// Parsing encoded attribute bags followed by a closing bracket yields
/// the bags back.
#[verifier::spinoff_prover]
proof fn lemma_elems_round(s: Seq<u8>, i: int, objects: Seq<Object>, j: int)
    requires
        objects.len() > 0,
        0 <= i <= j < s.len(),
        s.subrange(i, j) == spec_encode_objects(objects),
        s[j] == 0x5d,
    ensures
        spec_elems(s, i) == Some((object_views_of(objects), j + 1)),
    decreases objects.len(),
{
    let first_enc = spec_encode_object(&objects[0]);
    let e = i + first_enc.len();
    if objects.len() == 1 {
        assert(spec_encode_objects(objects) == first_enc);
        assert(e == j);
        lemma_object_value_round(s, i, &objects[0], j);
        assert(spec_skip_ws(s, j) == j);
        assert(object_views_of(objects) =~= seq![
            JsonView::Obj(str_member_views(objects[0].entries_view())),
        ]);
    } else {
        lemma_encode_objects_first(objects);
        let rest_enc = spec_encode_objects(objects.drop_first());
        assert(s.subrange(i, j) == first_enc + seq![0x2cu8] + rest_enc);
        assert(j - i == first_enc.len() + 1 + rest_enc.len());
        assert forall|q: int| 0 <= q < first_enc.len() implies s.subrange(i, e)[q]
            == first_enc[q] by {
            assert(s.subrange(i, j)[q] == s[q + i]);
            assert(s.subrange(i, e)[q] == s[q + i]);
        }
        assert(s.subrange(i, e) =~= first_enc);
        lemma_object_value_round(s, i, &objects[0], e);
        assert(s.subrange(i, j)[e - i] == s[e]);
        assert(s[e] == 0x2c);
        assert(spec_skip_ws(s, e) == e);
        assert forall|q: int| 0 <= q < rest_enc.len() implies s.subrange(e + 1, j)[q]
            == rest_enc[q] by {
            assert(s.subrange(i, j)[q + e + 1 - i] == s[q + e + 1]);
            assert(s.subrange(e + 1, j)[q] == s[q + e + 1]);
        }
        assert(s.subrange(e + 1, j) =~= rest_enc);
        if objects.drop_first().len() == 1 {
            assert(rest_enc == spec_encode_object(&objects.drop_first()[0]));
        } else {
            lemma_encode_objects_first(objects.drop_first());
        }
        assert(rest_enc[0] == spec_encode_object(&objects.drop_first()[0])[0]);
        assert(s.subrange(i, j)[e + 1 - i] == s[e + 1]);
        assert(s[e + 1] == 0x7b);
        assert(spec_skip_ws(s, e + 1) == e + 1);
        lemma_elems_round(s, e + 1, objects.drop_first(), j);
        assert(object_views_of(objects) =~= seq![
            JsonView::Obj(str_member_views(objects[0].entries_view())),
        ] + object_views_of(objects.drop_first()));
    }
}

/// Parsing an encoded array of attribute bags yields the bags back.
proof fn lemma_array_value_round(s: Seq<u8>, i: int, objects: Seq<Object>, j: int)
    requires
        0 <= i < j <= s.len(),
        s.subrange(i, j) == seq![0x5bu8] + spec_encode_objects(objects) + seq![0x5du8],
    ensures
        spec_parse_value(s, i) == Some((JsonView::Arr(object_views_of(objects)), j)),
{
    let inner = spec_encode_objects(objects);
    assert(s.subrange(i, j).len() == j - i);
    assert((seq![0x5bu8] + inner + seq![0x5du8]).len() == 2 + inner.len());
    assert(j - i == 2 + inner.len());
    assert(s.subrange(i, j)[0] == s[i]);
    assert(s[i] == 0x5b);
    assert(s.subrange(i, j)[j - 1 - i] == s[j - 1]);
    assert(s[j - 1] == 0x5d);
    assert forall|q: int| 0 <= q < inner.len() implies s.subrange(i + 1, j - 1)[q]
        == inner[q] by {
        assert(s.subrange(i, j)[q + 1] == s[q + 1 + i]);
        assert(s.subrange(i + 1, j - 1)[q] == s[q + 1 + i]);
    }
    assert(s.subrange(i + 1, j - 1) =~= inner);
    if objects.len() == 0 {
        assert(inner =~= Seq::<u8>::empty());
        assert(j == i + 2);
        assert(spec_skip_ws(s, i + 1) == i + 1);
        assert(spec_array_rest(s, i + 1) == Some((Seq::<JsonView>::empty(), i + 2)));
        assert(object_views_of(objects) =~= Seq::<JsonView>::empty());
    } else {
        if objects.len() == 1 {
            assert(inner == spec_encode_object(&objects[0]));
        } else {
            lemma_encode_objects_first(objects);
        }
        assert(inner[0] == spec_encode_object(&objects[0])[0]);
        assert(s.subrange(i + 1, j - 1)[0] == s[i + 1]);
        assert(s[i + 1] == 0x7b);
        assert(spec_skip_ws(s, i + 1) == i + 1);
        lemma_elems_round(s, i + 1, objects, j - 1);
    }
}

/// The middle part of a three-way concatenation can be read back out.
proof fn lemma_chain_mid(s: Seq<u8>, a: Seq<u8>, b: Seq<u8>, c: Seq<u8>)
    requires
        s == a + b + c,
    ensures
        s.subrange(a.len() as int, (a.len() + b.len()) as int) == b,
        forall|q: int| 0 <= q < b.len() ==> s[a.len() + q] == #[trigger] b[q],
        s.len() == a.len() + b.len() + c.len(),
{
    assert forall|q: int| 0 <= q < b.len() implies s[a.len() + q] == #[trigger] b[q] by {
        assert((a + b + c)[a.len() + q] == b[q]);
    }
    assert forall|q: int|
        0 <= q < b.len() implies s.subrange(a.len() as int, (a.len() + b.len()) as int)[q] == b[q] by {
        assert(s.subrange(a.len() as int, (a.len() + b.len()) as int)[q] == s[a.len() + q]);
    }
    assert(s.subrange(a.len() as int, (a.len() + b.len()) as int) =~= b);
}

/// Splitting a concatenation gives both halves back.
proof fn lemma_concat_parts(x: Seq<u8>, y: Seq<u8>)
    ensures
        (x + y).subrange(0, x.len() as int) == x,
        (x + y).subrange(x.len() as int, (x.len() + y.len()) as int) == y,
{
    assert forall|q: int| 0 <= q < x.len() implies (x + y).subrange(0, x.len() as int)[q]
        == x[q] by {
        assert((x + y)[q] == x[q]);
    }
    assert((x + y).subrange(0, x.len() as int) =~= x);
    assert forall|q: int|
        0 <= q < y.len() implies (x + y).subrange(
        x.len() as int,
        (x.len() + y.len()) as int,
    )[q] == y[q] by {
        assert((x + y)[x.len() + q] == y[q]);
    }
    assert((x + y).subrange(x.len() as int, (x.len() + y.len()) as int) =~= y);
}

/// A window into a known prefix is a window into the whole.
proof fn lemma_prefix_window(s: Seq<u8>, l: Seq<u8>, a: int, b: int)
    requires
        l.len() <= s.len(),
        s.subrange(0, l.len() as int) == l,
        0 <= a <= b <= l.len(),
    ensures
        s.subrange(a, b) == l.subrange(a, b),
{
    assert forall|q: int| 0 <= q < b - a implies s.subrange(a, b)[q] == l.subrange(a, b)[q] by {
        assert(s.subrange(a, b)[q] == s[a + q]);
        assert(s.subrange(0, l.len() as int)[a + q] == s[a + q]);
        assert(l.subrange(a, b)[q] == l[a + q]);
    }
    assert(s.subrange(a, b) =~= l.subrange(a, b));
}

/// Where each piece of an encoded inbound message lies in the frame.
#[verifier::rlimit(100)]
#[verifier::spinoff_prover]
proof fn lemma_frame_pieces(m: &MessageIn)
    ensures
        ({
            let s = spec_encode_message_in(m);
            let key1 = spec_encode_string("publisher"@);
            let val1 = spec_encode_string(m.publisher@);
            let key2 = spec_encode_string("id"@);
            let val2 = spec_encode_string(m.id@);
            let key3 = spec_encode_string("objects"@);
            let objs = spec_encode_objects(m.objects@);
            let b1 = 1int;
            let e1 = b1 + key1.len();
            let f1 = e1 + 1 + val1.len();
            let b2 = f1 + 1;
            let e2 = b2 + key2.len();
            let f2 = e2 + 1 + val2.len();
            let b3 = f2 + 1;
            let e3 = b3 + key3.len();
            let arr_end = e3 + 3 + objs.len();
            &&& s.len() == arr_end + 1
            &&& s[0] == 0x7b
            &&& s.subrange(b1, e1) == key1
            &&& s[e1] == 0x3a
            &&& s.subrange(e1 + 1, f1) == val1
            &&& s[f1] == 0x2c
            &&& s.subrange(b2, e2) == key2
            &&& s[e2] == 0x3a
            &&& s.subrange(e2 + 1, f2) == val2
            &&& s[f2] == 0x2c
            &&& s.subrange(b3, e3) == key3
            &&& s[e3] == 0x3a
            &&& s[e3 + 1] == 0x5b
            &&& s.subrange(e3 + 1, arr_end) == seq![0x5bu8] + objs + seq![0x5du8]
            &&& s[arr_end] == 0x7d
        }),
{
    let s = spec_encode_message_in(m);
    let key1 = spec_encode_string("publisher"@);
    let val1 = spec_encode_string(m.publisher@);
    let key2 = spec_encode_string("id"@);
    let val2 = spec_encode_string(m.id@);
    let key3 = spec_encode_string("objects"@);
    let objs = spec_encode_objects(m.objects@);

    // the frame as a chain of prefixes, one piece at a time
    let c0 = seq![0x7bu8];
    let c1 = c0 + key1;
    let c2 = c1 + seq![0x3au8];
    let c3 = c2 + val1;
    let c4 = c3 + seq![0x2cu8];
    let c5 = c4 + key2;
    let c6 = c5 + seq![0x3au8];
    let c7 = c6 + val2;
    let c8 = c7 + seq![0x2cu8];
    let c9 = c8 + key3;
    let c10 = c9 + seq![0x3au8, 0x5bu8];
    let c11 = c10 + objs;
    assert(s == c11 + seq![0x5du8, 0x7du8]);

    // every prefix is a prefix of the whole
    lemma_concat_parts(c11, seq![0x5du8, 0x7du8]);
    assert(s.subrange(0, c11.len() as int) == c11);
    lemma_concat_parts(c10, objs);
    lemma_prefix_window(s, c11, 0, c10.len() as int);
    assert(s.subrange(0, c10.len() as int) == c10);
    lemma_concat_parts(c9, seq![0x3au8, 0x5bu8]);
    lemma_prefix_window(s, c10, 0, c9.len() as int);
    assert(s.subrange(0, c9.len() as int) == c9);
    lemma_concat_parts(c8, key3);
    lemma_prefix_window(s, c9, 0, c8.len() as int);
    assert(s.subrange(0, c8.len() as int) == c8);
    lemma_concat_parts(c7, seq![0x2cu8]);
    lemma_prefix_window(s, c8, 0, c7.len() as int);
    assert(s.subrange(0, c7.len() as int) == c7);
    lemma_concat_parts(c6, val2);
    lemma_prefix_window(s, c7, 0, c6.len() as int);
    assert(s.subrange(0, c6.len() as int) == c6);
    lemma_concat_parts(c5, seq![0x3au8]);
    lemma_prefix_window(s, c6, 0, c5.len() as int);
    assert(s.subrange(0, c5.len() as int) == c5);
    lemma_concat_parts(c4, key2);
    lemma_prefix_window(s, c5, 0, c4.len() as int);
    assert(s.subrange(0, c4.len() as int) == c4);
    lemma_concat_parts(c3, seq![0x2cu8]);
    lemma_prefix_window(s, c4, 0, c3.len() as int);
    assert(s.subrange(0, c3.len() as int) == c3);
    lemma_concat_parts(c2, val1);
    lemma_prefix_window(s, c3, 0, c2.len() as int);
    assert(s.subrange(0, c2.len() as int) == c2);
    lemma_concat_parts(c1, seq![0x3au8]);
    lemma_prefix_window(s, c2, 0, c1.len() as int);
    assert(s.subrange(0, c1.len() as int) == c1);
    lemma_concat_parts(c0, key1);
    lemma_prefix_window(s, c1, 0, c0.len() as int);
    assert(s.subrange(0, c0.len() as int) == c0);

    let b1 = 1int;
    let e1 = b1 + key1.len();
    let f1 = e1 + 1 + val1.len();
    let b2 = f1 + 1;
    let e2 = b2 + key2.len();
    let f2 = e2 + 1 + val2.len();
    let b3 = f2 + 1;
    let e3 = b3 + key3.len();
    let arr_end = e3 + 3 + objs.len();

    // each piece, read back out of the whole
    assert(s[0] == 0x7b) by {
        assert(s.subrange(0, 1)[0] == s[0]);
    }
    lemma_prefix_window(s, c1, b1, e1);
    assert(s.subrange(b1, e1) == key1);
    assert(s[e1] == 0x3a) by {
        lemma_prefix_window(s, c2, e1, e1 + 1);
        assert(s.subrange(e1, e1 + 1)[0] == s[e1]);
    }
    lemma_prefix_window(s, c3, e1 + 1, f1);
    assert(s.subrange(e1 + 1, f1) == val1);
    assert(s[f1] == 0x2c) by {
        lemma_prefix_window(s, c4, f1, f1 + 1);
        assert(s.subrange(f1, f1 + 1)[0] == s[f1]);
    }
    lemma_prefix_window(s, c5, b2, e2);
    assert(s.subrange(b2, e2) == key2);
    assert(s[e2] == 0x3a) by {
        lemma_prefix_window(s, c6, e2, e2 + 1);
        assert(s.subrange(e2, e2 + 1)[0] == s[e2]);
    }
    lemma_prefix_window(s, c7, e2 + 1, f2);
    assert(s.subrange(e2 + 1, f2) == val2);
    assert(s[f2] == 0x2c) by {
        lemma_prefix_window(s, c8, f2, f2 + 1);
        assert(s.subrange(f2, f2 + 1)[0] == s[f2]);
    }
    lemma_prefix_window(s, c9, b3, e3);
    assert(s.subrange(b3, e3) == key3);
    assert(s[e3] == 0x3a && s[e3 + 1] == 0x5b) by {
        lemma_prefix_window(s, c10, e3, e3 + 2);
        assert(s.subrange(e3, e3 + 2)[0] == s[e3]);
        assert(s.subrange(e3, e3 + 2)[1] == s[e3 + 1]);
    }
    lemma_prefix_window(s, c11, e3 + 2, e3 + 2 + objs.len() as int);
    assert(s.subrange(e3 + 2, e3 + 2 + objs.len() as int) == objs);
    assert(s.len() == arr_end + 1);
    assert(s[arr_end - 1] == 0x5d && s[arr_end] == 0x7d) by {
        assert(s.subrange(arr_end - 1, arr_end + 1) == seq![0x5du8, 0x7du8]);
        assert(s.subrange(arr_end - 1, arr_end + 1)[0] == s[arr_end - 1]);
        assert(s.subrange(arr_end - 1, arr_end + 1)[1] == s[arr_end]);
    }

    // the array value: bracket, encoded bags, bracket
    assert forall|q: int|
        0 <= q < arr_end - (e3 + 1) implies s.subrange(e3 + 1, arr_end)[q] == (seq![0x5bu8] + objs
        + seq![0x5du8])[q] by {
        assert(s.subrange(e3 + 1, arr_end)[q] == s[e3 + 1 + q]);
        if q == 0 {
        } else if q < 1 + objs.len() {
            assert(s.subrange(e3 + 2, e3 + 2 + objs.len() as int)[q - 1] == s[e3 + 1 + q]);
        }
    }
    assert(s.subrange(e3 + 1, arr_end) =~= seq![0x5bu8] + objs + seq![0x5du8]);
}

/// Reading the string values back out of member views gives the pairs
/// they were made from.
proof fn lemma_string_member_pairs_id(entries: Seq<(Seq<char>, Seq<char>)>)
    ensures
        string_member_pairs(str_member_views(entries)) == entries,
    decreases entries.len(),
{
    if entries.len() > 0 {
        lemma_string_member_pairs_id(entries.drop_last());
        assert(str_member_views(entries).drop_last() =~= str_member_views(entries.drop_last()));
        assert(str_member_views(entries).last() == (
            entries.last().0,
            JsonView::Str(entries.last().1),
        ));
        assert(string_member_pairs(str_member_views(entries)) =~= entries);
    } else {
        assert(str_member_views(entries).len() == 0);
        assert(string_member_pairs(str_member_views(entries)) =~= entries);
    }
}

/// The attribute bags an encoded array denotes are the bags it was made
/// from.
proof fn lemma_objects_of_views(objects: Seq<Object>)
    ensures
        spec_objects_of(object_views_of(objects)) == Some(
            objects.map_values(|o: Object| o@),
        ),
    decreases objects.len(),
{
    let ovs = object_views_of(objects);
    if objects.len() == 0 {
        assert(ovs.len() == 0);
        assert(objects.map_values(|o: Object| o@) =~= Seq::<Map<Seq<char>, Seq<char>>>::empty());
    } else {
        lemma_objects_of_views(objects.drop_last());
        assert(ovs.drop_last() =~= object_views_of(objects.drop_last()));
        let last_entries = objects.last().entries_view();
        assert(ovs.last() == JsonView::Obj(str_member_views(last_entries)));
        assert forall|k: int|
            0 <= k < str_member_views(last_entries).len() implies (#[trigger] str_member_views(
            last_entries,
        )[k]).1 is Str by {
            assert(str_member_views(last_entries)[k] == (
                last_entries[k].0,
                JsonView::Str(last_entries[k].1),
            ));
        }
        lemma_string_member_pairs_id(last_entries);
        assert(spec_object_of(ovs.last()) == Some(assoc_map(last_entries)));
        assert(assoc_map(last_entries) == objects.last()@);
        assert(objects.map_values(|o: Object| o@) =~= objects.drop_last().map_values(
            |o: Object| o@,
        ).push(objects.last()@));
    }
}

/// The member list the top-level object of an encoded inbound message
/// denotes.
pub open spec fn spec_top_members(m: &MessageIn) -> Seq<(Seq<char>, JsonView)> {
    seq![
        ("publisher"@, JsonView::Str(m.publisher@)),
        ("id"@, JsonView::Str(m.id@)),
        ("objects"@, JsonView::Arr(object_views_of(m.objects@))),
    ]
}

/// The member list of an encoded inbound message parses back, ending at
/// the frame's closing brace.
#[verifier::rlimit(100)]
#[verifier::spinoff_prover]
proof fn lemma_frame_members(m: &MessageIn)
    ensures
        ({
            let s = spec_encode_message_in(m);
            &&& s.len() >= 2
            &&& s[0] == 0x7b
            &&& s[1] == 0x22
            &&& spec_members(s, 1) == Some((spec_top_members(m), s.len() as int))
        }),
{
    let s = spec_encode_message_in(m);
    let key1 = spec_encode_string("publisher"@);
    let val1 = spec_encode_string(m.publisher@);
    let key2 = spec_encode_string("id"@);
    let val2 = spec_encode_string(m.id@);
    let key3 = spec_encode_string("objects"@);
    let objs = spec_encode_objects(m.objects@);
    let b1 = 1int;
    let e1 = b1 + key1.len();
    let f1 = e1 + 1 + val1.len();
    let b2 = f1 + 1;
    let e2 = b2 + key2.len();
    let f2 = e2 + 1 + val2.len();
    let b3 = f2 + 1;
    let e3 = b3 + key3.len();
    let arr_end = e3 + 3 + objs.len();

    lemma_frame_pieces(m);

    // the keys and string values parse back
    lemma_parse_string_round(s, b1, "publisher"@, e1);
    lemma_parse_string_round(s, e1 + 1, m.publisher@, f1);
    lemma_parse_string_round(s, b2, "id"@, e2);
    lemma_parse_string_round(s, e2 + 1, m.id@, f2);
    lemma_parse_string_round(s, b3, "objects"@, e3);
    lemma_array_value_round(s, e3 + 1, m.objects@, arr_end);

    assert(s[e1 + 1] == 0x22) by {
        assert(s.subrange(e1 + 1, f1)[0] == s[e1 + 1]);
    }
    assert(s[e2 + 1] == 0x22) by {
        assert(s.subrange(e2 + 1, f2)[0] == s[e2 + 1]);
    }
    assert(s[b2] == 0x22) by {
        assert(s.subrange(b2, e2)[0] == s[b2]);
    }
    assert(s[b3] == 0x22) by {
        assert(s.subrange(b3, e3)[0] == s[b3]);
    }
    assert(spec_parse_value(s, e1 + 1) == Some((JsonView::Str(m.publisher@), f1)));
    assert(spec_parse_value(s, e2 + 1) == Some((JsonView::Str(m.id@), f2)));

    // one member step at a time, from the back
    let member3 = ("objects"@, JsonView::Arr(object_views_of(m.objects@)));
    lemma_member_step(s, b3, "objects"@, e3, member3.1, arr_end);
    assert(spec_members(s, b3) == Some((seq![member3], arr_end + 1)));

    let member2 = ("id"@, JsonView::Str(m.id@));
    lemma_member_step(s, b2, "id"@, e2, member2.1, f2);
    assert(spec_members(s, b2) == Some((seq![member2, member3], arr_end + 1))) by {
        assert(seq![member2] + seq![member3] =~= seq![member2, member3]);
    }

    let member1 = ("publisher"@, JsonView::Str(m.publisher@));
    lemma_member_step(s, b1, "publisher"@, e1, member1.1, f1);
    assert(spec_members(s, b1) == Some((spec_top_members(m), arr_end + 1))) by {
        assert(seq![member1] + seq![member2, member3] =~= spec_top_members(m));
    }
    assert(s[1] == 0x22) by {
        assert(s.subrange(b1, e1)[0] == s[1]);
    }
}

/// Round trip: every inbound message, encoded as a JSON object, decodes
/// back to itself: the wire shape and the decoder agree exactly, so a
/// re-sent or replayed encoding denotes the message that produced it.
#[verifier::rlimit(100)]
#[verifier::spinoff_prover]
pub proof fn lemma_record_round_trip(m: &MessageIn)
    ensures
        spec_decode_frame(spec_encode_message_in(m)) == Some(m@),
{
    let s = spec_encode_message_in(m);
    lemma_frame_members(m);
    let ms = spec_top_members(m);

    // the whole frame is one object
    assert(spec_skip_ws(s, 1) == 1);
    assert(spec_object_rest(s, 1) == Some((ms, s.len() as int)));
    assert(spec_parse_value(s, 0) == Some((JsonView::Obj(ms), s.len() as int)));
    assert(spec_skip_ws(s, 0) == 0);
    assert(spec_skip_ws(s, s.len() as int) == s.len());
    assert(spec_parse_json(s) == Some(JsonView::Obj(ms)));

    // the three field names are distinct, so each lookup finds its member
    let member1 = ms[0];
    let member2 = ms[1];
    let member3 = ms[2];
    proof_distinct_field_names();
    assert(ms.last() == member3);
    assert(json_lookup(ms, "objects"@) == Some(member3.1));
    assert(ms.drop_last() =~= seq![member1, member2]);
    assert(json_lookup(ms, "publisher"@) == json_lookup(seq![member1, member2], "publisher"@));
    assert(json_lookup(ms, "id"@) == json_lookup(seq![member1, member2], "id"@));
    assert(seq![member1, member2].last() == member2);
    assert(json_lookup(seq![member1, member2], "id"@) == Some(member2.1));
    assert(seq![member1, member2].drop_last() =~= seq![member1]);
    assert(json_lookup(seq![member1, member2], "publisher"@) == json_lookup(
        seq![member1],
        "publisher"@,
    ));
    assert(seq![member1].last() == member1);
    assert(json_lookup(seq![member1], "publisher"@) == Some(member1.1));

    lemma_objects_of_views(m.objects@);
    assert(spec_message_of_json(JsonView::Obj(ms)) == Some(m@));
}

/// The three field names of an inbound message differ.
proof fn proof_distinct_field_names()
    ensures
        "publisher"@ != "id"@,
        "publisher"@ != "objects"@,
        "id"@ != "objects"@,
{
    reveal_strlit("publisher");
    reveal_strlit("id");
    reveal_strlit("objects");
    assert("publisher"@.len() == 9);
    assert("id"@.len() == 2);
    assert("objects"@.len() == 7);
}

} // verus!
