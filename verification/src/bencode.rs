//! The bencode codec: the four-type serialization format of BitTorrent.
//!
//! A value is a byte string, a signed 64-bit integer, a list, or an ordered
//! dictionary whose keys are byte strings. Dictionaries keep the key order of
//! the input: the info fingerprint depends on the exact byte layout, so the
//! decoder must not sort or deduplicate.
//!
//! `encoded` is the one canonical byte form of a value. The decoder accepts
//! canonical input only (no leading zeros in numbers, no `-0`), and its
//! contract states that every successful decode consumes exactly the
//! canonical encoding of its result: re-encoding a decoded value gives back
//! the input bytes.

use vstd::prelude::*;
use crate::digits::{
    canonical_decimal, dec_digits, dec_val, int_digits, is_digit_byte, i64_to_decimal,
    lemma_dec_digits_canonical, lemma_dec_val_of_digits, lemma_digits_of_dec_val,
    lemma_int_digits_bytes, lemma_run_unique, parse_decimal_u64, u64_to_decimal,
};

verus! {

/// A decoded bencode value.
#[derive(Debug, PartialEq, Eq)]
pub enum BencodeValue {
    /// `l ... e`: an ordered list of values.
    List(Vec<BencodeValue>),
    /// `d ... e`: an ordered dictionary; key order is preserved from the input.
    Dictionary(Vec<(Vec<u8>, BencodeValue)>),
    /// `<len>:<raw>`: an opaque byte string.
    Bytes(Vec<u8>),
    /// `i ... e`: a signed 64-bit integer.
    Integer(i64),
}

/// Where and why a decode failed.
#[derive(Debug, Clone, Copy, PartialEq, Eq, Structural)]
pub enum BencodeCause {
    /// The input ended inside a value.
    UnexpectedEnd,
    /// A value started with a byte that opens no value.
    InvalidLeadingByte,
    /// An integer had an empty, non-canonical or non-numeric digit run.
    InvalidInteger,
    /// An integer does not fit in a signed 64-bit word.
    IntegerOverflow,
    /// A list, dictionary or integer was not closed by `e`.
    MissingTerminator,
    /// A byte-string length prefix was empty or not canonical decimal.
    InvalidLengthPrefix,
    /// A dictionary key was not a byte string.
    NonStringKey,
    /// Bytes remained after the top-level value.
    TrailingData,
}

/// A decode failure: the byte position where it was noticed, and the cause.
#[derive(Debug, Clone, Copy, PartialEq, Eq, Structural)]
pub struct BencodeError {
    pub position: usize,
    pub cause: BencodeCause,
}

/// The encoding of a byte string: decimal length, `':'`, then the raw bytes.
pub open spec fn encoded_bytes(b: Seq<u8>) -> Seq<u8> {
    dec_digits(b.len()) + seq![58u8] + b
}

/// The canonical encoding of a value.
pub open spec fn encoded(v: BencodeValue) -> Seq<u8>
    decreases v,
{
    match v {
        BencodeValue::Integer(i) => seq![105u8] + int_digits(i as int) + seq![101u8],
        BencodeValue::Bytes(b) => encoded_bytes(b@),
        BencodeValue::List(items) => seq![108u8] + encoded_list(items@) + seq![101u8],
        BencodeValue::Dictionary(pairs) => seq![100u8] + encoded_pairs(pairs@) + seq![101u8],
    }
}

/// The concatenated encodings of a sequence of values.
pub open spec fn encoded_list(items: Seq<BencodeValue>) -> Seq<u8>
    decreases items,
{
    if items.len() == 0 {
        Seq::empty()
    } else {
        encoded(items[0]) + encoded_list(items.drop_first())
    }
}

/// The concatenated encodings of a sequence of key/value pairs.
pub open spec fn encoded_pairs(pairs: Seq<(Vec<u8>, BencodeValue)>) -> Seq<u8>
    decreases pairs,
{
    if pairs.len() == 0 {
        Seq::empty()
    } else {
        encoded_bytes(pairs[0].0@) + encoded(pairs[0].1) + encoded_pairs(pairs.drop_first())
    }
}

/// Appending one value to a list appends its encoding.
pub proof fn lemma_encoded_list_push(items: Seq<BencodeValue>, v: BencodeValue)
    ensures
        encoded_list(items.push(v)) == encoded_list(items) + encoded(v),
    decreases items,
{
    if items.len() == 0 {
        assert(items.push(v).drop_first() =~= Seq::<BencodeValue>::empty());
        assert(encoded_list(Seq::<BencodeValue>::empty()) == Seq::<u8>::empty());
        assert(encoded_list(items.push(v)) =~= encoded(v));
        assert(encoded_list(items) + encoded(v) =~= encoded(v));
    } else {
        lemma_encoded_list_push(items.drop_first(), v);
        assert(items.push(v).drop_first() =~= items.drop_first().push(v));
        assert(encoded_list(items.push(v)) =~= encoded_list(items) + encoded(v));
    }
}

/// Appending one pair to a dictionary appends its encoding.
pub proof fn lemma_encoded_pairs_push(pairs: Seq<(Vec<u8>, BencodeValue)>, k: Vec<u8>, v: BencodeValue)
    ensures
        encoded_pairs(pairs.push((k, v)))
            == encoded_pairs(pairs) + encoded_bytes(k@) + encoded(v),
    decreases pairs,
{
    if pairs.len() == 0 {
        assert(pairs.push((k, v)).drop_first() =~= Seq::<(Vec<u8>, BencodeValue)>::empty());
        assert(encoded_pairs(Seq::<(Vec<u8>, BencodeValue)>::empty()) == Seq::<u8>::empty());
        assert(encoded_pairs(pairs.push((k, v))) =~= encoded_bytes(k@) + encoded(v));
        assert(encoded_pairs(pairs) + encoded_bytes(k@) + encoded(v) =~= encoded_bytes(k@) + encoded(v));
    } else {
        lemma_encoded_pairs_push(pairs.drop_first(), k, v);
        assert(pairs.push((k, v)).drop_first() =~= pairs.drop_first().push((k, v)));
        assert(encoded_pairs(pairs.push((k, v))) =~= encoded_pairs(pairs) + encoded_bytes(k@) + encoded(v));
    }
}

/// Equal sequences that both open with the terminator have equal tails.
proof fn lemma_tail_after_terminator(r1: Seq<u8>, r2: Seq<u8>)
    requires
        seq![101u8] + r1 == seq![101u8] + r2,
    ensures
        r1 == r2,
{
    assert((seq![101u8] + r1).len() == (seq![101u8] + r2).len());
    assert((seq![101u8] + r1).len() == 1 + r1.len());
    assert((seq![101u8] + r2).len() == 1 + r2.len());
    assert(r1.len() == r2.len());
    assert(r1 =~= r2) by {
        assert forall|k: int| 0 <= k < r1.len() implies r1[k] == r2[k] by {
            assert((seq![101u8] + r1)[1 + k] == r1[k]);
            assert((seq![101u8] + r2)[1 + k] == r2[k]);
        }
    }
}

/// An encoding is never empty, opens with the byte of its variant, and
/// never opens with the terminator.
pub proof fn lemma_encoded_leading_byte(v: BencodeValue)
    ensures
        encoded(v).len() >= 1,
        encoded(v)[0] != 101,
        v is Integer <==> encoded(v)[0] == 105,
        v is List <==> encoded(v)[0] == 108,
        v is Dictionary <==> encoded(v)[0] == 100,
        v is Bytes <==> is_digit_byte(encoded(v)[0]),
{
    match v {
        BencodeValue::Bytes(b) => {
            lemma_dec_digits_canonical(b@.len());
            assert(encoded(v)[0] == dec_digits(b@.len())[0]);
        },
        BencodeValue::Integer(_) => {
            assert(encoded(v)[0] == 105);
        },
        BencodeValue::List(_) => {
            assert(encoded(v)[0] == 108);
        },
        BencodeValue::Dictionary(_) => {
            assert(encoded(v)[0] == 100);
        },
    }
}

/// Two byte-string encodings never disagree on where they end: equal as
/// whole sequences, they carry the same bytes and the same tails.
pub proof fn lemma_encoded_bytes_prefix_free(b1: Seq<u8>, b2: Seq<u8>, s1: Seq<u8>, s2: Seq<u8>)
    requires
        encoded_bytes(b1) + s1 == encoded_bytes(b2) + s2,
    ensures
        b1 == b2,
        s1 == s2,
{
    lemma_dec_digits_canonical(b1.len());
    lemma_dec_digits_canonical(b2.len());
    let t1 = seq![58u8] + b1 + s1;
    let t2 = seq![58u8] + b2 + s2;
    assert(dec_digits(b1.len()) + t1 =~= encoded_bytes(b1) + s1);
    assert(dec_digits(b2.len()) + t2 =~= encoded_bytes(b2) + s2);
    lemma_run_unique(dec_digits(b1.len()), dec_digits(b2.len()), t1, t2, 58);
    lemma_dec_val_of_digits(b1.len());
    lemma_dec_val_of_digits(b2.len());
    assert(b1.len() == b2.len());
    assert(b1 =~= b2) by {
        assert(forall|k: int| 0 <= k < b1.len()
            ==> t1[1 + k] == b1[k] && t2[1 + k] == b2[k]);
    }
    assert(s1 =~= s2) by {
        assert(forall|k: int| 0 <= k < s1.len()
            ==> t1[1 + b1.len() + k] == s1[k] && t2[1 + b2.len() + k] == s2[k]);
    }
}

/// Encodings are prefix-free: wherever one value's encoding starts, no other
/// encoding length fits the same bytes, so the tails agree too.
pub proof fn lemma_encoded_prefix_free(v1: BencodeValue, v2: BencodeValue, r1: Seq<u8>, r2: Seq<u8>)
    requires
        encoded(v1) + r1 == encoded(v2) + r2,
    ensures
        encoded(v1) == encoded(v2),
        r1 == r2,
    decreases v1,
{
    lemma_encoded_leading_byte(v1);
    lemma_encoded_leading_byte(v2);
    assert((encoded(v1) + r1)[0] == encoded(v1)[0]);
    assert((encoded(v2) + r2)[0] == encoded(v2)[0]);
    match v1 {
        BencodeValue::Integer(i1) => {
            let i2 = v2->Integer_0;
            lemma_int_digits_bytes(i1 as int);
            lemma_int_digits_bytes(i2 as int);
            let t1 = seq![101u8] + r1;
            let t2 = seq![101u8] + r2;
            assert(int_digits(i1 as int) + t1
                =~= (encoded(v1) + r1).subrange(1, (encoded(v1) + r1).len() as int));
            assert(int_digits(i2 as int) + t2
                =~= (encoded(v2) + r2).subrange(1, (encoded(v2) + r2).len() as int));
            assert forall|k: int| 0 <= k < int_digits(i1 as int).len() implies
                (#[trigger] int_digits(i1 as int)[k]) != 101 by {
                assert(int_digits(i1 as int)[k] == 45
                    || is_digit_byte(int_digits(i1 as int)[k]));
            }
            assert forall|k: int| 0 <= k < int_digits(i2 as int).len() implies
                (#[trigger] int_digits(i2 as int)[k]) != 101 by {
                assert(int_digits(i2 as int)[k] == 45
                    || is_digit_byte(int_digits(i2 as int)[k]));
            }
            lemma_run_unique(int_digits(i1 as int), int_digits(i2 as int), t1, t2, 101);
            assert(encoded(v1) =~= encoded(v2));
            lemma_tail_after_terminator(r1, r2);
        },
        BencodeValue::Bytes(b1) => {
            let b2 = v2->Bytes_0;
            lemma_encoded_bytes_prefix_free(b1@, b2@, r1, r2);
            assert(encoded(v1) =~= encoded(v2));
        },
        BencodeValue::List(items1) => {
            let items2 = v2->List_0;
            proof_decreases_list(v1);
            let x1 = encoded_list(items1@) + seq![101u8] + r1;
            let x2 = encoded_list(items2@) + seq![101u8] + r2;
            assert(x1 =~= (encoded(v1) + r1).subrange(1, (encoded(v1) + r1).len() as int));
            assert(x2 =~= (encoded(v2) + r2).subrange(1, (encoded(v2) + r2).len() as int));
            lemma_encoded_list_prefix_free(items1@, items2@, r1, r2);
            assert(encoded(v1) =~= encoded(v2));
        },
        BencodeValue::Dictionary(pairs1) => {
            let pairs2 = v2->Dictionary_0;
            proof_decreases_dict(v1);
            let x1 = encoded_pairs(pairs1@) + seq![101u8] + r1;
            let x2 = encoded_pairs(pairs2@) + seq![101u8] + r2;
            assert(x1 =~= (encoded(v1) + r1).subrange(1, (encoded(v1) + r1).len() as int));
            assert(x2 =~= (encoded(v2) + r2).subrange(1, (encoded(v2) + r2).len() as int));
            lemma_encoded_pairs_prefix_free(pairs1@, pairs2@, r1, r2);
            assert(encoded(v1) =~= encoded(v2));
        },
    }
}

/// Establishes that a list value's element view sits below it in the
/// termination order.
proof fn proof_decreases_list(v: BencodeValue)
    requires
        v is List,
    ensures
        decreases_to!(v => v->List_0@),
{
    assert(decreases_to!(v => v->List_0));
    assert(decreases_to!(v->List_0 => v->List_0@));
}

/// Establishes that a dictionary value's pair view sits below it in the
/// termination order.
proof fn proof_decreases_dict(v: BencodeValue)
    requires
        v is Dictionary,
    ensures
        decreases_to!(v => v->Dictionary_0@),
{
    assert(decreases_to!(v => v->Dictionary_0));
    assert(decreases_to!(v->Dictionary_0 => v->Dictionary_0@));
}

/// Element lists closed by the terminator are prefix-free in the same way.
pub proof fn lemma_encoded_list_prefix_free(
    l1: Seq<BencodeValue>, l2: Seq<BencodeValue>, r1: Seq<u8>, r2: Seq<u8>)
    requires
        encoded_list(l1) + seq![101u8] + r1 == encoded_list(l2) + seq![101u8] + r2,
    ensures
        encoded_list(l1) == encoded_list(l2),
        r1 == r2,
    decreases l1,
{
    let x1 = encoded_list(l1) + seq![101u8] + r1;
    if l1.len() == 0 && l2.len() == 0 {
        assert(seq![101u8] + r1 =~= encoded_list(l1) + seq![101u8] + r1);
        assert(seq![101u8] + r2 =~= encoded_list(l2) + seq![101u8] + r2);
        lemma_tail_after_terminator(r1, r2);
    } else if l1.len() == 0 {
        lemma_encoded_leading_byte(l2[0]);
        assert(x1[0] == 101);
        assert((encoded_list(l2) + seq![101u8] + r2)[0] == encoded(l2[0])[0]);
        assert(false);
    } else if l2.len() == 0 {
        lemma_encoded_leading_byte(l1[0]);
        assert(x1[0] == encoded(l1[0])[0]);
        assert((encoded_list(l2) + seq![101u8] + r2)[0] == 101);
        assert(false);
    } else {
        let tail1 = encoded_list(l1.drop_first()) + seq![101u8] + r1;
        let tail2 = encoded_list(l2.drop_first()) + seq![101u8] + r2;
        assert(encoded(l1[0]) + tail1 =~= encoded_list(l1) + seq![101u8] + r1);
        assert(encoded(l2[0]) + tail2 =~= encoded_list(l2) + seq![101u8] + r2);
        lemma_encoded_prefix_free(l1[0], l2[0], tail1, tail2);
        lemma_encoded_list_prefix_free(l1.drop_first(), l2.drop_first(), r1, r2);
        assert(encoded_list(l1) =~= encoded_list(l2));
    }
}

/// Pair lists closed by the terminator are prefix-free in the same way.
pub proof fn lemma_encoded_pairs_prefix_free(
    p1: Seq<(Vec<u8>, BencodeValue)>, p2: Seq<(Vec<u8>, BencodeValue)>, r1: Seq<u8>, r2: Seq<u8>)
    requires
        encoded_pairs(p1) + seq![101u8] + r1 == encoded_pairs(p2) + seq![101u8] + r2,
    ensures
        encoded_pairs(p1) == encoded_pairs(p2),
        r1 == r2,
    decreases p1,
{
    let x1 = encoded_pairs(p1) + seq![101u8] + r1;
    if p1.len() == 0 && p2.len() == 0 {
        assert(seq![101u8] + r1 =~= encoded_pairs(p1) + seq![101u8] + r1);
        assert(seq![101u8] + r2 =~= encoded_pairs(p2) + seq![101u8] + r2);
        lemma_tail_after_terminator(r1, r2);
    } else if p1.len() == 0 {
        lemma_dec_digits_canonical(p2[0].0@.len());
        assert(x1[0] == 101);
        assert((encoded_pairs(p2) + seq![101u8] + r2)[0] == dec_digits(p2[0].0@.len())[0]);
        assert(false);
    } else if p2.len() == 0 {
        lemma_dec_digits_canonical(p1[0].0@.len());
        assert(x1[0] == dec_digits(p1[0].0@.len())[0]);
        assert((encoded_pairs(p2) + seq![101u8] + r2)[0] == 101);
        assert(false);
    } else {
        let after_key1 = encoded(p1[0].1) + encoded_pairs(p1.drop_first()) + seq![101u8] + r1;
        let after_key2 = encoded(p2[0].1) + encoded_pairs(p2.drop_first()) + seq![101u8] + r2;
        assert(encoded_bytes(p1[0].0@) + after_key1 =~= encoded_pairs(p1) + seq![101u8] + r1);
        assert(encoded_bytes(p2[0].0@) + after_key2 =~= encoded_pairs(p2) + seq![101u8] + r2);
        lemma_encoded_bytes_prefix_free(p1[0].0@, p2[0].0@, after_key1, after_key2);
        let tail1 = encoded_pairs(p1.drop_first()) + seq![101u8] + r1;
        let tail2 = encoded_pairs(p2.drop_first()) + seq![101u8] + r2;
        assert(encoded(p1[0].1) + tail1 =~= after_key1);
        assert(encoded(p2[0].1) + tail2 =~= after_key2);
        lemma_encoded_prefix_free(p1[0].1, p2[0].1, tail1, tail2);
        lemma_encoded_pairs_prefix_free(p1.drop_first(), p2.drop_first(), r1, r2);
        assert(encoded_pairs(p1) =~= encoded_pairs(p2));
    }
}

/// Equal decimal forms name equal numbers.
proof fn lemma_int_digits_injective(i1: int, i2: int)
    requires
        int_digits(i1) == int_digits(i2),
    ensures
        i1 == i2,
{
    lemma_dec_digits_canonical(if i1 < 0 { (-i1) as nat } else { i1 as nat });
    lemma_dec_digits_canonical(if i2 < 0 { (-i2) as nat } else { i2 as nat });
    // The sign byte is a digit exactly when the number is nonnegative.
    assert((i1 < 0) <==> (i2 < 0)) by {
        assert(int_digits(i1)[0] == int_digits(i2)[0]);
    }
    if i1 < 0 {
        let d1 = dec_digits((-i1) as nat);
        let d2 = dec_digits((-i2) as nat);
        assert(int_digits(i1) == seq![45u8] + d1);
        assert(int_digits(i2) == seq![45u8] + d2);
        assert((seq![45u8] + d1).len() == 1 + d1.len());
        assert((seq![45u8] + d2).len() == 1 + d2.len());
        assert(d1.len() == d2.len());
        assert(d1 =~= d2) by {
            assert forall|k: int| 0 <= k < d1.len() implies d1[k] == d2[k] by {
                assert((seq![45u8] + d1)[1 + k] == d1[k]);
                assert((seq![45u8] + d2)[1 + k] == d2[k]);
            }
        }
        lemma_dec_val_of_digits((-i1) as nat);
        lemma_dec_val_of_digits((-i2) as nat);
    } else {
        lemma_dec_val_of_digits(i1 as nat);
        lemma_dec_val_of_digits(i2 as nat);
    }
}

/// Two values with the same encoding have the same shape, agreeing on
/// everything their encodings determine: the variant, a byte string's or
/// integer's content, and the encodings of a list's elements or a
/// dictionary's pairs.
pub proof fn lemma_encoded_congruent(v1: BencodeValue, v2: BencodeValue)
    requires
        encoded(v1) == encoded(v2),
    ensures
        v1 is Bytes <==> v2 is Bytes,
        v1 is Integer <==> v2 is Integer,
        v1 is List <==> v2 is List,
        v1 is Dictionary <==> v2 is Dictionary,
        v1 is Bytes ==> v1->Bytes_0@ == v2->Bytes_0@,
        v1 is Integer ==> v1->Integer_0 == v2->Integer_0,
        v1 is List ==> encoded_list(v1->List_0@) == encoded_list(v2->List_0@),
        v1 is Dictionary ==> encoded_pairs(v1->Dictionary_0@) == encoded_pairs(v2->Dictionary_0@),
{
    lemma_encoded_leading_byte(v1);
    lemma_encoded_leading_byte(v2);
    match v1 {
        BencodeValue::Bytes(b1) => {
            lemma_encoded_bytes_prefix_free(
                b1@, v2->Bytes_0@, Seq::<u8>::empty(), Seq::<u8>::empty());
        },
        BencodeValue::Integer(i1) => {
            let i2 = v2->Integer_0;
            lemma_int_digits_bytes(i1 as int);
            lemma_int_digits_bytes(i2 as int);
            let t1 = seq![101u8] + Seq::<u8>::empty();
            assert(int_digits(i1 as int) + t1
                =~= encoded(v1).subrange(1, encoded(v1).len() as int));
            assert(int_digits(i2 as int) + t1
                =~= encoded(v2).subrange(1, encoded(v2).len() as int));
            assert forall|k: int| 0 <= k < int_digits(i1 as int).len() implies
                (#[trigger] int_digits(i1 as int)[k]) != 101 by {
                assert(int_digits(i1 as int)[k] == 45
                    || is_digit_byte(int_digits(i1 as int)[k]));
            }
            assert forall|k: int| 0 <= k < int_digits(i2 as int).len() implies
                (#[trigger] int_digits(i2 as int)[k]) != 101 by {
                assert(int_digits(i2 as int)[k] == 45
                    || is_digit_byte(int_digits(i2 as int)[k]));
            }
            lemma_run_unique(int_digits(i1 as int), int_digits(i2 as int), t1, t1, 101);
            lemma_int_digits_injective(i1 as int, i2 as int);
        },
        BencodeValue::List(items1) => {
            let items2 = v2->List_0;
            let x1 = encoded_list(items1@) + seq![101u8] + Seq::<u8>::empty();
            let x2 = encoded_list(items2@) + seq![101u8] + Seq::<u8>::empty();
            assert(x1 =~= encoded(v1).subrange(1, encoded(v1).len() as int));
            assert(x2 =~= encoded(v2).subrange(1, encoded(v2).len() as int));
            lemma_encoded_list_prefix_free(
                items1@, items2@, Seq::<u8>::empty(), Seq::<u8>::empty());
        },
        BencodeValue::Dictionary(pairs1) => {
            let pairs2 = v2->Dictionary_0;
            let x1 = encoded_pairs(pairs1@) + seq![101u8] + Seq::<u8>::empty();
            let x2 = encoded_pairs(pairs2@) + seq![101u8] + Seq::<u8>::empty();
            assert(x1 =~= encoded(v1).subrange(1, encoded(v1).len() as int));
            assert(x2 =~= encoded(v2).subrange(1, encoded(v2).len() as int));
            lemma_encoded_pairs_prefix_free(
                pairs1@, pairs2@, Seq::<u8>::empty(), Seq::<u8>::empty());
        },
    }
}

/// Pair lists with the same encoding agree pointwise: same length, equal
/// keys, and values with equal encodings.
pub proof fn lemma_encoded_pairs_pointwise(
    p1: Seq<(Vec<u8>, BencodeValue)>, p2: Seq<(Vec<u8>, BencodeValue)>)
    requires
        encoded_pairs(p1) == encoded_pairs(p2),
    ensures
        p1.len() == p2.len(),
        forall|i: int| 0 <= i < p1.len()
            ==> (#[trigger] p1[i]).0@ == p2[i].0@
                && encoded(p1[i].1) == encoded(p2[i].1),
    decreases p1,
{
    if p1.len() == 0 && p2.len() == 0 {
    } else if p1.len() == 0 || p2.len() == 0 {
        let q = if p1.len() == 0 { p2 } else { p1 };
        assert(encoded_pairs(q).len() > 0) by {
            lemma_dec_digits_canonical(q[0].0@.len());
            assert(encoded_pairs(q) =~= encoded_bytes(q[0].0@)
                + encoded(q[0].1) + encoded_pairs(q.drop_first()));
            lemma_encoded_leading_byte(q[0].1);
        }
        assert(false);
    } else {
        let after1 = encoded(p1[0].1) + encoded_pairs(p1.drop_first());
        let after2 = encoded(p2[0].1) + encoded_pairs(p2.drop_first());
        assert(encoded_bytes(p1[0].0@) + after1 =~= encoded_pairs(p1));
        assert(encoded_bytes(p2[0].0@) + after2 =~= encoded_pairs(p2));
        lemma_encoded_bytes_prefix_free(p1[0].0@, p2[0].0@, after1, after2);
        lemma_encoded_prefix_free(
            p1[0].1, p2[0].1, encoded_pairs(p1.drop_first()), encoded_pairs(p2.drop_first()));
        lemma_encoded_pairs_pointwise(p1.drop_first(), p2.drop_first());
        assert forall|i: int| 0 <= i < p1.len() implies
            (#[trigger] p1[i]).0@ == p2[i].0@
                && encoded(p1[i].1) == encoded(p2[i].1) by {
            if i > 0 {
                assert(p1.drop_first()[i - 1] == p1[i]);
                assert(p2.drop_first()[i - 1] == p2[i]);
            }
        }
    }
}

/// Element lists with the same encoding agree pointwise: same length, and
/// elements with equal encodings.
pub proof fn lemma_encoded_list_pointwise(l1: Seq<BencodeValue>, l2: Seq<BencodeValue>)
    requires
        encoded_list(l1) == encoded_list(l2),
    ensures
        l1.len() == l2.len(),
        forall|i: int| 0 <= i < l1.len()
            ==> encoded(#[trigger] l1[i]) == encoded(l2[i]),
    decreases l1,
{
    if l1.len() == 0 && l2.len() == 0 {
    } else if l1.len() == 0 || l2.len() == 0 {
        let q = if l1.len() == 0 { l2 } else { l1 };
        assert(encoded_list(q).len() > 0) by {
            assert(encoded_list(q) =~= encoded(q[0]) + encoded_list(q.drop_first()));
            lemma_encoded_leading_byte(q[0]);
        }
        assert(false);
    } else {
        lemma_encoded_prefix_free(
            l1[0], l2[0], encoded_list(l1.drop_first()), encoded_list(l2.drop_first()));
        lemma_encoded_list_pointwise(l1.drop_first(), l2.drop_first());
        assert forall|i: int| 0 <= i < l1.len() implies
            encoded(#[trigger] l1[i]) == encoded(l2[i]) by {
            if i > 0 {
                assert(l1.drop_first()[i - 1] == l1[i]);
                assert(l2.drop_first()[i - 1] == l2[i]);
            }
        }
    }
}

/// Looking a key up in pair lists with the same encoding finds nothing in
/// both, or values with equal encodings.
pub proof fn lemma_dict_first_congruent(
    p1: Seq<(Vec<u8>, BencodeValue)>, p2: Seq<(Vec<u8>, BencodeValue)>, key: Seq<u8>)
    requires
        p1.len() == p2.len(),
        forall|i: int| 0 <= i < p1.len()
            ==> (#[trigger] p1[i]).0@ == p2[i].0@
                && encoded(p1[i].1) == encoded(p2[i].1),
    ensures
        dict_first(p1, key) is None <==> dict_first(p2, key) is None,
        dict_first(p1, key) matches Some(w1)
            ==> encoded(w1) == encoded(dict_first(p2, key)->0),
    decreases p1,
{
    if p1.len() > 0 {
        if p1[0].0@ != key {
            lemma_dict_first_congruent(p1.drop_first(), p2.drop_first(), key);
            assert(forall|i: int| 0 <= i < p1.drop_first().len()
                ==> (#[trigger] p1.drop_first()[i]).0@ == p2.drop_first()[i].0@
                    && encoded(p1.drop_first()[i].1) == encoded(p2.drop_first()[i].1)) by {
                assert(forall|i: int| 0 <= i < p1.drop_first().len()
                    ==> p1.drop_first()[i] == p1[i + 1] && p2.drop_first()[i] == p2[i + 1]);
            }
        }
    }
}

/// Some value's complete encoding lies at `pos` in `input`.
pub open spec fn starts_value(input: Seq<u8>, pos: int) -> bool {
    exists|v: BencodeValue, end: int|
        #![trigger encoded(v), input.subrange(pos, end)]
        pos < end <= input.len() && encoded(v) == input.subrange(pos, end)
}

/// Some byte string's complete encoding lies at `pos` in `input`.
pub open spec fn starts_bytes(input: Seq<u8>, pos: int) -> bool {
    exists|b: Seq<u8>, end: int|
        #![trigger encoded_bytes(b), input.subrange(pos, end)]
        pos < end <= input.len() && encoded_bytes(b) == input.subrange(pos, end)
}

/// What an integer encoding at `pos` forces on a digit scan that started
/// after its opener (and sign): the scan stops exactly at the terminator,
/// and the digit run read is the canonical magnitude, in 64-bit range.
proof fn lemma_integer_scan(input: Seq<u8>, pos: int, digits_start: int, j: int, negative: bool)
    requires
        starts_value(input, pos),
        0 <= pos < input.len(),
        input[pos] == 105,
        negative <==> (pos + 1 < input.len() && input[pos + 1] == 45),
        digits_start == pos + 1 + (if negative { 1int } else { 0int }),
        digits_start <= j <= input.len(),
        forall|k: int| digits_start <= k < j ==> is_digit_byte(#[trigger] input[k]),
        j == input.len() || !is_digit_byte(input[j]),
    ensures
        pos + 1 < input.len(),
        digits_start < j < input.len(),
        input[j] == 101,
        ({
            let run = input.subrange(digits_start, j);
            &&& canonical_decimal(run)
            &&& dec_val(run) <= 0x8000000000000000
            &&& (negative ==> 1 <= dec_val(run))
            &&& (!negative ==> dec_val(run) <= 0x7fffffffffffffff)
        }),
{
    let (v, e) = choose|v: BencodeValue, e: int|
        #![trigger encoded(v), input.subrange(pos, e)]
        pos < e <= input.len() && encoded(v) == input.subrange(pos, e);
    lemma_encoded_leading_byte(v);
    assert(encoded(v)[0] == input[pos]);
    let n = v->Integer_0;
    let d = int_digits(n as int);
    lemma_int_digits_bytes(n as int);
    let ll = d.len() as int;
    assert(encoded(v).len() == 2 + ll);
    assert(e == pos + 2 + ll);
    assert forall|k: int| 0 <= k < ll implies input[pos + 1 + k] == #[trigger] d[k] by {
        assert(encoded(v)[1 + k] == d[k]);
        assert(input.subrange(pos, e)[1 + k] == input[pos + 1 + k]);
    }
    assert(input[pos + 1 + ll] == encoded(v)[1 + ll]) by {
        assert(input.subrange(pos, e)[1 + ll] == input[pos + 1 + ll]);
    }
    assert(input[pos + 1 + ll] == 101);
    // The sign byte in the input matches the sign of the encoded number.
    let m = if n < 0 { (-(n as int)) as nat } else { n as nat };
    let dd = dec_digits(m);
    lemma_dec_digits_canonical(m);
    if n < 0 {
        assert(input[pos + 1] == d[0]);
        assert(d[0] == 45);
        assert(negative);
        assert(forall|k: int| 0 <= k < dd.len() ==> #[trigger] d[1 + k] == dd[k]) by {
            assert(d == seq![45u8] + dd);
        }
    } else {
        assert(d == dd);
        assert(input[pos + 1] == d[0]);
        assert(is_digit_byte(d[0]));
        assert(!negative);
    }
    let dl = dd.len() as int;
    assert forall|k: int| 0 <= k < dl implies input[digits_start + k] == #[trigger] dd[k] by {
        if n < 0 {
            assert(input[pos + 1 + (1 + k)] == d[1 + k]);
        } else {
            assert(input[pos + 1 + k] == d[k]);
        }
    }
    assert(input[digits_start + dl] == 101);
    // The scan stops exactly at the terminator behind the digits.
    assert(j <= digits_start + dl) by {
        if j > digits_start + dl {
            assert(is_digit_byte(input[digits_start + dl]));
        }
    }
    assert(j >= digits_start + dl) by {
        if j < digits_start + dl {
            assert(input[j] == dd[j - digits_start]);
            assert(is_digit_byte(input[j]));
            assert(j < input.len());
        }
    }
    assert(input.subrange(digits_start, j) =~= dd);
    lemma_dec_val_of_digits(m);
    assert(m <= 0x8000000000000000) by {
        if n < 0 {
            assert(n as int >= i64::MIN);
        } else {
            assert(n as int <= i64::MAX);
        }
    }
    if n < 0 {
        assert(m >= 1);
    }
}

/// What a byte-string encoding at `pos` forces on a digit scan started
/// there: the scan stops exactly at the separator, the run is the canonical
/// length, and that many bytes follow the separator.
proof fn lemma_bytes_scan(input: Seq<u8>, pos: int, j: int)
    requires
        starts_bytes(input, pos),
        0 <= pos <= input.len(),
        pos <= j <= input.len(),
        forall|k: int| pos <= k < j ==> is_digit_byte(#[trigger] input[k]),
        j == input.len() || !is_digit_byte(input[j]),
    ensures
        pos < j < input.len(),
        input[j] == 58,
        ({
            let run = input.subrange(pos, j);
            &&& canonical_decimal(run)
            &&& dec_val(run) <= input.len() - j - 1
        }),
{
    let (b, e) = choose|b: Seq<u8>, e: int|
        #![trigger encoded_bytes(b), input.subrange(pos, e)]
        pos < e <= input.len() && encoded_bytes(b) == input.subrange(pos, e);
    let bl = b.len() as int;
    let dd = dec_digits(b.len());
    lemma_dec_digits_canonical(b.len());
    lemma_dec_val_of_digits(b.len());
    let dl = dd.len() as int;
    assert(encoded_bytes(b).len() == dl + 1 + bl);
    assert(e == pos + dl + 1 + bl);
    assert forall|k: int| 0 <= k < dl implies input[pos + k] == #[trigger] dd[k] by {
        assert(encoded_bytes(b)[k] == dd[k]);
        assert(input.subrange(pos, e)[k] == input[pos + k]);
    }
    assert(input[pos + dl] == 58) by {
        assert(encoded_bytes(b)[dl] == 58);
        assert(input.subrange(pos, e)[dl] == input[pos + dl]);
    }
    // The scan stops exactly at the separator behind the length digits.
    assert(j <= pos + dl) by {
        if j > pos + dl {
            assert(is_digit_byte(input[pos + dl]));
        }
    }
    assert(j >= pos + dl) by {
        if j < pos + dl {
            assert(input[j] == dd[j - pos]);
            assert(is_digit_byte(input[j]));
            assert(j < input.len());
        }
    }
    assert(input.subrange(pos, j) =~= dd);
}

/// Whatever remains after matching a terminated element sequence against a
/// prefix of decoded elements is itself a terminated element sequence.
proof fn lemma_enc_list_continuation(
    vs: Seq<BencodeValue>, items: Seq<BencodeValue>, t: Seq<u8>, s: Seq<u8>)
    requires
        encoded_list(vs) + seq![101u8] + t == encoded_list(items) + s,
    ensures
        exists|rest: Seq<BencodeValue>|
            #[trigger] (encoded_list(rest) + seq![101u8] + t) == s,
    decreases items,
{
    if items.len() == 0 {
        assert((encoded_list(vs) + seq![101u8] + t) == s) by {
            assert(encoded_list(items) + s =~= s);
        }
    } else if vs.len() == 0 {
        lemma_encoded_leading_byte(items[0]);
        assert((encoded_list(vs) + seq![101u8] + t)[0] == 101);
        assert((encoded_list(items) + s)[0] == encoded(items[0])[0]) by {
            assert(encoded_list(items) =~= encoded(items[0]) + encoded_list(items.drop_first()));
        }
        assert(false);
    } else {
        let tail_vs = encoded_list(vs.drop_first()) + seq![101u8] + t;
        let tail_items = encoded_list(items.drop_first()) + s;
        assert(encoded(vs[0]) + tail_vs =~= encoded_list(vs) + seq![101u8] + t);
        assert(encoded(items[0]) + tail_items =~= encoded_list(items) + s);
        lemma_encoded_prefix_free(items[0], vs[0], tail_items, tail_vs);
        lemma_enc_list_continuation(vs.drop_first(), items.drop_first(), t, s);
    }
}

/// The pair-list version of the continuation argument.
proof fn lemma_enc_pairs_continuation(
    vs: Seq<(Vec<u8>, BencodeValue)>, items: Seq<(Vec<u8>, BencodeValue)>, t: Seq<u8>, s: Seq<u8>)
    requires
        encoded_pairs(vs) + seq![101u8] + t == encoded_pairs(items) + s,
    ensures
        exists|rest: Seq<(Vec<u8>, BencodeValue)>|
            #[trigger] (encoded_pairs(rest) + seq![101u8] + t) == s,
    decreases items,
{
    if items.len() == 0 {
        assert((encoded_pairs(vs) + seq![101u8] + t) == s) by {
            assert(encoded_pairs(items) + s =~= s);
        }
    } else if vs.len() == 0 {
        lemma_dec_digits_canonical(items[0].0@.len());
        assert((encoded_pairs(vs) + seq![101u8] + t)[0] == 101);
        assert((encoded_pairs(items) + s)[0] == dec_digits(items[0].0@.len())[0]) by {
            assert(encoded_pairs(items) =~= encoded_bytes(items[0].0@)
                + encoded(items[0].1) + encoded_pairs(items.drop_first()));
        }
        assert(false);
    } else {
        let after_key_vs = encoded(vs[0].1) + encoded_pairs(vs.drop_first()) + seq![101u8] + t;
        let after_key_items = encoded(items[0].1) + encoded_pairs(items.drop_first()) + s;
        assert(encoded_bytes(vs[0].0@) + after_key_vs =~= encoded_pairs(vs) + seq![101u8] + t);
        assert(encoded_bytes(items[0].0@) + after_key_items =~= encoded_pairs(items) + s);
        lemma_encoded_bytes_prefix_free(items[0].0@, vs[0].0@, after_key_items, after_key_vs);
        let tail_vs = encoded_pairs(vs.drop_first()) + seq![101u8] + t;
        let tail_items = encoded_pairs(items.drop_first()) + s;
        assert(encoded(vs[0].1) + tail_vs =~= after_key_vs);
        assert(encoded(items[0].1) + tail_items =~= after_key_items);
        lemma_encoded_prefix_free(items[0].1, vs[0].1, tail_items, tail_vs);
        lemma_enc_pairs_continuation(vs.drop_first(), items.drop_first(), t, s);
    }
}

/// What a list encoding at `pos` forces once the elements decoded so far
/// fill `input` from just past the opener to `cur`: the remaining bytes from
/// `cur` are a terminated element sequence of their own.
proof fn lemma_list_progress(input: Seq<u8>, pos: int, cur: int, items: Seq<BencodeValue>)
    requires
        starts_value(input, pos),
        0 <= pos < cur <= input.len(),
        input[pos] == 108,
        encoded_list(items) == input.subrange(pos + 1, cur),
    ensures
        ({
            ||| (cur < input.len() && input[cur] == 101)
            ||| starts_value(input, cur)
        }),
{
    let (v, e) = choose|v: BencodeValue, e: int|
        #![trigger encoded(v), input.subrange(pos, e)]
        pos < e <= input.len() && encoded(v) == input.subrange(pos, e);
    lemma_encoded_leading_byte(v);
    assert(encoded(v)[0] == input[pos]) by {
        assert(input.subrange(pos, e)[0] == input[pos]);
    }
    let vs = v->List_0@;
    let t = input.subrange(e, input.len() as int);
    let s = input.subrange(cur, input.len() as int);
    let xl = encoded_list(vs).len() as int;
    assert(encoded(v) =~= seq![108u8] + encoded_list(vs) + seq![101u8]);
    assert(encoded(v).len() == xl + 2);
    assert(e == pos + xl + 2);
    assert forall|k: int| 0 <= k < xl + 1 implies
        #[trigger] (encoded_list(vs) + seq![101u8])[k] == input[pos + 1 + k] by {
        assert(encoded(v)[1 + k] == (encoded_list(vs) + seq![101u8])[k]);
        assert(input.subrange(pos, e)[1 + k] == input[pos + 1 + k]);
    }
    assert(encoded_list(vs) + seq![101u8] + t
        =~= input.subrange(pos + 1, input.len() as int));
    assert(encoded_list(items) + s =~= input.subrange(pos + 1, input.len() as int));
    lemma_enc_list_continuation(vs, items, t, s);
    let rest = choose|rest: Seq<BencodeValue>|
        #[trigger] (encoded_list(rest) + seq![101u8] + t) == s;
    if rest.len() == 0 {
        assert(s[0] == 101) by {
            assert((encoded_list(rest) + seq![101u8] + t)[0] == 101);
        }
        assert(cur < input.len()) by {
            assert(s.len() >= 1);
        }
        assert(input[cur] == s[0]);
    } else {
        lemma_encoded_leading_byte(rest[0]);
        let el = encoded(rest[0]).len() as int;
        assert(encoded(rest[0]) =~= input.subrange(cur, cur + el)) by {
            assert(encoded_list(rest) =~= encoded(rest[0]) + encoded_list(rest.drop_first()));
            assert(forall|k: int| 0 <= k < el
                ==> #[trigger] encoded(rest[0])[k] == s[k]);
            assert(el <= s.len());
            assert(forall|k: int| 0 <= k < el ==> s[k] == input[cur + k]);
        }
        assert(cur < cur + el <= input.len()) by {
            assert(el + 1 <= s.len());
            assert(s.len() == input.len() - cur);
        }
        assert(starts_value(input, cur));
    }
}

/// What a dictionary encoding at `pos` forces once the pairs decoded so far
/// fill `input` from just past the opener to `cur`: the next byte closes the
/// dictionary or opens a byte-string key.
proof fn lemma_dict_progress(input: Seq<u8>, pos: int, cur: int, items: Seq<(Vec<u8>, BencodeValue)>)
    requires
        starts_value(input, pos),
        0 <= pos < cur <= input.len(),
        input[pos] == 100,
        encoded_pairs(items) == input.subrange(pos + 1, cur),
    ensures
        ({
            ||| (cur < input.len() && input[cur] == 101)
            ||| (cur < input.len() && is_digit_byte(input[cur]) && starts_bytes(input, cur))
        }),
{
    let (v, e) = choose|v: BencodeValue, e: int|
        #![trigger encoded(v), input.subrange(pos, e)]
        pos < e <= input.len() && encoded(v) == input.subrange(pos, e);
    lemma_encoded_leading_byte(v);
    assert(encoded(v)[0] == input[pos]) by {
        assert(input.subrange(pos, e)[0] == input[pos]);
    }
    let vs = v->Dictionary_0@;
    let t = input.subrange(e, input.len() as int);
    let s = input.subrange(cur, input.len() as int);
    let xl = encoded_pairs(vs).len() as int;
    assert(encoded(v) =~= seq![100u8] + encoded_pairs(vs) + seq![101u8]);
    assert(encoded(v).len() == xl + 2);
    assert(e == pos + xl + 2);
    assert forall|k: int| 0 <= k < xl + 1 implies
        #[trigger] (encoded_pairs(vs) + seq![101u8])[k] == input[pos + 1 + k] by {
        assert(encoded(v)[1 + k] == (encoded_pairs(vs) + seq![101u8])[k]);
        assert(input.subrange(pos, e)[1 + k] == input[pos + 1 + k]);
    }
    assert(encoded_pairs(vs) + seq![101u8] + t
        =~= input.subrange(pos + 1, input.len() as int));
    assert(encoded_pairs(items) + s =~= input.subrange(pos + 1, input.len() as int));
    lemma_enc_pairs_continuation(vs, items, t, s);
    let rest = choose|rest: Seq<(Vec<u8>, BencodeValue)>|
        #[trigger] (encoded_pairs(rest) + seq![101u8] + t) == s;
    if rest.len() == 0 {
        assert(s[0] == 101) by {
            assert((encoded_pairs(rest) + seq![101u8] + t)[0] == 101);
        }
        assert(cur < input.len()) by {
            assert(s.len() >= 1);
        }
        assert(input[cur] == s[0]);
    } else {
        let key = rest[0].0@;
        lemma_dec_digits_canonical(key.len());
        let kl = encoded_bytes(key).len() as int;
        assert(encoded_pairs(rest) =~= encoded_bytes(key)
            + encoded(rest[0].1) + encoded_pairs(rest.drop_first()));
        assert(encoded_bytes(key) =~= input.subrange(cur, cur + kl)) by {
            assert(forall|k: int| 0 <= k < kl
                ==> #[trigger] encoded_bytes(key)[k] == s[k]);
            assert(kl <= s.len());
            assert(forall|k: int| 0 <= k < kl ==> s[k] == input[cur + k]);
        }
        lemma_encoded_leading_byte(rest[0].1);
        assert(cur < cur + kl <= input.len()) by {
            assert(kl + 2 <= s.len());
            assert(s.len() == input.len() - cur);
        }
        assert(starts_bytes(input, cur));
        assert(input[cur] == encoded_bytes(key)[0]) by {
            assert(input.subrange(cur, cur + kl)[0] == input[cur]);
        }
        assert(is_digit_byte(input[cur])) by {
            assert(encoded_bytes(key)[0] == dec_digits(key.len())[0]);
        }
    }
}

/// After a key has been read out of a dictionary encoding, a value encoding
/// follows it.
proof fn lemma_dict_key_value(
    input: Seq<u8>, pos: int, cur: int, items: Seq<(Vec<u8>, BencodeValue)>,
    key: Seq<u8>, kend: int)
    requires
        starts_value(input, pos),
        0 <= pos < cur < kend <= input.len(),
        input[pos] == 100,
        encoded_pairs(items) == input.subrange(pos + 1, cur),
        encoded_bytes(key) == input.subrange(cur, kend),
    ensures
        kend < input.len(),
        starts_value(input, kend),
{
    let (v, e) = choose|v: BencodeValue, e: int|
        #![trigger encoded(v), input.subrange(pos, e)]
        pos < e <= input.len() && encoded(v) == input.subrange(pos, e);
    lemma_encoded_leading_byte(v);
    assert(encoded(v)[0] == input[pos]) by {
        assert(input.subrange(pos, e)[0] == input[pos]);
    }
    let vs = v->Dictionary_0@;
    let t = input.subrange(e, input.len() as int);
    let s = input.subrange(cur, input.len() as int);
    let xl = encoded_pairs(vs).len() as int;
    assert(encoded(v) =~= seq![100u8] + encoded_pairs(vs) + seq![101u8]);
    assert(encoded(v).len() == xl + 2);
    assert(e == pos + xl + 2);
    assert forall|k: int| 0 <= k < xl + 1 implies
        #[trigger] (encoded_pairs(vs) + seq![101u8])[k] == input[pos + 1 + k] by {
        assert(encoded(v)[1 + k] == (encoded_pairs(vs) + seq![101u8])[k]);
        assert(input.subrange(pos, e)[1 + k] == input[pos + 1 + k]);
    }
    assert(encoded_pairs(vs) + seq![101u8] + t
        =~= input.subrange(pos + 1, input.len() as int));
    assert(encoded_pairs(items) + s =~= input.subrange(pos + 1, input.len() as int));
    lemma_enc_pairs_continuation(vs, items, t, s);
    let rest = choose|rest: Seq<(Vec<u8>, BencodeValue)>|
        #[trigger] (encoded_pairs(rest) + seq![101u8] + t) == s;
    lemma_dec_digits_canonical(key.len());
    if rest.len() == 0 {
        assert(s[0] == 101) by {
            assert((encoded_pairs(rest) + seq![101u8] + t)[0] == 101);
        }
        assert(s[0] == encoded_bytes(key)[0]) by {
            assert(input.subrange(cur, kend)[0] == input[cur]);
            assert(s[0] == input[cur]);
        }
        assert(is_digit_byte(encoded_bytes(key)[0])) by {
            assert(encoded_bytes(key)[0] == dec_digits(key.len())[0]);
        }
        assert(false);
    } else {
        let after_key_rest = encoded(rest[0].1)
            + encoded_pairs(rest.drop_first()) + seq![101u8] + t;
        assert(encoded_pairs(rest) =~= encoded_bytes(rest[0].0@)
            + encoded(rest[0].1) + encoded_pairs(rest.drop_first()));
        assert(encoded_bytes(rest[0].0@) + after_key_rest =~= s);
        let after_key = input.subrange(kend, input.len() as int);
        assert(encoded_bytes(key) + after_key =~= s);
        lemma_encoded_bytes_prefix_free(rest[0].0@, key, after_key_rest, after_key);
        lemma_encoded_leading_byte(rest[0].1);
        let el = encoded(rest[0].1).len() as int;
        assert(encoded(rest[0].1) =~= input.subrange(kend, kend + el)) by {
            assert(forall|k: int| 0 <= k < el
                ==> #[trigger] encoded(rest[0].1)[k] == after_key[k]);
            assert(el + 1 <= after_key.len());
            assert(forall|k: int| 0 <= k < after_key.len()
                ==> #[trigger] after_key[k] == input[kend + k]);
        }
        assert(kend < kend + el <= input.len()) by {
            assert(el + 1 <= after_key.len());
            assert(after_key.len() == input.len() - kend);
        }
        assert(starts_value(input, kend));
    }
}

/// The value under the first binding of `key` in a dictionary's pair list,
/// searching in stored order. Later duplicates are preserved by the decoder
/// but never override the first binding.
pub open spec fn dict_first(pairs: Seq<(Vec<u8>, BencodeValue)>, key: Seq<u8>) -> Option<BencodeValue>
    decreases pairs,
{
    if pairs.len() == 0 {
        None
    } else if pairs[0].0@ == key {
        Some(pairs[0].1)
    } else {
        dict_first(pairs.drop_first(), key)
    }
}

/// Looks `key` up in a dictionary's pair list: the first binding wins.
pub fn dict_get<'a>(pairs: &'a Vec<(Vec<u8>, BencodeValue)>, key: &[u8]) -> (r: Option<&'a BencodeValue>)
    ensures
        match r {
            Some(v) => dict_first(pairs@, key@) == Some(*v),
            None => dict_first(pairs@, key@) is None,
        },
{
    let n: usize = pairs.len();
    let mut i: usize = 0;
    proof {
        assert(pairs@.skip(0) =~= pairs@);
    }
    while i < n
        invariant
            n == pairs@.len(),
            0 <= i <= n,
            dict_first(pairs@, key@) == dict_first(pairs@.skip(i as int), key@),
        decreases n - i,
    {
        proof {
            assert(pairs@.skip(i as int)[0] == pairs@[i as int]);
            assert(pairs@.skip(i as int).drop_first() =~= pairs@.skip(i + 1));
        }
        if crate::util::bytes_eq(pairs[i].0.as_slice(), key) {
            return Some(&pairs[i].1);
        }
        i = i + 1;
    }
    proof {
        assert(pairs@.skip(n as int) =~= Seq::<(Vec<u8>, BencodeValue)>::empty());
    }
    None
}

impl BencodeValue {
    /// Decodes one complete value from the whole input: fails on anything
    /// left over after the root value. It succeeds exactly when the input is
    /// the canonical encoding of some value, and then the input is the
    /// encoding of the result: re-encoding a decoded value reproduces the
    /// input byte for byte.
    pub fn decode(input: &[u8]) -> (r: Result<BencodeValue, BencodeError>)
        ensures
            r matches Ok(v) ==> encoded(v) == input@,
            (exists|v: BencodeValue| #[trigger] encoded(v) == input@) ==> r is Ok,
    {
        proof {
            if exists|v: BencodeValue| #[trigger] encoded(v) == input@ {
                let v = choose|v: BencodeValue| #[trigger] encoded(v) == input@;
                lemma_encoded_leading_byte(v);
                assert(input@.subrange(0, input@.len() as int) =~= input@);
                assert(encoded(v) == input@.subrange(0, input@.len() as int));
                assert(starts_value(input@, 0));
            }
        }
        let (value, end) = match Self::decode_from_reader(input, 0) {
            Ok(p) => p,
            Err(err) => {
                return Err(err);
            },
        };
        if end != input.len() {
            proof {
                if exists|v: BencodeValue| #[trigger] encoded(v) == input@ {
                    let v = choose|v: BencodeValue| #[trigger] encoded(v) == input@;
                    let tail = input@.subrange(end as int, input@.len() as int);
                    assert(encoded(v) + Seq::<u8>::empty() =~= input@);
                    assert(encoded(value) + tail =~= input@);
                    lemma_encoded_prefix_free(v, value, Seq::<u8>::empty(), tail);
                    assert(tail.len() == 0);
                }
            }
            return Err(BencodeError { position: end, cause: BencodeCause::TrailingData });
        }
        proof {
            assert(input@.subrange(0, input@.len() as int) =~= input@);
        }
        Ok(value)
    }

    /// Decodes the single value starting at `pos`, dispatching on its first
    /// byte, and returns it with the position just past it. On success the
    /// consumed range is exactly the canonical encoding of the value.
    pub fn decode_from_reader(input: &[u8], pos: usize) -> (r: Result<(BencodeValue, usize), BencodeError>)
        requires
            pos <= input@.len(),
        ensures
            r matches Ok((v, end)) ==> {
                &&& pos < end <= input@.len()
                &&& encoded(v) == input@.subrange(pos as int, end as int)
            },
            starts_value(input@, pos as int) ==> r is Ok,
        decreases input@.len() - pos, 1int,
    {
        if pos >= input.len() {
            proof {
                if starts_value(input@, pos as int) {
                    let (v, e) = choose|v: BencodeValue, e: int|
                        #![trigger encoded(v), input@.subrange(pos as int, e)]
                        pos < e <= input@.len()
                            && encoded(v) == input@.subrange(pos as int, e);
                }
            }
            return Err(BencodeError { position: pos, cause: BencodeCause::UnexpectedEnd });
        }
        let b: u8 = input[pos];
        if b == 108 {
            Self::decode_list(input, pos)
        } else if b == 105 {
            Self::decode_integer(input, pos)
        } else if b == 100 {
            Self::decode_dictionary(input, pos)
        } else if 48 <= b && b <= 57 {
            match Self::decode_raw_bytes(input, pos) {
                Ok((bytes, end)) => Ok((BencodeValue::Bytes(bytes), end)),
                Err(e) => {
                    proof {
                        if starts_value(input@, pos as int) {
                            let (v, e2) = choose|v: BencodeValue, e2: int|
                                #![trigger encoded(v), input@.subrange(pos as int, e2)]
                                pos < e2 <= input@.len()
                                    && encoded(v) == input@.subrange(pos as int, e2);
                            lemma_encoded_leading_byte(v);
                            assert(encoded(v)[0] == input@[pos as int]) by {
                                assert(input@.subrange(pos as int, e2)[0]
                                    == input@[pos as int]);
                            }
                            assert(encoded_bytes(v->Bytes_0@)
                                == input@.subrange(pos as int, e2));
                            assert(starts_bytes(input@, pos as int));
                        }
                    }
                    Err(e)
                },
            }
        } else {
            proof {
                if starts_value(input@, pos as int) {
                    let (v, e) = choose|v: BencodeValue, e: int|
                        #![trigger encoded(v), input@.subrange(pos as int, e)]
                        pos < e <= input@.len()
                            && encoded(v) == input@.subrange(pos as int, e);
                    lemma_encoded_leading_byte(v);
                    assert(encoded(v)[0] == input@[pos as int]) by {
                        assert(input@.subrange(pos as int, e)[0] == input@[pos as int]);
                    }
                }
            }
            Err(BencodeError { position: pos, cause: BencodeCause::InvalidLeadingByte })
        }
    }

    /// Decodes a list whose `'l'` opener stands at `pos`.
    pub fn decode_list(input: &[u8], pos: usize) -> (r: Result<(BencodeValue, usize), BencodeError>)
        requires
            pos < input@.len(),
            input@[pos as int] == 108u8,
        ensures
            r matches Ok((v, end)) ==> {
                &&& pos < end <= input@.len()
                &&& encoded(v) == input@.subrange(pos as int, end as int)
            },
            starts_value(input@, pos as int) ==> r is Ok,
        decreases input@.len() - pos, 0int,
    {
        let ilen: usize = input.len();
        assert(pos < ilen);
        let mut items: Vec<BencodeValue> = Vec::new();
        let mut cur: usize = pos + 1;
        while cur < input.len() && input[cur] != 101
            invariant
                pos < cur <= input@.len(),
                input@[pos as int] == 108u8,
                encoded_list(items@) == input@.subrange(pos + 1, cur as int),
            decreases input@.len() - cur,
        {
            let (item, end) = match Self::decode_from_reader(input, cur) {
                Ok(p) => p,
                Err(err) => {
                    proof {
                        if starts_value(input@, pos as int) {
                            lemma_list_progress(input@, pos as int, cur as int, items@);
                        }
                    }
                    return Err(err);
                },
            };
            proof {
                lemma_encoded_list_push(items@, item);
                assert(input@.subrange(pos + 1, end as int)
                    =~= input@.subrange(pos + 1, cur as int)
                        + input@.subrange(cur as int, end as int));
            }
            items.push(item);
            cur = end;
        }
        if cur >= input.len() {
            proof {
                if starts_value(input@, pos as int) {
                    lemma_list_progress(input@, pos as int, cur as int, items@);
                    if starts_value(input@, cur as int) {
                        let (v2, e2) = choose|v2: BencodeValue, e2: int|
                            #![trigger encoded(v2), input@.subrange(cur as int, e2)]
                            cur < e2 <= input@.len()
                                && encoded(v2) == input@.subrange(cur as int, e2);
                    }
                }
            }
            return Err(BencodeError { position: cur, cause: BencodeCause::MissingTerminator });
        }
        proof {
            let v = BencodeValue::List(items);
            assert(encoded(v) =~= input@.subrange(pos as int, cur + 1)) by {
                assert(encoded(v) =~= seq![108u8] + encoded_list(items@) + seq![101u8]);
                assert(input@.subrange(pos as int, cur + 1)
                    =~= seq![input@[pos as int]]
                        + input@.subrange(pos + 1, cur as int)
                        + seq![input@[cur as int]]);
            }
        }
        Ok((BencodeValue::List(items), cur + 1))
    }

    /// Decodes a dictionary whose `'d'` opener stands at `pos`. Keys must be
    /// byte strings; pairs are kept in input order, duplicates included.
    pub fn decode_dictionary(input: &[u8], pos: usize) -> (r: Result<(BencodeValue, usize), BencodeError>)
        requires
            pos < input@.len(),
            input@[pos as int] == 100u8,
        ensures
            r matches Ok((v, end)) ==> {
                &&& pos < end <= input@.len()
                &&& encoded(v) == input@.subrange(pos as int, end as int)
            },
            starts_value(input@, pos as int) ==> r is Ok,
        decreases input@.len() - pos, 0int,
    {
        let ilen: usize = input.len();
        assert(pos < ilen);
        let mut pairs: Vec<(Vec<u8>, BencodeValue)> = Vec::new();
        let mut cur: usize = pos + 1;
        while cur < input.len() && input[cur] != 101
            invariant
                pos < cur <= input@.len(),
                input@[pos as int] == 100u8,
                encoded_pairs(pairs@) == input@.subrange(pos + 1, cur as int),
            decreases input@.len() - cur,
        {
            let kb: u8 = input[cur];
            if !(48 <= kb && kb <= 57) {
                proof {
                    if starts_value(input@, pos as int) {
                        lemma_dict_progress(input@, pos as int, cur as int, pairs@);
                    }
                }
                return Err(BencodeError { position: cur, cause: BencodeCause::NonStringKey });
            }
            let (key, key_end) = match Self::decode_raw_bytes(input, cur) {
                Ok(p) => p,
                Err(err) => {
                    proof {
                        if starts_value(input@, pos as int) {
                            lemma_dict_progress(input@, pos as int, cur as int, pairs@);
                        }
                    }
                    return Err(err);
                },
            };
            if key_end >= input.len() {
                proof {
                    if starts_value(input@, pos as int) {
                        lemma_dict_key_value(
                            input@, pos as int, cur as int, pairs@, key@, key_end as int);
                    }
                }
                return Err(BencodeError { position: key_end, cause: BencodeCause::UnexpectedEnd });
            }
            let (value, end) = match Self::decode_from_reader(input, key_end) {
                Ok(p) => p,
                Err(err) => {
                    proof {
                        if starts_value(input@, pos as int) {
                            lemma_dict_key_value(
                                input@, pos as int, cur as int, pairs@, key@, key_end as int);
                        }
                    }
                    return Err(err);
                },
            };
            proof {
                lemma_encoded_pairs_push(pairs@, key, value);
                assert(input@.subrange(pos + 1, end as int)
                    =~= input@.subrange(pos + 1, cur as int)
                        + input@.subrange(cur as int, key_end as int)
                        + input@.subrange(key_end as int, end as int));
            }
            pairs.push((key, value));
            cur = end;
        }
        if cur >= input.len() {
            proof {
                if starts_value(input@, pos as int) {
                    lemma_dict_progress(input@, pos as int, cur as int, pairs@);
                    if starts_bytes(input@, cur as int) {
                        let (b2, e2) = choose|b2: Seq<u8>, e2: int|
                            #![trigger encoded_bytes(b2), input@.subrange(cur as int, e2)]
                            cur < e2 <= input@.len()
                                && encoded_bytes(b2) == input@.subrange(cur as int, e2);
                    }
                }
            }
            return Err(BencodeError { position: cur, cause: BencodeCause::MissingTerminator });
        }
        proof {
            let v = BencodeValue::Dictionary(pairs);
            assert(encoded(v) =~= input@.subrange(pos as int, cur + 1)) by {
                assert(encoded(v) =~= seq![100u8] + encoded_pairs(pairs@) + seq![101u8]);
                assert(input@.subrange(pos as int, cur + 1)
                    =~= seq![input@[pos as int]]
                        + input@.subrange(pos + 1, cur as int)
                        + seq![input@[cur as int]]);
            }
        }
        Ok((BencodeValue::Dictionary(pairs), cur + 1))
    }

    /// Decodes an integer whose `'i'` opener stands at `pos`: an optional
    /// sign and a canonical digit run, closed by `'e'`. Rejects leading
    /// zeros, `-0`, an empty run, and values outside the signed 64-bit range.
    pub fn decode_integer(input: &[u8], pos: usize) -> (r: Result<(BencodeValue, usize), BencodeError>)
        requires
            pos < input@.len(),
            input@[pos as int] == 105u8,
        ensures
            r matches Ok((v, end)) ==> {
                &&& pos < end <= input@.len()
                &&& encoded(v) == input@.subrange(pos as int, end as int)
            },
            starts_value(input@, pos as int) ==> r is Ok,
        decreases input@.len() - pos, 0int,
    {
        let ilen: usize = input.len();
        assert(pos < ilen);
        let mut j: usize = pos + 1;
        let negative: bool = j < input.len() && input[j] == 45;
        if negative {
            j = j + 1;
        }
        let digits_start: usize = j;
        while j < input.len() && 48 <= input[j] && input[j] <= 57
            invariant
                digits_start <= j <= input@.len(),
                forall|k: int| digits_start <= k < j ==> is_digit_byte(#[trigger] input@[k]),
            decreases input@.len() - j,
        {
            j = j + 1;
        }
        if j >= input.len() {
            proof {
                if starts_value(input@, pos as int) {
                    lemma_integer_scan(input@, pos as int, digits_start as int, j as int, negative);
                }
            }
            return Err(BencodeError { position: j, cause: BencodeCause::MissingTerminator });
        }
        if input[j] != 101 {
            proof {
                if starts_value(input@, pos as int) {
                    lemma_integer_scan(input@, pos as int, digits_start as int, j as int, negative);
                }
            }
            return Err(BencodeError { position: j, cause: BencodeCause::InvalidInteger });
        }
        if j == digits_start {
            // Empty digit run.
            proof {
                if starts_value(input@, pos as int) {
                    lemma_integer_scan(input@, pos as int, digits_start as int, j as int, negative);
                }
            }
            return Err(BencodeError { position: j, cause: BencodeCause::InvalidInteger });
        }
        if j - digits_start > 1 && input[digits_start] == 48 {
            // Leading zero on a multi-digit run.
            proof {
                if starts_value(input@, pos as int) {
                    lemma_integer_scan(input@, pos as int, digits_start as int, j as int, negative);
                }
            }
            return Err(BencodeError { position: digits_start, cause: BencodeCause::InvalidInteger });
        }
        let run: &[u8] = vstd::slice::slice_subrange(input, digits_start, j);
        let magnitude: u64 = match parse_decimal_u64(run) {
            Some(m) => m,
            None => {
                proof {
                    if starts_value(input@, pos as int) {
                        lemma_integer_scan(
                            input@, pos as int, digits_start as int, j as int, negative);
                    }
                }
                return Err(BencodeError { position: digits_start, cause: BencodeCause::IntegerOverflow });
            }
        };
        proof {
            lemma_digits_of_dec_val(run@);
        }
        let value: i64;
        if negative {
            if magnitude == 0 {
                // `-0` is not a canonical integer.
                proof {
                    if starts_value(input@, pos as int) {
                        lemma_integer_scan(
                            input@, pos as int, digits_start as int, j as int, negative);
                    }
                }
                return Err(BencodeError { position: digits_start, cause: BencodeCause::InvalidInteger });
            }
            if magnitude > 9223372036854775808u64 {
                proof {
                    if starts_value(input@, pos as int) {
                        lemma_integer_scan(
                            input@, pos as int, digits_start as int, j as int, negative);
                    }
                }
                return Err(BencodeError { position: digits_start, cause: BencodeCause::IntegerOverflow });
            }
            value = (-(magnitude as i128)) as i64;
            assert(value as int == -(magnitude as int));
        } else {
            if magnitude > 9223372036854775807u64 {
                proof {
                    if starts_value(input@, pos as int) {
                        lemma_integer_scan(
                            input@, pos as int, digits_start as int, j as int, negative);
                    }
                }
                return Err(BencodeError { position: digits_start, cause: BencodeCause::IntegerOverflow });
            }
            value = magnitude as i64;
        }
        proof {
            let v = BencodeValue::Integer(value);
            assert(int_digits(value as int) =~= if negative { seq![45u8] + run@ } else { run@ });
            assert(encoded(v) =~= input@.subrange(pos as int, j + 1)) by {
                assert(run@ =~= input@.subrange(digits_start as int, j as int));
                if negative {
                    assert(input@.subrange(pos as int, j + 1)
                        =~= seq![input@[pos as int]] + seq![input@[pos + 1]]
                            + input@.subrange(digits_start as int, j as int)
                            + seq![input@[j as int]]);
                } else {
                    assert(input@.subrange(pos as int, j + 1)
                        =~= seq![input@[pos as int]]
                            + input@.subrange(digits_start as int, j as int)
                            + seq![input@[j as int]]);
                }
            }
        }
        Ok((BencodeValue::Integer(value), j + 1))
    }

    /// Decodes a byte string whose canonical decimal length prefix starts at
    /// `pos`, followed by `':'` and exactly that many raw bytes.
    pub fn decode_raw_bytes(input: &[u8], pos: usize) -> (r: Result<(Vec<u8>, usize), BencodeError>)
        requires
            pos <= input@.len(),
        ensures
            r matches Ok((b, end)) ==> {
                &&& pos < end <= input@.len()
                &&& encoded_bytes(b@) == input@.subrange(pos as int, end as int)
            },
            starts_bytes(input@, pos as int) ==> r is Ok,
    {
        let mut j: usize = pos;
        while j < input.len() && 48 <= input[j] && input[j] <= 57
            invariant
                pos <= j <= input@.len(),
                forall|k: int| pos <= k < j ==> is_digit_byte(#[trigger] input@[k]),
            decreases input@.len() - j,
        {
            j = j + 1;
        }
        if j == pos {
            proof {
                if starts_bytes(input@, pos as int) {
                    lemma_bytes_scan(input@, pos as int, j as int);
                }
            }
            return Err(BencodeError { position: pos, cause: BencodeCause::InvalidLengthPrefix });
        }
        if j - pos > 1 && input[pos] == 48 {
            // Leading zero on a multi-digit length.
            proof {
                if starts_bytes(input@, pos as int) {
                    lemma_bytes_scan(input@, pos as int, j as int);
                }
            }
            return Err(BencodeError { position: pos, cause: BencodeCause::InvalidLengthPrefix });
        }
        if j >= input.len() {
            proof {
                if starts_bytes(input@, pos as int) {
                    lemma_bytes_scan(input@, pos as int, j as int);
                }
            }
            return Err(BencodeError { position: j, cause: BencodeCause::UnexpectedEnd });
        }
        if input[j] != 58 {
            proof {
                if starts_bytes(input@, pos as int) {
                    lemma_bytes_scan(input@, pos as int, j as int);
                }
            }
            return Err(BencodeError { position: j, cause: BencodeCause::InvalidLengthPrefix });
        }
        let run: &[u8] = vstd::slice::slice_subrange(input, pos, j);
        let length64: u64 = match parse_decimal_u64(run) {
            Some(m) => m,
            None => {
                proof {
                    if starts_bytes(input@, pos as int) {
                        lemma_bytes_scan(input@, pos as int, j as int);
                    }
                }
                return Err(BencodeError { position: pos, cause: BencodeCause::InvalidLengthPrefix });
            }
        };
        proof {
            lemma_digits_of_dec_val(run@);
        }
        let after_colon: usize = j + 1;
        let remaining: usize = input.len() - after_colon;
        if length64 > remaining as u64 {
            proof {
                if starts_bytes(input@, pos as int) {
                    lemma_bytes_scan(input@, pos as int, j as int);
                }
            }
            return Err(BencodeError { position: after_colon, cause: BencodeCause::UnexpectedEnd });
        }
        let length: usize = length64 as usize;
        let end: usize = after_colon + length;
        let raw: &[u8] = vstd::slice::slice_subrange(input, after_colon, end);
        let bytes: Vec<u8> = vstd::slice::slice_to_vec(raw);
        proof {
            assert(encoded_bytes(bytes@) =~= input@.subrange(pos as int, end as int)) by {
                assert(bytes@ =~= input@.subrange(after_colon as int, end as int));
                assert(bytes@.len() == length64 as nat);
                assert(dec_digits(bytes@.len()) =~= run@);
                assert(input@.subrange(pos as int, end as int)
                    =~= input@.subrange(pos as int, j as int)
                        + seq![input@[j as int]]
                        + input@.subrange(after_colon as int, end as int));
                assert(run@ =~= input@.subrange(pos as int, j as int));
            }
        }
        Ok((bytes, end))
    }

    /// Decodes a byte string starting at `pos` as a value.
    pub fn decode_bytes(input: &[u8], pos: usize) -> (r: Result<(BencodeValue, usize), BencodeError>)
        requires
            pos <= input@.len(),
        ensures
            r matches Ok((v, end)) ==> {
                &&& pos < end <= input@.len()
                &&& encoded(v) == input@.subrange(pos as int, end as int)
            },
            starts_bytes(input@, pos as int) ==> r is Ok,
    {
        match Self::decode_raw_bytes(input, pos) {
            Ok((bytes, end)) => Ok((BencodeValue::Bytes(bytes), end)),
            Err(e) => Err(e),
        }
    }

    /// Appends the canonical encoding of `self` to `buf`.
    pub fn encode_into(&self, buf: &mut Vec<u8>)
        ensures
            final(buf)@ == old(buf)@ + encoded(*self),
        decreases *self,
    {
        match self {
            BencodeValue::Integer(i) => {
                buf.push(105);
                let mut digits = i64_to_decimal(*i);
                buf.append(&mut digits);
                buf.push(101);
                proof {
                    assert(final(buf)@ =~= old(buf)@ + encoded(*self));
                }
            }
            BencodeValue::Bytes(b) => {
                let mut prefix = u64_to_decimal(b.len() as u64);
                buf.append(&mut prefix);
                buf.push(58);
                let mut raw = vstd::slice::slice_to_vec(b.as_slice());
                buf.append(&mut raw);
                proof {
                    assert(final(buf)@ =~= old(buf)@ + encoded(*self));
                }
            }
            BencodeValue::List(items) => {
                buf.push(108);
                let n: usize = items.len();
                let mut k: usize = 0;
                while k < n
                    invariant
                        n == items@.len(),
                        k <= n,
                        *self == BencodeValue::List(*items),
                        buf@ == old(buf)@ + seq![108u8] + encoded_list(items@.take(k as int)),
                    decreases n - k,
                {
                    proof {
                        assert(decreases_to!(*self => self->List_0));
                        assert(decreases_to!(self->List_0 => self->List_0@));
                        assert(decreases_to!(self->List_0@ => self->List_0@[k as int]));
                        assert(items@[k as int] == self->List_0@[k as int]);
                        assert(decreases_to!(*self => items@[k as int]));
                    }
                    items[k].encode_into(buf);
                    proof {
                        lemma_encoded_list_push(items@.take(k as int), items@[k as int]);
                        assert(items@.take(k + 1) =~= items@.take(k as int).push(items@[k as int]));
                        assert(buf@ =~= old(buf)@ + seq![108u8] + encoded_list(items@.take(k + 1)));
                    }
                    k = k + 1;
                }
                buf.push(101);
                proof {
                    assert(items@.take(n as int) =~= items@);
                    assert(final(buf)@ =~= old(buf)@ + encoded(*self));
                }
            }
            BencodeValue::Dictionary(pairs) => {
                buf.push(100);
                proof {
                    assert(decreases_to!(*self => self->Dictionary_0));
                }
                encode_pairs_into(pairs, buf);
                buf.push(101);
                proof {
                    assert(final(buf)@ =~= old(buf)@ + encoded(*self));
                }
            }
        }
    }

    /// The canonical encoding of `self` as a fresh buffer. Together with the
    /// contract of `decode` this is the round trip: for every input that
    /// decodes successfully, encoding the result returns the input.
    pub fn encode(&self) -> (r: Vec<u8>)
        ensures
            r@ == encoded(*self),
    {
        let mut buf: Vec<u8> = Vec::new();
        self.encode_into(&mut buf);
        proof {
            assert(buf@ =~= encoded(*self));
        }
        buf
    }
}

/// Appends the canonical encodings of a dictionary's pairs to `buf`, in
/// stored order: each key as a byte string, then its value.
pub fn encode_pairs_into(pairs: &Vec<(Vec<u8>, BencodeValue)>, buf: &mut Vec<u8>)
    ensures
        final(buf)@ == old(buf)@ + encoded_pairs(pairs@),
    decreases *pairs,
{
    let n: usize = pairs.len();
    let mut k: usize = 0;
    proof {
        assert(encoded_pairs(pairs@.take(0)) == Seq::<u8>::empty()) by {
            assert(pairs@.take(0) =~= Seq::<(Vec<u8>, BencodeValue)>::empty());
        }
        assert(buf@ =~= old(buf)@ + encoded_pairs(pairs@.take(0)));
    }
    while k < n
        invariant
            n == pairs@.len(),
            k <= n,
            buf@ == old(buf)@ + encoded_pairs(pairs@.take(k as int)),
        decreases n - k,
    {
        let key: &Vec<u8> = &pairs[k].0;
        let mut prefix = u64_to_decimal(key.len() as u64);
        buf.append(&mut prefix);
        buf.push(58);
        let mut raw = vstd::slice::slice_to_vec(key.as_slice());
        buf.append(&mut raw);
        proof {
            assert(decreases_to!(*pairs => pairs@));
            assert(decreases_to!(pairs@ => pairs@[k as int]));
            assert(decreases_to!(pairs@[k as int] => pairs@[k as int].1));
            assert(decreases_to!(*pairs => pairs@[k as int].1));
        }
        pairs[k].1.encode_into(buf);
        proof {
            lemma_encoded_pairs_push(
                pairs@.take(k as int), pairs@[k as int].0, pairs@[k as int].1);
            assert(pairs@.take(k + 1) =~= pairs@.take(k as int).push(pairs@[k as int]));
            assert(buf@ =~= old(buf)@ + encoded_pairs(pairs@.take(k + 1)));
        }
        k = k + 1;
    }
    proof {
        assert(pairs@.take(n as int) =~= pairs@);
    }
}

} // verus!
