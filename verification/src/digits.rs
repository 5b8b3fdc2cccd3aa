//! Decimal ASCII digit strings: the mathematical form of a number written in
//! base ten, the executable conversions in both directions, and the lemmas
//! that make the bencode round trip go through.

use vstd::prelude::*;

verus! {

/// ASCII `'0'` ..= `'9'`.
pub open spec fn is_digit_byte(b: u8) -> bool {
    48 <= b <= 57
}

/// Every byte of `s` is an ASCII digit.
pub open spec fn all_digits(s: Seq<u8>) -> bool {
    forall|k: int| 0 <= k < s.len() ==> is_digit_byte(#[trigger] s[k])
}

/// The numeric value of a digit string (most significant digit first).
pub open spec fn dec_val(s: Seq<u8>) -> nat
    decreases s.len(),
{
    if s.len() == 0 {
        0
    } else {
        dec_val(s.drop_last()) * 10 + (s.last() - 48) as nat
    }
}

/// The decimal digit string of `n`, with no leading zeros (`0` is `"0"`).
pub open spec fn dec_digits(n: nat) -> Seq<u8>
    decreases n,
{
    if n < 10 {
        seq![(48 + n) as u8]
    } else {
        dec_digits(n / 10) + seq![(48 + n % 10) as u8]
    }
}

/// The decimal form of a signed number: a `'-'` sign before the digits of
/// the magnitude for negative numbers.
pub open spec fn int_digits(i: int) -> Seq<u8> {
    if i < 0 {
        seq![45u8] + dec_digits((-i) as nat)
    } else {
        dec_digits(i as nat)
    }
}

/// A digit string in canonical form: non-empty, and no leading zero unless
/// it is exactly `"0"`.
pub open spec fn canonical_decimal(s: Seq<u8>) -> bool {
    &&& all_digits(s)
    &&& s.len() > 0
    &&& (s.len() == 1 || s[0] != 48)
}

/// `dec_digits(n)` never starts with `'0'` when `n` is positive.
pub proof fn lemma_dec_digits_first_nonzero(n: nat)
    requires
        n >= 1,
    ensures
        dec_digits(n).len() >= 1,
        dec_digits(n)[0] != 48,
    decreases n,
{
    if n >= 10 {
        lemma_dec_digits_first_nonzero(n / 10);
    }
}

/// The digit string of any number is canonical.
pub proof fn lemma_dec_digits_canonical(n: nat)
    ensures
        canonical_decimal(dec_digits(n)),
    decreases n,
{
    if n < 10 {
    } else {
        lemma_dec_digits_canonical(n / 10);
        lemma_dec_digits_first_nonzero(n / 10);
    }
}

/// Reading the digits of `n` back yields `n`.
pub proof fn lemma_dec_val_of_digits(n: nat)
    ensures
        dec_val(dec_digits(n)) == n,
    decreases n,
{
    if n < 10 {
        assert(dec_digits(n).drop_last() =~= Seq::<u8>::empty());
        assert(dec_digits(n).last() == (48 + n) as u8);
        assert(dec_val(Seq::<u8>::empty()) == 0);
        assert(dec_val(dec_digits(n)) == dec_val(dec_digits(n).drop_last()) * 10 + (dec_digits(n).last() - 48) as nat);
        assert(dec_val(dec_digits(n)) == n);
    } else {
        lemma_dec_val_of_digits(n / 10);
        assert(dec_digits(n).drop_last() =~= dec_digits(n / 10));
        assert(dec_digits(n).last() == (48 + n % 10) as u8);
        assert(((48 + n % 10) as u8 - 48) as nat == n % 10);
        assert(n / 10 * 10 + n % 10 == n) by {
            vstd::arithmetic::div_mod::lemma_fundamental_div_mod(n as int, 10);
        }
        assert(dec_val(dec_digits(n)) == dec_val(dec_digits(n / 10)) * 10 + n % 10);
    }
}

/// A digit string with value zero consists of `'0'` bytes only.
proof fn lemma_dec_val_zero(s: Seq<u8>)
    requires
        all_digits(s),
        dec_val(s) == 0,
    ensures
        forall|k: int| 0 <= k < s.len() ==> s[k] == 48,
    decreases s.len(),
{
    if s.len() > 0 {
        assert(dec_val(s.drop_last()) == 0);
        lemma_dec_val_zero(s.drop_last());
        assert forall|k: int| 0 <= k < s.len() implies s[k] == 48 by {
            if k < s.len() - 1 {
                assert(s[k] == s.drop_last()[k]);
            }
        }
    }
}

/// A canonical digit string is recovered exactly from its value: writing
/// `dec_val(s)` back in decimal gives `s` itself.
pub proof fn lemma_digits_of_dec_val(s: Seq<u8>)
    requires
        canonical_decimal(s),
    ensures
        dec_digits(dec_val(s)) == s,
    decreases s.len(),
{
    let t = s.drop_last();
    let d = (s.last() - 48) as nat;
    let n = dec_val(s);
    assert(n == dec_val(t) * 10 + d);
    if s.len() == 1 {
        assert(t =~= Seq::<u8>::empty());
        assert(n == d < 10);
        assert(dec_digits(n) =~= s);
    } else {
        if dec_val(t) == 0 {
            lemma_dec_val_zero(t);
            assert(s[0] == t[0]);
            assert(false);
        }
        assert(n >= 10) by {
            assert(dec_val(t) >= 1);
            assert(dec_val(t) * 10 >= 10) by (nonlinear_arith)
                requires dec_val(t) >= 1,
            ;
        }
        assert(n / 10 == dec_val(t) && n % 10 == d) by {
            vstd::arithmetic::div_mod::lemma_fundamental_div_mod_converse(
                n as int, 10, dec_val(t) as int, d as int);
        }
        assert(canonical_decimal(t)) by {
            assert(forall|k: int| 0 <= k < t.len() ==> t[k] == s[k]);
        }
        lemma_digits_of_dec_val(t);
        assert(dec_digits(n) =~= dec_digits(dec_val(t)) + seq![(48 + d) as u8]);
        assert(dec_digits(n) =~= s);
    }
}

/// The decimal form of a signed number holds only sign and digit bytes:
/// never a terminator or separator.
pub proof fn lemma_int_digits_bytes(i: int)
    ensures
        int_digits(i).len() >= 1,
        forall|k: int| 0 <= k < int_digits(i).len()
            ==> (#[trigger] int_digits(i)[k]) == 45 || is_digit_byte(int_digits(i)[k]),
{
    if i < 0 {
        lemma_dec_digits_canonical((-i) as nat);
        assert forall|k: int| 0 <= k < int_digits(i).len() implies
            (#[trigger] int_digits(i)[k]) == 45 || is_digit_byte(int_digits(i)[k]) by {
            if k > 0 {
                assert(int_digits(i)[k] == dec_digits((-i) as nat)[k - 1]);
            }
        }
    } else {
        lemma_dec_digits_canonical(i as nat);
    }
}

/// Two digit (or sign) runs followed by the same stop byte, equal as whole
/// sequences, are the same run with the same tail.
pub proof fn lemma_run_unique(d1: Seq<u8>, d2: Seq<u8>, s1: Seq<u8>, s2: Seq<u8>, stop: u8)
    requires
        forall|k: int| 0 <= k < d1.len() ==> (#[trigger] d1[k]) != stop,
        forall|k: int| 0 <= k < d2.len() ==> (#[trigger] d2[k]) != stop,
        s1.len() > 0,
        s2.len() > 0,
        s1[0] == stop,
        s2[0] == stop,
        d1 + s1 == d2 + s2,
    ensures
        d1 == d2,
        s1 == s2,
{
    if d1.len() < d2.len() {
        assert((d1 + s1)[d1.len() as int] == s1[0]);
        assert((d2 + s2)[d1.len() as int] == d2[d1.len() as int]);
        assert(false);
    }
    if d2.len() < d1.len() {
        assert((d2 + s2)[d2.len() as int] == s2[0]);
        assert((d1 + s1)[d2.len() as int] == d1[d2.len() as int]);
        assert(false);
    }
    assert((d1 + s1).len() == (d2 + s2).len());
    assert((d1 + s1).len() == d1.len() + s1.len());
    assert((d2 + s2).len() == d2.len() + s2.len());
    assert(s1.len() == s2.len());
    assert(d1 =~= d2) by {
        assert forall|k: int| 0 <= k < d1.len() implies d1[k] == d2[k] by {
            assert((d1 + s1)[k] == d1[k]);
            assert((d2 + s2)[k] == d2[k]);
        }
    }
    assert(s1 =~= s2) by {
        assert forall|k: int| 0 <= k < s1.len() implies s1[k] == s2[k] by {
            assert((d1 + s1)[d1.len() + k] == s1[k]);
            assert((d2 + s2)[d2.len() + k] == s2[k]);
        }
    }
}

/// The value of a prefix of a digit string is at most the value of the whole.
pub proof fn lemma_dec_val_prefix_le(s: Seq<u8>, k: int)
    requires
        all_digits(s),
        0 <= k <= s.len(),
    ensures
        dec_val(s.take(k)) <= dec_val(s),
    decreases s.len() - k,
{
    if k < s.len() {
        lemma_dec_val_prefix_le(s, k + 1);
        let t = s.take(k + 1);
        assert(t.drop_last() =~= s.take(k));
        assert(dec_val(s.take(k)) <= dec_val(t)) by {
            assert(dec_val(t) == dec_val(s.take(k)) * 10 + (t.last() - 48) as nat);
            assert(dec_val(s.take(k)) * 10 >= dec_val(s.take(k))) by (nonlinear_arith);
        }
    } else {
        assert(s.take(k) =~= s);
    }
}

/// Parses a non-empty digit string as a `u64`; fails exactly on overflow.
pub fn parse_decimal_u64(s: &[u8]) -> (r: Option<u64>)
    requires
        all_digits(s@),
        s@.len() > 0,
    ensures
        r is Some <==> dec_val(s@) <= u64::MAX,
        r is Some ==> r.unwrap() == dec_val(s@),
{
    let n: usize = s.len();
    let mut acc: u64 = 0;
    let mut i: usize = 0;
    while i < n
        invariant
            n == s@.len(),
            0 <= i <= n,
            all_digits(s@),
            acc == dec_val(s@.take(i as int)),
        decreases n - i,
    {
        let d: u8 = s[i];
        assert(is_digit_byte(d));
        proof {
            assert(s@.take(i + 1).drop_last() =~= s@.take(i as int));
        }
        let scaled: Option<u64> = acc.checked_mul(10);
        let next: Option<u64> = match scaled {
            Some(x) => x.checked_add((d - 48) as u64),
            None => None,
        };
        match next {
            Some(v) => {
                acc = v;
            }
            None => {
                proof {
                    let t = s@.take(i + 1);
                    assert(dec_val(t) == dec_val(s@.take(i as int)) * 10 + (d - 48) as nat);
                    assert(dec_val(t) > u64::MAX);
                    lemma_dec_val_prefix_le(s@, i + 1);
                }
                return None;
            }
        }
        i = i + 1;
    }
    proof {
        assert(s@.take(n as int) =~= s@);
    }
    Some(acc)
}

/// Writes `n` in decimal ASCII.
pub fn u64_to_decimal(n: u64) -> (r: Vec<u8>)
    ensures
        r@ == dec_digits(n as nat),
    decreases n,
{
    if n < 10 {
        let mut v: Vec<u8> = Vec::new();
        v.push(48 + n as u8);
        proof {
            assert(v@ =~= dec_digits(n as nat));
        }
        v
    } else {
        let mut v = u64_to_decimal(n / 10);
        v.push(48 + (n % 10) as u8);
        proof {
            assert(v@ =~= dec_digits(n as nat));
        }
        v
    }
}

/// Writes a signed number in decimal ASCII, `'-'` first when negative.
pub fn i64_to_decimal(i: i64) -> (r: Vec<u8>)
    ensures
        r@ == int_digits(i as int),
{
    if i >= 0 {
        u64_to_decimal(i as u64)
    } else {
        let magnitude: u64 = (-(i as i128)) as u64;
        assert(magnitude == -(i as int));
        let mut v: Vec<u8> = Vec::new();
        v.push(45u8);
        let mut digits = u64_to_decimal(magnitude);
        v.append(&mut digits);
        proof {
            assert(v@ =~= int_digits(i as int));
        }
        v
    }
}

} // verus!
