//! Decimal text: the canonical digits of a number, the value of a digit
//! string, and which byte strings count as signed integer literals.

use vstd::prelude::*;

verus! {

/// The canonical decimal digit bytes of `n >= 0`: no sign, no leading
/// zeros.
pub open spec fn dec_bytes(n: int) -> Seq<u8>
    decreases n,
{
    if n < 10 {
        seq![(48 + if n >= 0 { n } else { 0 }) as u8]
    } else {
        dec_bytes(n / 10).push((48 + n % 10) as u8)
    }
}

pub open spec fn is_digit(b: u8) -> bool {
    48 <= b <= 57
}

pub open spec fn all_digits(s: Seq<u8>) -> bool {
    forall|i: int| 0 <= i < s.len() ==> is_digit(#[trigger] s[i])
}

/// The value of a decimal digit string, read left to right.
pub open spec fn dec_value(s: Seq<u8>) -> int
    decreases s.len(),
{
    if s.len() == 0 {
        0
    } else {
        dec_value(s.drop_last()) * 10 + (s.last() - 48)
    }
}

/// The digit bytes of an integer literal, after an optional sign byte.
pub open spec fn int_digits(s: Seq<u8>) -> Seq<u8> {
    if s.len() > 0 && (s[0] == 43 || s[0] == 45) {
        s.skip(1)
    } else {
        s
    }
}

pub open spec fn int_sign(s: Seq<u8>) -> int {
    if s.len() > 0 && s[0] == 45 {
        -1
    } else {
        1
    }
}

/// The byte strings accepted as decimal integers: an optional `+` or `-`
/// sign followed by at least one digit.
pub open spec fn is_int_literal(s: Seq<u8>) -> bool {
    int_digits(s).len() > 0 && all_digits(int_digits(s))
}

pub open spec fn int_value(s: Seq<u8>) -> int {
    int_sign(s) * dec_value(int_digits(s))
}

/// What parsing the bytes as an `i64` yields: the value when the bytes
/// are a decimal literal whose value is in range, nothing otherwise.
pub open spec fn spec_parse_i64(s: Seq<u8>) -> Option<i64> {
    if is_int_literal(s) && i64::MIN <= int_value(s) <= i64::MAX {
        Some(int_value(s) as i64)
    } else {
        None
    }
}

/// A digit string has a non-negative value.
pub proof fn lemma_dec_value_nonneg(s: Seq<u8>)
    requires
        all_digits(s),
    ensures
        dec_value(s) >= 0,
    decreases s.len(),
{
    if s.len() > 0 {
        assert(all_digits(s.drop_last()));
        lemma_dec_value_nonneg(s.drop_last());
    }
}

/// Extending a digit string on the right never lowers its value.
pub proof fn lemma_dec_value_prefix_le(s: Seq<u8>, i: int)
    requires
        all_digits(s),
        0 <= i <= s.len(),
    ensures
        dec_value(s.take(i)) <= dec_value(s),
    decreases s.len() - i,
{
    if i < s.len() {
        assert(s.take(i + 1).drop_last() =~= s.take(i));
        lemma_dec_value_nonneg(s.take(i));
        assert(dec_value(s.take(i)) <= dec_value(s.take(i + 1)));
        lemma_dec_value_prefix_le(s, i + 1);
        assert(s.take(s.len() as int) =~= s);
    } else {
        assert(s.take(i) =~= s);
    }
}

/// The canonical digits of `n` spell `n` and nothing else: all digits,
/// at least one of them, and their value is `n`.
pub proof fn lemma_dec_bytes(n: int)
    requires
        n >= 0,
    ensures
        all_digits(dec_bytes(n)),
        dec_bytes(n).len() >= 1,
        dec_value(dec_bytes(n)) == n,
    decreases n,
{
    if n < 10 {
        assert(dec_bytes(n) =~= seq![(48 + n) as u8]);
        assert(dec_bytes(n).drop_last() =~= Seq::<u8>::empty());
        assert((48 + n) as u8 == 48 + n);
        assert(dec_value(Seq::<u8>::empty()) == 0);
        assert(dec_value(dec_bytes(n)) == dec_bytes(n).last() - 48);
    } else {
        lemma_dec_bytes(n / 10);
        assert(dec_bytes(n).drop_last() =~= dec_bytes(n / 10));
        assert(dec_bytes(n).last() == (48 + n % 10) as u8);
        assert(0 <= n % 10 < 10);
        assert((48 + n % 10) as u8 == 48 + n % 10);
        assert(dec_value(dec_bytes(n)) == dec_value(dec_bytes(n / 10)) * 10 + (dec_bytes(n).last()
            - 48));
        assert(n / 10 * 10 + n % 10 == n) by {
            vstd::arithmetic::div_mod::lemma_fundamental_div_mod(n, 10);
        }
    }
}

/// The canonical digits of `n` parse back to `n` as an `i64`.
pub proof fn lemma_parse_dec_bytes(n: int)
    requires
        0 <= n <= i64::MAX,
    ensures
        spec_parse_i64(dec_bytes(n)) == Some(n as i64),
{
    lemma_dec_bytes(n);
    assert(int_digits(dec_bytes(n)) == dec_bytes(n));
}

/// The canonical decimal digits of `n`, as bytes.
pub fn format_u64(n: u64) -> (r: Vec<u8>)
    ensures
        r@ == dec_bytes(n as int),
    decreases n,
{
    if n < 10 {
        let mut v: Vec<u8> = Vec::new();
        v.push(48 + (n as u8));
        proof {
            assert(v@ =~= dec_bytes(n as int));
        }
        v
    } else {
        let mut v = format_u64(n / 10);
        v.push(48 + ((n % 10) as u8));
        v
    }
}

} // verus!
