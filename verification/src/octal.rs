//! Numeric header fields: ASCII octal digits, optionally surrounded by spaces
//! and ended by a NUL byte.

use vstd::prelude::*;

verus! {

/// The digit `0`.
pub const ASCII_ZERO: u8 = 0x30;

/// The space.
pub const ASCII_SPACE: u8 = 0x20;

/// Whether `b` is one of the digits `0` to `7`.
pub open spec fn is_octal_digit(b: u8) -> bool {
    0x30 <= b && b <= 0x37
}

/// Whether every byte of `digits` is an octal digit.
pub open spec fn all_octal(digits: Seq<u8>) -> bool {
    forall|i: int| 0 <= i < digits.len() ==> is_octal_digit(#[trigger] digits[i])
}

/// The number that a string of octal digits denotes, most significant digit first.
pub open spec fn octal_value(digits: Seq<u8>) -> nat
    decreases digits.len(),
{
    if digits.len() == 0 {
        0
    } else {
        8 * octal_value(digits.drop_last()) + (digits.last() - 0x30) as nat
    }
}

/// Index of the first NUL byte of `s` at or after `from`; the length of `s` if there is none.
pub open spec fn nul_pos(s: Seq<u8>, from: int) -> int
    decreases s.len() - from,
{
    if from < 0 || from >= s.len() || s[from] == 0 {
        from
    } else {
        nul_pos(s, from + 1)
    }
}

/// The bytes of `s` before its first NUL byte.
pub open spec fn truncate_nul(s: Seq<u8>) -> Seq<u8> {
    s.subrange(0, nul_pos(s, 0))
}

/// Index of the first byte of `s` at or after `from` that is not a space.
pub open spec fn skip_spaces(s: Seq<u8>, from: int) -> int
    decreases s.len() - from,
{
    if from < 0 || from >= s.len() || s[from] != 0x20 {
        from
    } else {
        skip_spaces(s, from + 1)
    }
}

/// End of `s[lo..to]` once its trailing spaces are cut off.
pub open spec fn trim_end(s: Seq<u8>, lo: int, to: int) -> int
    decreases to - lo,
{
    if to <= lo || to > s.len() || s[to - 1] != 0x20 {
        to
    } else {
        trim_end(s, lo, to - 1)
    }
}

/// `s` without its leading and trailing spaces.
pub open spec fn trim_spaces(s: Seq<u8>) -> Seq<u8> {
    let a = skip_spaces(s, 0);
    s.subrange(a, trim_end(s, a, s.len() as int))
}

/// The digits of a numeric field: what stands before the first NUL, without
/// the spaces around it.
pub open spec fn field_digits(field: Seq<u8>) -> Seq<u8> {
    trim_spaces(truncate_nul(field))
}

/// The value of a numeric field, if it holds a number: at least one digit,
/// and octal digits only.
pub open spec fn octal_field(field: Seq<u8>) -> Option<nat> {
    let digits = field_digits(field);
    if digits.len() > 0 && all_octal(digits) {
        Some(octal_value(digits))
    } else {
        None
    }
}

/// A field value as far as it fits in 64 bits.
pub open spec fn fits_u64(v: Option<nat>) -> Option<u64> {
    match v {
        Some(n) => if n <= u64::MAX {
            Some(n as u64)
        } else {
            None
        },
        None => None,
    }
}

/// `8^n`.
pub open spec fn pow8(n: nat) -> nat
    decreases n,
{
    if n == 0 {
        1
    } else {
        8 * pow8((n - 1) as nat)
    }
}

/// The `n` octal digits of `value`, most significant first, padded with zeros
/// on the left (the low `n` digits if `value` has more).
pub open spec fn octal_digits(value: nat, n: nat) -> Seq<u8>
    decreases n,
{
    if n == 0 {
        Seq::empty()
    } else {
        octal_digits(value / 8, (n - 1) as nat).push((0x30 + value % 8) as u8)
    }
}

/// A numeric field of `width` bytes that holds `value`: `width - 1` digits and a NUL.
pub open spec fn encoded_field(value: nat, width: nat) -> Seq<u8> {
    octal_digits(value, (width - 1) as nat).push(0u8)
}

/// The first NUL is where a NUL stands with none before it.
pub proof fn lemma_nul_pos(s: Seq<u8>, from: int, k: int)
    requires
        0 <= from <= k <= s.len(),
        forall|i: int| from <= i < k ==> s[i] != 0,
        k == s.len() || s[k] == 0,
    ensures
        nul_pos(s, from) == k,
    decreases k - from,
{
    if from < k {
        lemma_nul_pos(s, from + 1, k);
    }
}

/// The first NUL lies within the string, and no NUL stands before it.
pub proof fn lemma_nul_pos_bounds(s: Seq<u8>, from: int)
    requires
        0 <= from <= s.len(),
    ensures
        from <= nul_pos(s, from) <= s.len(),
        forall|i: int| from <= i < nul_pos(s, from) ==> s[i] != 0,
        nul_pos(s, from) < s.len() ==> s[nul_pos(s, from)] == 0,
    decreases s.len() - from,
{
    if from < s.len() && s[from] != 0 {
        lemma_nul_pos_bounds(s, from + 1);
    }
}

/// The spaces end where a byte that is none stands with only spaces before it.
pub proof fn lemma_skip_spaces(s: Seq<u8>, from: int, k: int)
    requires
        0 <= from <= k <= s.len(),
        forall|i: int| from <= i < k ==> s[i] == 0x20,
        k == s.len() || s[k] != 0x20,
    ensures
        skip_spaces(s, from) == k,
    decreases k - from,
{
    if from < k {
        lemma_skip_spaces(s, from + 1, k);
    }
}

/// The trailing spaces begin where only spaces follow a byte that is none.
pub proof fn lemma_trim_end(s: Seq<u8>, lo: int, to: int, k: int)
    requires
        0 <= lo <= k <= to <= s.len(),
        forall|i: int| k <= i < to ==> s[i] == 0x20,
        k == lo || s[k - 1] != 0x20,
    ensures
        trim_end(s, lo, to) == k,
    decreases to - k,
{
    if k < to {
        lemma_trim_end(s, lo, to - 1, k);
    }
}

/// The value of a prefix of a digit string is at most the value of the string.
pub proof fn lemma_octal_value_prefix(digits: Seq<u8>, j: int)
    requires
        all_octal(digits),
        0 <= j <= digits.len(),
    ensures
        octal_value(digits.subrange(0, j)) <= octal_value(digits),
    decreases digits.len() - j,
{
    if j == digits.len() {
        assert(digits.subrange(0, j) =~= digits);
    } else {
        lemma_octal_value_prefix(digits, j + 1);
        let p = digits.subrange(0, j + 1);
        assert(p.drop_last() =~= digits.subrange(0, j));
        assert(is_octal_digit(digits[j]));
        assert(p.last() == digits[j]);
    }
}

/// `octal_digits(value, n)` is `n` octal digits.
pub proof fn lemma_octal_digits_len(value: nat, n: nat)
    ensures
        octal_digits(value, n).len() == n,
        all_octal(octal_digits(value, n)),
    decreases n,
{
    if n > 0 {
        lemma_octal_digits_len(value / 8, (n - 1) as nat);
        let d = octal_digits(value, n);
        assert forall|i: int| 0 <= i < d.len() implies is_octal_digit(#[trigger] d[i]) by {
            if i < n - 1 {
                assert(d[i] == octal_digits(value / 8, (n - 1) as nat)[i]);
            }
        }
    }
}

/// Digit `t` of `octal_digits(value, n)` is the digit of weight `8^(n-1-t)` of `value`.
pub proof fn lemma_octal_digits_index(value: nat, n: nat, t: int)
    requires
        0 <= t < n,
    ensures
        octal_digits(value, n).len() == n,
        octal_digits(value, n)[t] == (0x30 + (value / pow8((n - 1 - t) as nat)) % 8) as u8,
    decreases n,
{
    lemma_octal_digits_len(value, n);
    lemma_octal_digits_len(value / 8, (n - 1) as nat);
    if t == n - 1 {
        assert(pow8(0) == 1);
    } else {
        lemma_octal_digits_index(value / 8, (n - 1) as nat, t);
        let e = (n - 2 - t) as nat;
        let p = pow8(e) as int;
        assert(pow8((n - 1 - t) as nat) == 8 * p);
        lemma_pow8_positive(e);
        vstd::arithmetic::div_mod::lemma_div_denominator(value as int, 8, p);
        assert((value as int / 8) / p == value as int / (8 * p));
        assert((n - 1 - 1 - t) as nat == e);
        assert(octal_digits(value / 8, (n - 1) as nat)[t] == (0x30 + ((value / 8) / pow8(e)) % 8)
            as u8);
        assert(octal_digits(value, n)[t] == octal_digits(value / 8, (n - 1) as nat)[t]);
        assert((value / 8) / pow8(e) == value / pow8((n - 1 - t) as nat));
    }
}

/// A power of 8 is positive.
pub proof fn lemma_pow8_positive(n: nat)
    ensures
        pow8(n) > 0,
    decreases n,
{
    if n > 0 {
        lemma_pow8_positive((n - 1) as nat);
    }
}

/// Decoding the digits of a value gives the value back, if the digits suffice for it.
pub proof fn lemma_octal_digits_value(value: nat, n: nat)
    requires
        value < pow8(n),
    ensures
        octal_value(octal_digits(value, n)) == value,
    decreases n,
{
    if n > 0 {
        let rest = octal_digits(value / 8, (n - 1) as nat);
        let d = octal_digits(value, n);
        assert(value / 8 < pow8((n - 1) as nat));
        lemma_octal_digits_value(value / 8, (n - 1) as nat);
        assert(d.drop_last() =~= rest);
        assert(d.last() == (0x30 + value % 8) as u8);
    }
}

/// An encoded field decodes to the value that was encoded.
pub proof fn lemma_encoded_field_round_trip(value: nat, width: nat)
    requires
        width >= 2,
        value < pow8((width - 1) as nat),
    ensures
        encoded_field(value, width).len() == width,
        octal_field(encoded_field(value, width)) == Some(value),
{
    let n = (width - 1) as nat;
    let digits = octal_digits(value, n);
    let field = encoded_field(value, width);
    lemma_octal_digits_len(value, n);
    lemma_octal_digits_value(value, n);
    assert forall|i: int| 0 <= i < n implies field[i] != 0 && field[i] != 0x20 by {
        assert(field[i] == digits[i]);
        assert(is_octal_digit(digits[i]));
    }
    lemma_nul_pos(field, 0, n as int);
    let t = truncate_nul(field);
    assert(t =~= digits);
    lemma_skip_spaces(t, 0, 0);
    lemma_trim_end(t, 0, n as int, n as int);
    assert(trim_spaces(t) =~= digits);
}

/// Decodes a numeric field.
///
/// The field holds a number if the bytes before its first NUL, with the
/// spaces around them removed, are one or more octal digits; the result is
/// that number, or `None` if there is none or it does not fit in 64 bits.
pub fn parse_octal(field: &[u8]) -> (res: Option<u64>)
    ensures
        res == fits_u64(octal_field(field@)),
{
    let len = field.len();
    let mut k: usize = 0;
    while k < len && field[k] != 0
        invariant
            0 <= k <= len,
            len == field@.len(),
            forall|i: int| 0 <= i < k ==> field@[i] != 0,
        decreases len - k,
    {
        k += 1;
    }
    let ghost t = field@.subrange(0, k as int);
    proof {
        lemma_nul_pos(field@, 0, k as int);
        assert(truncate_nul(field@) == t);
    }
    let mut a: usize = 0;
    while a < k && field[a] == ASCII_SPACE
        invariant
            0 <= a <= k <= len,
            len == field@.len(),
            forall|i: int| 0 <= i < a ==> field@[i] == 0x20,
        decreases k - a,
    {
        a += 1;
    }
    let mut b: usize = k;
    while b > a && field[b - 1] == ASCII_SPACE
        invariant
            0 <= a <= b <= k <= len,
            len == field@.len(),
            forall|i: int| b <= i < k ==> field@[i] == 0x20,
        decreases b - a,
    {
        b -= 1;
    }
    let ghost digits = t.subrange(a as int, b as int);
    proof {
        lemma_skip_spaces(t, 0, a as int);
        lemma_trim_end(t, a as int, k as int, b as int);
        assert(field_digits(field@) == digits);
    }
    if a == b {
        return None;
    }
    let mut acc: u64 = 0;
    let mut i: usize = a;
    while i < b
        invariant
            0 <= a <= i <= b <= k <= len,
            len == field@.len(),
            digits == field@.subrange(0, k as int).subrange(a as int, b as int),
            digits == field_digits(field@),
            all_octal(digits.subrange(0, i - a)),
            acc == octal_value(digits.subrange(0, i - a)),
        decreases b - i,
    {
        let c = field[i];
        if c < ASCII_ZERO || c > 0x37 {
            proof {
                assert(digits[i - a] == c);
                assert(!is_octal_digit(digits[i - a]));
            }
            return None;
        }
        let d: u64 = (c - ASCII_ZERO) as u64;
        proof {
            let p = digits.subrange(0, i - a + 1);
            assert(p.drop_last() =~= digits.subrange(0, i - a));
            assert(p.last() == c);
            assert forall|j: int| 0 <= j < p.len() implies is_octal_digit(#[trigger] p[j]) by {
                if j < i - a {
                    assert(digits.subrange(0, i - a)[j] == p[j]);
                }
            }
            assert(octal_value(p) == 8 * acc + d);
            if all_octal(digits) {
                lemma_octal_value_prefix(digits, i - a + 1);
            }
        }
        if acc > (u64::MAX - d) / 8 {
            return None;
        }
        acc = 8 * acc + d;
        i += 1;
    }
    proof {
        assert(digits.subrange(0, b - a) =~= digits);
    }
    Some(acc)
}

} // verus!
