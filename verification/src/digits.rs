use vstd::prelude::*;
use vstd::slice::slice_subrange;

verus! {

// Decimal text for the integer fields of the text codecs, with proofs that
// printing and parsing are mutually inverse.

pub open spec fn is_digit(c: u8) -> bool {
    48 <= c && c <= 57
}

/// The decimal digits of `n`, most significant first, no sign, no leading
/// zeros (a single `0` for zero).
pub open spec fn dec_nat(n: nat) -> Seq<u8>
    decreases n,
{
    if n < 10 {
        seq![(48 + n) as u8]
    } else {
        dec_nat(n / 10).push((48 + n % 10) as u8)
    }
}

/// The decimal text of a signed value: a leading `-` for a negative one.
pub open spec fn dec_int(x: int) -> Seq<u8> {
    if x < 0 {
        seq![45u8] + dec_nat((-x) as nat)
    } else {
        dec_nat(x as nat)
    }
}

pub open spec fn all_digits(s: Seq<u8>) -> bool {
    forall|i: int| 0 <= i < s.len() ==> is_digit(#[trigger] s[i])
}

/// The value of a digit string, most significant first.
pub open spec fn digits_val(s: Seq<u8>) -> nat
    decreases s.len(),
{
    if s.len() == 0 {
        0
    } else {
        (digits_val(s.drop_last()) * 10 + (s.last() - 48)) as nat
    }
}

pub proof fn lemma_dec_nat_wf(n: nat)
    ensures
        dec_nat(n).len() >= 1,
        all_digits(dec_nat(n)),
    decreases n,
{
    if n >= 10 {
        lemma_dec_nat_wf(n / 10);
        assert forall|i: int| 0 <= i < dec_nat(n).len() implies is_digit(#[trigger] dec_nat(n)[i]) by {
            if i < dec_nat(n / 10).len() {
                assert(dec_nat(n)[i] == dec_nat(n / 10)[i]);
            }
        }
    }
}

pub proof fn lemma_dec_nat_val(n: nat)
    ensures
        digits_val(dec_nat(n)) == n,
    decreases n,
{
    if n < 10 {
        assert(dec_nat(n).drop_last() =~= Seq::<u8>::empty());
        assert(digits_val(Seq::<u8>::empty()) == 0);
        assert(digits_val(dec_nat(n)) == (0 * 10 + ((48 + n) as u8 - 48)) as nat);
    } else {
        lemma_dec_nat_val(n / 10);
        assert(dec_nat(n).drop_last() =~= dec_nat(n / 10));
        assert(digits_val(dec_nat(n)) == n / 10 * 10 + n % 10);
        assert(n == 10 * (n / 10) + n % 10) by {
            vstd::arithmetic::div_mod::lemma_fundamental_div_mod(n as int, 10);
        }
    }
}

/// A digit string is worth at least its prefixes: used to justify stopping
/// a parse as soon as the value can no longer fit.
pub proof fn lemma_digits_val_take_mono(s: Seq<u8>, k: int)
    requires
        0 <= k <= s.len(),
        all_digits(s),
    ensures
        digits_val(s.take(k)) <= digits_val(s),
    decreases s.len() - k,
{
    if k < s.len() {
        lemma_digits_val_take_mono(s, k + 1);
        assert(s.take(k + 1).drop_last() =~= s.take(k));
        assert(is_digit(s[k]));
        assert(s.take(k + 1).last() == s[k]);
        assert(digits_val(s.take(k + 1)) == (digits_val(s.take(k)) * 10 + (s[k] - 48)) as nat);
    } else {
        assert(s.take(k) =~= s);
    }
}

/// Printing a `u64` and reading the digits back gives the value printed.
pub fn fmt_u64(n: u64) -> (r: Vec<u8>)
    ensures
        r@ == dec_nat(n as nat),
    decreases n,
{
    if n < 10 {
        let mut r: Vec<u8> = Vec::new();
        r.push(48 + n as u8);
        proof {
            assert(r@ =~= dec_nat(n as nat));
        }
        r
    } else {
        let mut r = fmt_u64(n / 10);
        r.push(48 + (n % 10) as u8);
        r
    }
}

pub fn fmt_i32(x: i32) -> (r: Vec<u8>)
    ensures
        r@ == dec_int(x as int),
{
    if x >= 0 {
        fmt_u64(x as u64)
    } else {
        let m: u64 = (-(x as i64)) as u64;
        let mut r: Vec<u8> = Vec::new();
        r.push(45);
        let mut tail = fmt_u64(m);
        r.append(&mut tail);
        proof {
            assert(r@ =~= seq![45u8] + dec_nat(m as nat));
        }
        r
    }
}

/// Reads an unsigned decimal field: every byte a digit, at least one, and a
/// value that fits; anything else is no number.
pub open spec fn parse_u64_field(s: Seq<u8>) -> Option<u64> {
    if s.len() > 0 && all_digits(s) && digits_val(s) <= u64::MAX {
        Some(digits_val(s) as u64)
    } else {
        None
    }
}

/// Reads a signed decimal field: an optional leading `-`, then digits, with
/// a value in `i32` range.
pub open spec fn parse_i32_field(s: Seq<u8>) -> Option<i32> {
    if s.len() >= 1 && s[0] == 45 {
        let d = s.drop_first();
        if d.len() > 0 && all_digits(d) && digits_val(d) <= 0x8000_0000 {
            Some((-(digits_val(d) as int)) as i32)
        } else {
            None
        }
    } else if s.len() > 0 && all_digits(s) && digits_val(s) <= 0x7fff_ffff {
        Some(digits_val(s) as i32)
    } else {
        None
    }
}

/// Digit-by-digit `u64` parser; agrees exactly with `parse_u64_field`.
pub fn read_u64_field(s: &[u8]) -> (r: Option<u64>)
    ensures
        r == parse_u64_field(s@),
{
    let n = s.len();
    if n == 0 {
        return None;
    }
    let mut val: u64 = 0;
    let mut i: usize = 0;
    while i < n
        invariant
            0 <= i <= n,
            n == s@.len(),
            all_digits(s@.take(i as int)),
            val == digits_val(s@.take(i as int)),
        decreases n - i,
    {
        let c = s[i];
        if c < 48 || c > 57 {
            proof {
                assert(!all_digits(s@)) by {
                    if all_digits(s@) {
                        assert(is_digit(s@[i as int]));
                    }
                }
            }
            return None;
        }
        let d: u64 = (c - 48) as u64;
        if val > (u64::MAX - d) / 10 {
            proof {
                assert(s@.take(i + 1).drop_last() =~= s@.take(i as int));
                assert(s@.take(i + 1).last() == s@[i as int]);
                assert(digits_val(s@.take(i + 1)) == val * 10 + d);
                assert(val * 10 + d > u64::MAX) by {
                    assert(val >= (u64::MAX - d) / 10 + 1);
                    assert(val * 10 >= ((u64::MAX - d) / 10 + 1) * 10);
                    assert(((u64::MAX - d) / 10) * 10 + 10 > u64::MAX - d) by {
                        assert((u64::MAX - d) / 10 * 10 + (u64::MAX - d) % 10 == u64::MAX - d);
                    }
                }
                if all_digits(s@) {
                    lemma_digits_val_take_mono(s@, i + 1);
                    assert(digits_val(s@) > u64::MAX);
                }
            }
            return None;
        }
        proof {
            assert(s@.take(i + 1).drop_last() =~= s@.take(i as int));
            assert(all_digits(s@.take(i + 1))) by {
                assert forall|k: int| 0 <= k < i + 1 implies is_digit(#[trigger] s@.take(i + 1)[k]) by {
                    if k < i {
                        assert(is_digit(s@.take(i as int)[k]));
                    }
                }
            }
        }
        val = val * 10 + d;
        i = i + 1;
    }
    proof {
        assert(s@.take(n as int) =~= s@);
    }
    Some(val)
}

/// Signed counterpart of `read_u64_field`; agrees with `parse_i32_field`.
pub fn read_i32_field(s: &[u8]) -> (r: Option<i32>)
    ensures
        r == parse_i32_field(s@),
{
    let n = s.len();
    if n >= 1 && s[0] == 45 {
        let rest = slice_suffix(s, 1);
        proof {
            assert(rest@ =~= s@.drop_first());
        }
        match read_u64_field(rest) {
            Some(m) => {
                if m <= 0x8000_0000 {
                    Some((-(m as i64)) as i32)
                } else {
                    None
                }
            },
            None => None,
        }
    } else {
        match read_u64_field(s) {
            Some(m) => {
                if m <= 0x7fff_ffff {
                    Some(m as i32)
                } else {
                    None
                }
            },
            None => None,
        }
    }
}

/// The tail of a byte slice from `from` on.
pub fn slice_suffix(s: &[u8], from: usize) -> (r: &[u8])
    requires
        from <= s@.len(),
    ensures
        r@ == s@.skip(from as int),
{
    slice_subrange(s, from, s.len())
}

} // verus!
