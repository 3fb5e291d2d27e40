//! Strict fixed-width decimal decoding and encoding.
//!
//! Every numeric field of the format — the leader's lengths and offsets and
//! the directory's length and position columns — is a run of ASCII decimal
//! digits.  One strict decoder serves them all: every byte must be a digit,
//! and an empty run is rejected, so nothing falls back to zero silently.

use vstd::arithmetic::div_mod::lemma_fundamental_div_mod;
use vstd::prelude::*;

verus! {

/// The byte is an ASCII decimal digit, `'0'` through `'9'`.
pub open spec fn is_dec_digit(b: u8) -> bool {
    48 <= b && b <= 57
}

/// A non-empty run of ASCII decimal digits.
pub open spec fn dec_digits(s: Seq<u8>) -> bool {
    s.len() > 0 && forall|i: int| 0 <= i < s.len() ==> is_dec_digit(#[trigger] s[i])
}

/// Numeric value of a digit run, most significant digit first.
pub open spec fn dec_value(s: Seq<u8>) -> int
    decreases s.len(),
{
    if s.len() == 0 {
        0
    } else {
        dec_value(s.drop_last()) * 10 + (s.last() - 48)
    }
}

/// Ten to the `n`th power.
pub open spec fn pow10(n: nat) -> int
    decreases n,
{
    if n == 0 {
        1
    } else {
        10 * pow10((n - 1) as nat)
    }
}

/// The `width`-digit zero-padded decimal encoding of `v`.
pub open spec fn dec_seq(v: int, width: nat) -> Seq<u8>
    decreases width,
{
    if width == 0 {
        Seq::empty()
    } else {
        dec_seq(v / 10, (width - 1) as nat).push((48 + v % 10) as u8)
    }
}

pub proof fn lemma_pow10_pos(n: nat)
    ensures
        pow10(n) >= 1,
    decreases n,
{
    if n > 0 {
        lemma_pow10_pos((n - 1) as nat);
    }
}

pub proof fn lemma_pow10_mono(a: nat, b: nat)
    requires
        a <= b,
    ensures
        pow10(a) <= pow10(b),
    decreases b,
{
    if a < b {
        lemma_pow10_mono(a, (b - 1) as nat);
        lemma_pow10_pos((b - 1) as nat);
    }
}

/// A digit run's value is non-negative and below ten to its length.
pub proof fn lemma_dec_value_bound(s: Seq<u8>)
    requires
        forall|i: int| 0 <= i < s.len() ==> is_dec_digit(#[trigger] s[i]),
    ensures
        0 <= dec_value(s) < pow10(s.len()),
    decreases s.len(),
{
    if s.len() > 0 {
        lemma_dec_value_bound(s.drop_last());
    }
}

/// Extending a digit run on the right never lowers its value.
pub proof fn lemma_dec_value_prefix(s: Seq<u8>, n: int)
    requires
        forall|i: int| 0 <= i < s.len() ==> is_dec_digit(#[trigger] s[i]),
        0 <= n <= s.len(),
    ensures
        dec_value(s.subrange(0, n)) <= dec_value(s),
    decreases s.len() - n,
{
    if n == s.len() {
        assert(s.subrange(0, n) =~= s);
    } else {
        lemma_dec_value_prefix(s, n + 1);
        let longer = s.subrange(0, n + 1);
        assert(longer.drop_last() =~= s.subrange(0, n));
        lemma_dec_value_bound(s.subrange(0, n));
    }
}

/// The encoding of `v` at `width` digits is `width` bytes long.
pub proof fn lemma_dec_seq_len(v: int, width: nat)
    ensures
        dec_seq(v, width).len() == width,
    decreases width,
{
    if width > 0 {
        lemma_dec_seq_len(v / 10, (width - 1) as nat);
    }
}

/// The `width`-digit encoding of `v < pow10(width)` is a run of digits whose
/// value is `v` again.
pub proof fn lemma_dec_seq_value(v: int, width: nat)
    requires
        0 <= v < pow10(width),
    ensures
        dec_seq(v, width).len() == width,
        forall|i: int| 0 <= i < width ==> is_dec_digit(#[trigger] dec_seq(v, width)[i]),
        dec_value(dec_seq(v, width)) == v,
    decreases width,
{
    if width > 0 {
        lemma_fundamental_div_mod(v, 10);
        assert(10 * (v / 10) + v % 10 < 10 * pow10((width - 1) as nat));
        lemma_dec_seq_value(v / 10, (width - 1) as nat);
        let s = dec_seq(v, width);
        assert(s.drop_last() =~= dec_seq(v / 10, (width - 1) as nat));
        assert(s.last() == (48 + v % 10) as u8);
    }
}

/// Decodes a run of ASCII digits as an unsigned decimal.  Returns `None` when
/// the run is empty, holds a non-digit byte, or its value does not fit.
pub fn parse_decimal(bytes: &[u8]) -> (r: Option<usize>)
    ensures
        r is Some <==> dec_digits(bytes@) && dec_value(bytes@) <= usize::MAX,
        r matches Some(v) ==> v == dec_value(bytes@),
{
    let n = bytes.len();
    if n == 0 {
        return None;
    }
    let mut acc: usize = 0;
    let mut i: usize = 0;
    while i < n
        invariant
            n == bytes@.len(),
            0 <= i <= n,
            forall|j: int| 0 <= j < i ==> is_dec_digit(#[trigger] bytes@[j]),
            acc == dec_value(bytes@.subrange(0, i as int)),
        decreases n - i,
    {
        let b = bytes[i];
        if b < 48 || b > 57 {
            return None;
        }
        let d = (b - 48) as usize;
        proof {
            assert(bytes@.subrange(0, i + 1).drop_last() =~= bytes@.subrange(0, i as int));
            assert(bytes@.subrange(0, i + 1).last() == bytes@[i as int]);
        }
        let shifted = match acc.checked_mul(10) {
            Some(s) => s,
            None => {
                proof {
                    if dec_digits(bytes@) {
                        lemma_dec_value_prefix(bytes@, i + 1);
                    }
                }
                return None;
            },
        };
        let next = match shifted.checked_add(d) {
            Some(s) => s,
            None => {
                proof {
                    if dec_digits(bytes@) {
                        lemma_dec_value_prefix(bytes@, i + 1);
                    }
                }
                return None;
            },
        };
        acc = next;
        i = i + 1;
    }
    proof {
        assert(bytes@.subrange(0, n as int) =~= bytes@);
    }
    Some(acc)
}

/// Encodes `v` as exactly `width` ASCII digits, zero-padded on the left.
pub fn encode_decimal(v: usize, width: usize) -> (r: Vec<u8>)
    requires
        v < pow10(width as nat),
    ensures
        r@ == dec_seq(v as int, width as nat),
        r@.len() == width,
    decreases width,
{
    if width == 0 {
        Vec::new()
    } else {
        proof {
            lemma_fundamental_div_mod(v as int, 10);
        }
        let mut r = encode_decimal(v / 10, width - 1);
        r.push(48 + (v % 10) as u8);
        r
    }
}

} // verus!
