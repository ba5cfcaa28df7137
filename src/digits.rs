//! Decimal and hexadecimal rendering of integers as ASCII bytes.
use vstd::prelude::*;

verus! {

/// The ASCII byte of digit `d`: `0`-`9`, then uppercase `A`-`Z`.
pub open spec fn digit_byte(d: nat) -> u8 {
    if d < 10 {
        (48 + d) as u8
    } else {
        (55 + d) as u8
    }
}

/// The digits of `n` in base `base`, most significant first, with no
/// leading zeros (zero itself is the single digit `0`).
pub open spec fn digits(n: nat, base: nat) -> Seq<u8>
    decreases n
    via digits_decreases
{
    if base < 2 || n < base {
        seq![digit_byte(n)]
    } else {
        digits(n / base, base).push(digit_byte(n % base))
    }
}

#[via_fn]
proof fn digits_decreases(n: nat, base: nat) {
    if !(base < 2 || n < base) {
        assert(n / base < n) by (nonlinear_arith)
            requires
                base >= 2,
                n >= base,
        ;
    }
}

/// Decimal rendering, as in a status line or a `content-length` value.
pub open spec fn dec_of(n: nat) -> Seq<u8> {
    digits(n, 10)
}

/// Uppercase hexadecimal rendering, as in a chunk-size line.
pub open spec fn hex_of(n: nat) -> Seq<u8> {
    digits(n, 16)
}

/// Appends the digits of `n` in base `base` to `out`.
pub fn push_digits(out: &mut Vec<u8>, n: usize, base: usize)
    requires
        2 <= base <= 16,
    ensures
        final(out)@ == old(out)@ + digits(n as nat, base as nat),
    decreases n,
{
    if n >= base {
        assert(n / base < n) by (nonlinear_arith)
            requires
                base >= 2,
                n >= base,
        ;
        push_digits(out, n / base, base);
    }
    let d = n % base;
    let b: u8 = if d < 10 { 48 + d as u8 } else { 55 + d as u8 };
    out.push(b);
    assert(b == digit_byte((n % base) as nat));
    proof {
        let ghost s = digits(n as nat, base as nat);
        if n < base {
            vstd::arithmetic::div_mod::lemma_small_mod(n as nat, base as nat);
            assert(old(out)@ + s =~= old(out)@.push(b));
        } else {
            assert(old(out)@ + s =~= (old(out)@ + digits((n / base) as nat, base as nat)).push(b));
        }
    }
}

/// Appends the decimal rendering of `n` to `out`.
pub fn push_dec(out: &mut Vec<u8>, n: usize)
    ensures
        final(out)@ == old(out)@ + dec_of(n as nat),
{
    push_digits(out, n, 10);
}

/// Appends the uppercase hexadecimal rendering of `n` to `out`.
pub fn push_hex(out: &mut Vec<u8>, n: usize)
    ensures
        final(out)@ == old(out)@ + hex_of(n as nat),
{
    push_digits(out, n, 16);
}

} // verus!
