//! Between encodings and exact integers: taking a finite double apart into
//! a significand and a power of two, and rounding such a pair back.

use crate::rounding::{
    assemble, in_binade, in_half_cell, lemma_code_units_assembled, lemma_round_ratio_cell,
    round_half, round_ratio,
};
use crate::scalar::Scalar;
use crate::value::{code_units, Value, HIDDEN_BIT, INFINITY_CODE, SIGNIFICAND_LIMIT, SIGN_BIT};
use vstd::arithmetic::div_mod::lemma_fundamental_div_mod;
use vstd::arithmetic::power2::{
    lemma2_to64, lemma2_to64_rest, lemma_pow2_adds, lemma_pow2_pos,
    lemma_pow2_strictly_increases, lemma_pow2_unfold, pow2,
};
use vstd::prelude::*;

verus! {

/// The largest power of two that the rounding takes as a scale.
pub const SCALE_LIMIT: u32 = 8192;

/// Powers of two grow with the exponent.
pub proof fn lemma_pow2_increases(a: nat, b: nat)
    requires
        a <= b,
    ensures
        pow2(a) <= pow2(b),
{
    if a < b {
        lemma_pow2_strictly_increases(a, b);
    }
}

/// The powers of two at the top of 128 bits.
pub proof fn lemma_pow2_128()
    ensures
        pow2(126) == 0x4000_0000_0000_0000_0000_0000_0000_0000,
        pow2(127) == 0x8000_0000_0000_0000_0000_0000_0000_0000,
        pow2(128) == 0x1_0000_0000_0000_0000_0000_0000_0000_0000,
{
    lemma2_to64();
    lemma2_to64_rest();
    lemma_pow2_adds(63, 63);
    lemma_pow2_unfold(127);
    lemma_pow2_unfold(128);
}

/// The number of bits that `x` takes: zero for zero, and otherwise the
/// position of its leading one, counted from one.
pub fn bit_length(x: u128) -> (len: u32)
    ensures
        len <= 128,
        x == 0 ==> len == 0,
        x > 0 ==> len >= 1 && pow2((len - 1) as nat) <= x < pow2(len as nat),
{
    let mut len: u32 = 0;
    let mut rest: u128 = x;
    proof {
        lemma2_to64();
        assert(rest * pow2(0) == rest) by (nonlinear_arith)
            requires
                pow2(0) == 1,
        ;
        assert((rest + 1) * pow2(0) == rest + 1) by (nonlinear_arith)
            requires
                pow2(0) == 1,
        ;
    }
    while rest > 0
        invariant
            len <= 128,
            rest * pow2(len as nat) <= x < (rest + 1) * pow2(len as nat),
            len > 0 ==> pow2((len - 1) as nat) <= x,
            rest > 0 ==> len < 128,
        decreases rest,
    {
        proof {
            let p = pow2(len as nat) as int;
            let r = rest as int;
            let half = (rest / 2) as int;
            lemma_pow2_pos(len as nat);
            lemma_pow2_unfold((len + 1) as nat);
            assert(p <= r * p) by (nonlinear_arith)
                requires
                    r >= 1,
                    p > 0,
            ;
            assert(half * (2 * p) <= r * p) by (nonlinear_arith)
                requires
                    2 * half <= r,
                    p > 0,
            ;
            assert((r + 1) * p <= (half + 1) * (2 * p)) by (nonlinear_arith)
                requires
                    r + 1 <= 2 * (half + 1),
                    p > 0,
            ;
            if half > 0 && len + 1 >= 128 {
                lemma_pow2_128();
                lemma_pow2_increases(128, (len + 1) as nat);
                assert(2 * p <= half * (2 * p)) by (nonlinear_arith)
                    requires
                        half >= 1,
                        p > 0,
                ;
            }
        }
        rest = rest / 2;
        len = len + 1;
    }
    proof {
        assert((rest + 1) * pow2(len as nat) == pow2(len as nat)) by (nonlinear_arith)
            requires
                rest == 0,
        ;
        if len > 0 {
            lemma_pow2_pos((len - 1) as nat);
        }
    }
    len
}

/// Two to the power `k`.
pub fn power_of_two(k: u32) -> (p: u128)
    requires
        k <= 127,
    ensures
        p == pow2(k as nat),
{
    let mut p: u128 = 1;
    let mut i: u32 = 0;
    proof {
        lemma2_to64();
    }
    while i < k
        invariant
            i <= k <= 127,
            p == pow2(i as nat),
        decreases k - i,
    {
        proof {
            lemma_pow2_unfold((i + 1) as nat);
            lemma_pow2_increases(i as nat, 126);
            lemma_pow2_128();
        }
        p = p * 2;
        i = i + 1;
    }
    p
}

/// Takes an encoding apart into its sign and the sign-free code.
pub fn split(bits: u64) -> (parts: (bool, u64))
    ensures
        parts.0 == (bits >= SIGN_BIT),
        parts.1 == if bits >= SIGN_BIT {
            bits - SIGN_BIT
        } else {
            bits as int
        },
        parts.1 < SIGN_BIT,
{
    if bits >= SIGN_BIT {
        (true, bits - SIGN_BIT)
    } else {
        (false, bits)
    }
}

/// Puts a sign and a sign-free code together.
pub fn join(negative: bool, code: u64) -> (r: Scalar)
    requires
        code < SIGN_BIT,
    ensures
        r.bits == if negative {
            code + SIGN_BIT
        } else {
            code as int
        },
        code < INFINITY_CODE ==> r@ == (Value::Finite { negative, units: code_units(code as nat) }),
        code == INFINITY_CODE ==> r@ == (Value::Infinite { negative }),
        code > INFINITY_CODE ==> r@ == Value::Nan,
{
    if negative {
        Scalar { bits: code + SIGN_BIT }
    } else {
        Scalar { bits: code }
    }
}

/// The significand and the power of two of a finite code: the magnitude is
/// `sig` * 2^`shift` units.
pub fn finite_parts(code: u64) -> (parts: (u64, u32))
    requires
        code < INFINITY_CODE,
    ensures
        code_units(code as nat) == parts.0 * pow2(parts.1 as nat),
        parts.0 < SIGNIFICAND_LIMIT,
        parts.1 <= 2045,
        parts.1 > 0 ==> parts.0 >= HIDDEN_BIT,
        parts.0 == 0 <==> code == 0,
{
    let exponent: u64 = code / HIDDEN_BIT;
    let fraction: u64 = code % HIDDEN_BIT;
    if exponent == 0 {
        proof {
            lemma2_to64();
            assert(fraction * pow2(0) == fraction) by (nonlinear_arith)
                requires
                    pow2(0) == 1,
            ;
        }
        (fraction, 0)
    } else {
        (HIDDEN_BIT + fraction, (exponent - 1) as u32)
    }
}

/// The binade of a dyadic number, from the length of its significand.
proof fn lemma_dyadic_binade(sig: nat, len: nat, up: nat, down: nat, e: nat)
    requires
        len >= 1,
        pow2((len - 1) as nat) <= sig < pow2(len),
        if len + up <= 53 + down {
            e == 0
        } else {
            e == len + up - down - 53
        },
    ensures
        in_binade(sig * pow2(up), pow2(down), e),
{
    let u = pow2(up) as int;
    let w = pow2(down) as int;
    let s = sig as int;
    lemma_pow2_pos(up);
    lemma_pow2_pos(down);
    lemma2_to64_rest();
    lemma_pow2_adds(len, up);
    assert(s * u < pow2(len) * u) by (nonlinear_arith)
        requires
            s < pow2(len),
            u > 0,
    ;
    if e == 0 {
        lemma_pow2_increases(len + up, 53 + down);
        lemma_pow2_adds(53, down);
    } else {
        lemma_pow2_adds((len - 1) as nat, up);
        assert(pow2((len - 1) as nat) * u <= s * u) by (nonlinear_arith)
            requires
                pow2((len - 1) as nat) <= s,
                u > 0,
        ;
        lemma_pow2_adds(52 + e, down);
        lemma_pow2_adds(52, e);
        lemma_pow2_adds(53 + e, down);
        lemma_pow2_adds(53, e);
        assert(len - 1 + up == 52 + e + down);
        assert(len + up == 53 + e + down);
    }
}

/// The double nearest to `sig` * 2^`up` / 2^`down` units, with the given
/// sign.
pub fn round_dyadic(negative: bool, sig: u128, up: u32, down: u32) -> (r: Scalar)
    requires
        up <= SCALE_LIMIT,
        down <= SCALE_LIMIT,
    ensures
        r@ == round_ratio(negative, sig as nat * pow2(up as nat), pow2(down as nat)),
{
    let ghost n = sig as nat * pow2(up as nat);
    let ghost d = pow2(down as nat);
    proof {
        lemma_pow2_pos(up as nat);
        lemma_pow2_pos(down as nat);
        lemma2_to64();
        lemma2_to64_rest();
    }
    if sig == 0 {
        proof {
            assert(n == 0) by (nonlinear_arith)
                requires
                    n == sig as nat * pow2(up as nat),
                    sig == 0,
            ;
            assert(d * pow2(0) == d) by (nonlinear_arith)
                requires
                    pow2(0) == 1,
            ;
            assert(0 * (d * pow2(0)) == 0);
            assert(in_binade(n, d, 0)) by (nonlinear_arith)
                requires
                    n == 0,
                    d > 0,
                    in_binade(n, d, 0) == (n < SIGNIFICAND_LIMIT * d),
            ;
            lemma_round_ratio_cell(negative, n, d, 0, 0, true);
            lemma_code_units_assembled(0, 0);
            assert(0 * pow2(0) == 0);
        }
        return join(negative, 0);
    }
    let len: u32 = bit_length(sig);
    let top: u32 = len + up;
    let e: u32 = if top > 53 + down {
        top - down - 53
    } else {
        0
    };
    proof {
        lemma_dyadic_binade(sig as nat, len as nat, up as nat, down as nat, e as nat);
        lemma_pow2_pos(e as nat);
    }
    if e >= 2047 {
        proof {
            let h = (2 * n) / (d * pow2(e as nat));
            let exact = (2 * n) % (d * pow2(e as nat)) == 0;
            assert(d * pow2(e as nat) > 0) by (nonlinear_arith)
                requires
                    d > 0,
                    pow2(e as nat) > 0,
            ;
            lemma_dyadic_cell_exists(n, d * pow2(e as nat));
            lemma_round_ratio_cell(negative, n, d, e as nat, h, exact);
            assert(e * HIDDEN_BIT >= INFINITY_CODE);
        }
        return join(negative, INFINITY_CODE);
    }
    let m: u128;
    if e + down <= up {
        // nothing is rounded away
        let lift: u32 = up - down - e;
        proof {
            lemma_exact_lift(sig as nat, len as nat, up as nat, down as nat, e as nat);
        }
        m = sig * power_of_two(lift);
        proof {
            assert(round_half((2 * m) as nat, true) == m);
            lemma_round_ratio_cell(negative, n, d, e as nat, (2 * m) as nat, true);
        }
    } else {
        let drop: u32 = e + down - up;
        if drop > 128 {
            proof {
                lemma_vanishing(sig as nat, up as nat, down as nat);
                lemma_round_ratio_cell(negative, n, d, 0, 0, false);
                lemma_code_units_assembled(0, 0);
            }
            return join(negative, 0);
        }
        let half: u128 = power_of_two(drop - 1);
        proof {
            lemma_pow2_pos((drop - 1) as nat);
        }
        let h: u128 = sig / half;
        let sticky: bool = sig % half != 0;
        let q: u128 = h / 2;
        let odd: bool = h % 2 == 1;
        proof {
            lemma_rounded_off(
                sig as nat,
                len as nat,
                up as nat,
                down as nat,
                e as nat,
                h as nat,
                !sticky,
            );
            lemma_round_ratio_cell(negative, n, d, e as nat, h as nat, !sticky);
        }
        m = if odd && (sticky || q % 2 == 1) {
            q + 1
        } else {
            q
        };
        assert(m == round_half(h as nat, !sticky));
    }
    assert(round_ratio(negative, n, d) == assemble(negative, e as nat, m as nat));
    assert(m <= SIGNIFICAND_LIMIT);
    assert(e > 0 ==> m >= HIDDEN_BIT);
    let code: u64 = (e as u64) * HIDDEN_BIT + (m as u64);
    proof {
        lemma_code_units_assembled(e as nat, m as nat);
    }
    if code >= INFINITY_CODE {
        join(negative, INFINITY_CODE)
    } else {
        join(negative, code)
    }
}

/// Every ratio lies in some half cell.
proof fn lemma_dyadic_cell_exists(n: nat, big: nat)
    requires
        big > 0,
    ensures
        in_half_cell(n, big, (2 * n) / big, (2 * n) % big == 0),
{
    let h = (2 * n) / big;
    lemma_fundamental_div_mod((2 * n) as int, big as int);
    assert(big * h == h * big) by (nonlinear_arith);
    assert((h + 1) * big == h * big + big) by (nonlinear_arith);
}

/// Where the spacing is no coarser than the scale of the number, the
/// significand is the number itself, counted in spacings.
proof fn lemma_exact_lift(sig: nat, len: nat, up: nat, down: nat, e: nat)
    requires
        len >= 1,
        pow2((len - 1) as nat) <= sig < pow2(len),
        if len + up <= 53 + down {
            e == 0
        } else {
            e == len + up - down - 53
        },
        e + down <= up,
    ensures
        up - down - e <= 52,
        sig * pow2((up - down - e) as nat) < SIGNIFICAND_LIMIT,
        e > 0 ==> sig * pow2((up - down - e) as nat) >= HIDDEN_BIT,
        in_half_cell(
            sig * pow2(up),
            pow2(down) * pow2(e),
            2 * (sig * pow2((up - down - e) as nat)),
            true,
        ),
{
    let lift = (up - down - e) as nat;
    let l = pow2(lift) as int;
    let s = sig as int;
    lemma_pow2_pos(lift);
    lemma2_to64();
    lemma2_to64_rest();
    // the length leaves room for the lift
    assert(len + lift <= 53);
    lemma_pow2_adds(len, lift);
    lemma_pow2_increases(len + lift, 53);
    assert(s * l < pow2(len) * l) by (nonlinear_arith)
        requires
            s < pow2(len),
            l > 0,
    ;
    if lift > 52 {
        lemma_pow2_increases(0, (len - 1) as nat);
    }
    if e > 0 {
        assert(len + lift == 53);
        lemma_pow2_adds((len - 1) as nat, lift);
        assert(pow2((len - 1) as nat) * l <= s * l) by (nonlinear_arith)
            requires
                pow2((len - 1) as nat) <= s,
                l > 0,
        ;
    }
    lemma_pow2_adds(lift, down + e);
    lemma_pow2_adds(down, e);
    assert(2 * (s * pow2(up)) == (2 * (s * l)) * (pow2(down) * pow2(e))) by (nonlinear_arith)
        requires
            pow2(up) == l * (pow2(down) * pow2(e)),
    ;
}

/// A number below half a unit rounds to zero.
proof fn lemma_vanishing(sig: nat, up: nat, down: nat)
    requires
        0 < sig < 0x1_0000_0000_0000_0000_0000_0000_0000_0000,
        down > up + 128,
    ensures
        in_binade(sig * pow2(up), pow2(down), 0),
        in_half_cell(sig * pow2(up), pow2(down) * pow2(0), 0, false),
{
    let u = pow2(up) as int;
    let s = sig as int;
    let gap = (down - up) as nat;
    lemma_pow2_pos(up);
    lemma_pow2_128();
    lemma2_to64();
    lemma_pow2_adds(up, gap);
    lemma_pow2_increases(129, gap);
    lemma_pow2_unfold(129);
    assert(0 < 2 * (s * u) < pow2(gap) * u) by (nonlinear_arith)
        requires
            0 < s,
            2 * s < pow2(gap),
            u > 0,
    ;
    let big = pow2(down) * pow2(0);
    assert(big == pow2(gap) * u) by (nonlinear_arith)
        requires
            big == pow2(down) * pow2(0),
            pow2(down) == u * pow2(gap),
            pow2(0) == 1,
    ;
    assert(0 * big == 0 && (0 + 1) * big == big) by (nonlinear_arith);
    assert(pow2(gap) * u <= SIGNIFICAND_LIMIT * (pow2(gap) * u)) by (nonlinear_arith)
        requires
            pow2(gap) * u > 0,
    ;
    assert(pow2(down) == pow2(gap) * u) by (nonlinear_arith)
        requires
            pow2(down) == u * pow2(gap),
    ;
}

/// Where `drop` low bits of the significand lie below the spacing, the
/// half cell of the number is that of the significand.
proof fn lemma_rounded_off(sig: nat, len: nat, up: nat, down: nat, e: nat, h: nat, exact: bool)
    requires
        len >= 1,
        pow2((len - 1) as nat) <= sig < pow2(len),
        if len + up <= 53 + down {
            e == 0
        } else {
            e == len + up - down - 53
        },
        e + down > up,
        h == sig / pow2((e + down - up - 1) as nat),
        exact == (sig % pow2((e + down - up - 1) as nat) == 0),
    ensures
        h < 2 * SIGNIFICAND_LIMIT,
        e > 0 ==> h >= 2 * HIDDEN_BIT,
        in_half_cell(sig * pow2(up), pow2(down) * pow2(e), h, exact),
{
    let r = (e + down - up - 1) as nat;
    let half = pow2(r) as int;
    let u = pow2(up) as int;
    let s = sig as int;
    let hh = h as int;
    lemma_pow2_pos(r);
    lemma_pow2_pos(up);
    lemma2_to64();
    lemma2_to64_rest();
    lemma_fundamental_div_mod(s, half);
    assert(half * hh == hh * half) by (nonlinear_arith);
    // the spacing, in the scale of the significand, is two halves
    lemma_pow2_adds(down, e);
    lemma_pow2_adds(up, r + 1);
    lemma_pow2_unfold(r + 1);
    let big = pow2(down) * pow2(e);
    assert(big == 2 * (half * u)) by (nonlinear_arith)
        requires
            big == u * (2 * half),
    ;
    assert(hh * big == 2 * ((hh * half) * u)) by (nonlinear_arith)
        requires
            big == 2 * (half * u),
    ;
    assert((hh + 1) * big == 2 * ((hh * half + half) * u)) by (nonlinear_arith)
        requires
            big == 2 * (half * u),
    ;
    if exact {
        assert(s == hh * half);
    } else {
        assert(hh * half < s < hh * half + half);
        assert((hh * half) * u < s * u) by (nonlinear_arith)
            requires
                hh * half < s,
                u > 0,
        ;
        assert(s * u < (hh * half + half) * u) by (nonlinear_arith)
            requires
                s < hh * half + half,
                u > 0,
        ;
    }
    // the length bounds the count of halves
    lemma_pow2_increases(len, 54 + r);
    lemma_pow2_adds(54, r);
    assert(hh < 0x40_0000_0000_0000) by (nonlinear_arith)
        requires
            hh * half <= s,
            s < 0x40_0000_0000_0000 * half,
            half > 0,
    ;
    if e > 0 {
        assert(len - 1 == 53 + r);
        lemma_pow2_adds(53, r);
        assert(hh >= 0x20_0000_0000_0000) by (nonlinear_arith)
            requires
                s < hh * half + half,
                0x20_0000_0000_0000 * half <= s,
                half > 0,
        ;
    }
}

} // verus!
