//! Integer helpers of the BC6H encoder: the endpoint pipeline the decoder
//! applies (unquantize, then the 31/64 or 31/32 finalise), its inverses
//! by estimate-and-probe, and the wrapped deltas of the delta modes.
//!
//! The probing searches all follow one rule: from a continuous estimate
//! `q`, try the candidates `q`, `q - 2`, `q - 1`, `q`, `q + 1`, `q + 2`,
//! each clamped to the valid range, and keep the first one whose forward
//! image lies closest to the target.
use vstd::prelude::*;
use vstd::arithmetic::power2::{pow2, lemma2_to64, lemma_pow2_strictly_increases};
use crate::bc6h::{pow2_u32, unquantize_value};

verus! {

/// `x` held to `lo..=hi`.
pub open spec fn clamp_int(x: int, lo: int, hi: int) -> int {
    if x < lo {
        lo
    } else if x > hi {
        hi
    } else {
        x
    }
}

/// Absolute value.
pub open spec fn abs_int(x: int) -> int {
    if x < 0 {
        -x
    } else {
        x
    }
}

/// Probe candidate `i` (0..6) around the estimate `q`: the estimate
/// itself, then `q - 2 ..= q + 2`, each clamped to `lo..=hi`.
pub open spec fn probe(q: int, lo: int, hi: int, i: int) -> int {
    if i == 0 {
        clamp_int(q, lo, hi)
    } else {
        clamp_int(q + i - 3, lo, hi)
    }
}

/// `r` is the first probe candidate with the least error.
pub open spec fn first_best(r: int, q: int, lo: int, hi: int, err: spec_fn(int) -> int) -> bool {
    exists|i: int|
        0 <= i < 6 && r == probe(q, lo, hi, i) && (forall|j: int|
            0 <= j < 6 ==> err(r) <= err(#[trigger] probe(q, lo, hi, j))) && (forall|j: int|
            0 <= j < i ==> err(#[trigger] probe(q, lo, hi, j)) > err(r))
}

/// Largest unsigned endpoint of `bits` bits.
pub open spec fn max_uq(bits: u32) -> int {
    pow2(bits as nat) - 1
}

// ---- BC6H_UF16 ----------------------------------------------------------

/// The decoder's unsigned endpoint unquantization, `((q << 16) + 0x8000) >> bits`
/// with `0 → 0` and the largest value to `0xffff`; identity from 15 bits up.
pub fn unquantize_uf16(comp: u32, bits: u32) -> (r: i32)
    requires
        bits <= 16,
        comp < pow2(bits as nat),
    ensures
        r == unquantize_value(comp as int, bits as int, false),
        0 <= r <= 0xffff,
{
    proof {
        lemma2_to64();
        if bits < 16 {
            lemma_pow2_strictly_increases(bits as nat, 16);
        }
    }
    if bits >= 15 {
        return comp as i32;
    }
    let p = pow2_u32(bits);
    let max_q = p - 1;
    if comp == 0 {
        0
    } else if comp == max_q {
        0xffff
    } else {
        proof {
            lemma_pow2_strictly_increases(bits as nat, 15);
        }
        assert((comp * 65536 + 32768) / (p as int) <= 0xffff) by (nonlinear_arith)
            requires
                comp < p,
                p >= 1,
                p <= 0x4000,
        ;
        ((comp * 65536 + 32768) / p) as i32
    }
}

/// The `BC6H_UF16` finalise: `(comp * 31) >> 6`, 0 for a non-positive
/// `comp`, saturating at `0xffff`.
pub open spec fn finish_uf16_spec(comp: int) -> int {
    if comp <= 0 {
        0
    } else if comp * 31 / 64 > 0xffff {
        0xffff
    } else {
        comp * 31 / 64
    }
}

/// [`finish_uf16_spec`].
pub fn finish_uf16(comp: i32) -> (r: u16)
    requires
        comp * 31 <= u32::MAX,
    ensures
        r == finish_uf16_spec(comp as int),
{
    if comp <= 0 {
        return 0;
    }
    let v = (comp as u32 * 31) / 64;
    if v > 0xffff {
        0xffff
    } else {
        v as u16
    }
}

/// The unquantized value whose finalise lands nearest `h`: `(h * 64 + 31) / 31`,
/// 0 for 0, at most `0xffff`.
pub open spec fn target_unq_uf16_spec(h: u16) -> int {
    if h == 0 {
        0
    } else if (h * 64 + 31) / 31 > 0xffff {
        0xffff
    } else {
        (h * 64 + 31) / 31
    }
}

/// [`target_unq_uf16_spec`].
pub fn target_unq_uf16(half_bits: u16) -> (r: i32)
    ensures
        r == target_unq_uf16_spec(half_bits),
{
    if half_bits == 0 {
        return 0;
    }
    let v = ((half_bits as u32) * 64 + 31) / 31;
    if v > 0xffff {
        0xffff
    } else {
        v as i32
    }
}

/// The unquantized image of candidate `q` in the `UF16` quantizer search.
pub open spec fn uf16_probe_unq(q: int, bits: u32) -> int {
    if q == 0 {
        0
    } else if q == max_uq(bits) {
        0xffff
    } else if bits >= 15 {
        q
    } else {
        (q * 65536 + 32768) / (pow2(bits as nat) as int)
    }
}

/// The half value the decoder makes of candidate `q`.
pub open spec fn uf16_forward(q: int, bits: u32) -> int {
    uf16_probe_unq(q, bits) * 31 / 64
}

/// The continuous estimate of the endpoint for the half value `t`.
pub open spec fn uf16_estimate(t: int, bits: u32) -> int {
    let u = t * 64 / 31;
    let l = u * pow2(bits as nat) - 0x8000;
    if l < 0 {
        0
    } else {
        l / 65536
    }
}

fn uf16_forward_exec(q: u32, bits: u32, max_q: u32) -> (r: u32)
    requires
        bits <= 16,
        max_q == max_uq(bits),
        q <= max_q,
    ensures
        r == uf16_forward(q as int, bits),
        r <= 0x7c00,
{
    proof {
        lemma2_to64();
        if bits < 16 {
            lemma_pow2_strictly_increases(bits as nat, 16);
        }
        if bits < 15 {
            lemma_pow2_strictly_increases(bits as nat, 15);
        }
    }
    let unq: u32 = if q == 0 {
        0
    } else if q == max_q {
        0xffff
    } else if bits >= 15 {
        q
    } else {
        let p = max_q + 1;
        assert((q * 65536 + 32768) / (p as int) <= 0xffff) by (nonlinear_arith)
            requires
                q < p,
                p >= 1,
                p <= 0x4000,
        ;
        (q * 65536 + 32768) / p
    };
    (unq * 31) / 64
}

/// Quantize the half value `half_bits` to a `bits`-bit `UF16` endpoint:
/// 0 for 0, the largest endpoint for values at or past its image, else the
/// first probe candidate around [`uf16_estimate`] whose decoded half value
/// is nearest.
pub fn quantize_half_uf16(half_bits: u16, bits: u32) -> (r: u32)
    requires
        bits <= 16,
    ensures
        r <= max_uq(bits),
        half_bits == 0 ==> r == 0,
        half_bits != 0 && half_bits >= uf16_forward(max_uq(bits), bits) ==> r == max_uq(bits),
        half_bits != 0 && half_bits < uf16_forward(max_uq(bits), bits) ==> first_best(
            r as int,
            uf16_estimate(half_bits as int, bits),
            0,
            max_uq(bits),
            |q: int| abs_int(uf16_forward(q, bits) - half_bits),
        ),
{
    proof {
        lemma2_to64();
        if bits < 16 {
            lemma_pow2_strictly_increases(bits as nat, 16);
        }
    }
    let max_q = pow2_u32(bits) - 1;
    let target = half_bits as u32;
    if target == 0 {
        return 0;
    }
    if target >= uf16_forward_exec(max_q, bits, max_q) {
        return max_q;
    }
    let ghost err = |q: int| abs_int(uf16_forward(q, bits) - half_bits);
    let unq_est: u64 = ((target as u64) * 64) / 31;
    let p = (max_q as u64) + 1;
    assert(unq_est * p <= 0x1_0000_0000_0000) by (nonlinear_arith)
        requires
            unq_est <= 0x2_1100,
            p <= 0x1_0000,
    ;
    let full = unq_est * p;
    let lhs: u64 = if full >= 0x8000 {
        full - 0x8000
    } else {
        0
    };
    let q_est = lhs / 65536;
    assert(q_est <= 0x1_0000_0000);
    let ghost qe = q_est as int;
    assert(qe == uf16_estimate(half_bits as int, bits));
    let q0: u64 = if q_est > max_q as u64 {
        max_q as u64
    } else {
        q_est
    };
    let mut best: u32 = q0 as u32;
    let f0 = uf16_forward_exec(best, bits, max_q);
    let mut best_err: u32 = if f0 >= target {
        f0 - target
    } else {
        target - f0
    };
    let ghost mut ib: int = 0;
    assert(best == probe(qe, 0, max_q as int, 0));
    let mut k: u64 = 1;
    while k < 6
        invariant
            bits <= 16,
            max_q == max_uq(bits),
            max_q <= 0xffff,
            1 <= k <= 6,
            0 <= ib < k,
            q_est == qe,
            target == half_bits,
            qe <= 0x1_0000_0000,
            best <= max_q,
            best == probe(qe, 0, max_q as int, ib),
            best_err == err(best as int),
            err == (|q: int| abs_int(uf16_forward(q, bits) - half_bits)),
            forall|j: int| 0 <= j < k ==> err(best as int) <= err(#[trigger] probe(qe, 0, max_q as int, j)),
            forall|j: int| 0 <= j < ib ==> err(#[trigger] probe(qe, 0, max_q as int, j)) > err(best as int),
        decreases 6 - k,
    {
        let raw = q_est + k;
        let cand: u32 = if raw < 3 {
            0
        } else if raw - 3 > max_q as u64 {
            max_q
        } else {
            (raw - 3) as u32
        };
        assert(cand == probe(qe, 0, max_q as int, k as int));
        let f = uf16_forward_exec(cand, bits, max_q);
        let e: u32 = if f >= target {
            f - target
        } else {
            target - f
        };
        assert(e == err(cand as int));
        if e < best_err {
            best_err = e;
            best = cand;
            proof {
                ib = k as int;
            }
        }
        k += 1;
    }
    best
}

/// The `UF16` unquantized image of candidate `q` in the inverse search.
pub open spec fn uf16_unq_forward(q: int, bits: u32) -> int {
    if q == 0 {
        0
    } else if q == max_uq(bits) {
        0xffff
    } else {
        (q * 65536 + 32768) / (pow2(bits as nat) as int)
    }
}

/// The continuous endpoint estimate for the unquantized value `u`, at most
/// the largest endpoint.
pub open spec fn unq_estimate(u: int, bits: u32) -> int {
    let l = u * pow2(bits as nat) - 0x8000;
    let e = if l < 0 {
        0
    } else {
        l / 65536
    };
    if e > max_uq(bits) {
        max_uq(bits)
    } else {
        e
    }
}

fn uf16_unq_forward_exec(q: u32, bits: u32, max_q: u32) -> (r: u32)
    requires
        bits < 15,
        max_q == max_uq(bits),
        q <= max_q,
    ensures
        r == uf16_unq_forward(q as int, bits),
        r <= 0xffff,
{
    proof {
        lemma2_to64();
        lemma_pow2_strictly_increases(bits as nat, 15);
    }
    if q == 0 {
        0
    } else if q == max_q {
        0xffff
    } else {
        let p = max_q + 1;
        assert((q * 65536 + 32768) / (p as int) <= 0xffff) by (nonlinear_arith)
            requires
                q < p,
                p >= 1,
                p <= 0x4000,
        ;
        (q * 65536 + 32768) / p
    }
}

/// Map an unquantized target back to a `bits`-bit `UF16` endpoint: the
/// target is first held to `0..=0xffff`; 0 gives 0, `0xffff` the largest
/// endpoint, 15 bits and more the target itself (at most the largest
/// endpoint), else the first probe candidate around [`unq_estimate`] whose
/// unquantized image is nearest.
pub fn unq_to_q_uf16(unq: i32, bits: u32) -> (r: u32)
    requires
        bits <= 16,
    ensures
        r <= max_uq(bits),
        ({
            let u = clamp_int(unq as int, 0, 0xffff);
            &&& u == 0 ==> r == 0
            &&& u == 0xffff ==> r == max_uq(bits)
            &&& 0 < u < 0xffff && bits >= 15 ==> r == (if u > max_uq(bits) { max_uq(bits) } else { u })
            &&& 0 < u < 0xffff && bits < 15 ==> first_best(
                r as int,
                unq_estimate(u, bits),
                0,
                max_uq(bits),
                |q: int| abs_int(uf16_unq_forward(q, bits) - u),
            )
        }),
{
    proof {
        lemma2_to64();
        if bits < 16 {
            lemma_pow2_strictly_increases(bits as nat, 16);
        }
    }
    let max_q = pow2_u32(bits) - 1;
    let u: u32 = if unq < 0 {
        0
    } else if unq > 0xffff {
        0xffff
    } else {
        unq as u32
    };
    let ghost ui = u as int;
    assert(ui == clamp_int(unq as int, 0, 0xffff));
    if u == 0 {
        return 0;
    }
    if u >= 0xffff {
        return max_q;
    }
    if bits >= 15 {
        return if u > max_q {
            max_q
        } else {
            u
        };
    }
    let ghost err = |q: int| abs_int(uf16_unq_forward(q, bits) - ui);
    let p = (max_q as u64) + 1;
    assert((u as u64) * p <= 0x1_0000_0000) by (nonlinear_arith)
        requires
            u <= 0xffff,
            p <= 0x1_0000,
    ;
    let full = (u as u64) * p;
    let lhs: u64 = if full >= 0x8000 {
        full - 0x8000
    } else {
        0
    };
    let raw_est = lhs / 65536;
    let q_est: u32 = if raw_est > max_q as u64 {
        max_q
    } else {
        raw_est as u32
    };
    let ghost qe = q_est as int;
    assert(qe == unq_estimate(ui, bits));
    let mut best: u32 = q_est;
    let f0 = uf16_unq_forward_exec(best, bits, max_q);
    let mut best_err: u32 = if f0 >= u {
        f0 - u
    } else {
        u - f0
    };
    let ghost mut ib: int = 0;
    assert(best == probe(qe, 0, max_q as int, 0));
    let mut k: u32 = 1;
    while k < 6
        invariant
            bits < 15,
            max_q == max_uq(bits),
            max_q <= 0x3fff,
            1 <= k <= 6,
            0 <= ib < k,
            q_est == qe,
            ui == u,
            0 < u < 0xffff,
            q_est <= max_q,
            best <= max_q,
            best == probe(qe, 0, max_q as int, ib),
            best_err == err(best as int),
            err == (|q: int| abs_int(uf16_unq_forward(q, bits) - ui)),
            forall|j: int| 0 <= j < k ==> err(best as int) <= err(#[trigger] probe(qe, 0, max_q as int, j)),
            forall|j: int| 0 <= j < ib ==> err(#[trigger] probe(qe, 0, max_q as int, j)) > err(best as int),
        decreases 6 - k,
    {
        let raw = q_est + k;
        let cand: u32 = if raw < 3 {
            0
        } else if raw - 3 > max_q {
            max_q
        } else {
            raw - 3
        };
        assert(cand == probe(qe, 0, max_q as int, k as int));
        let f = uf16_unq_forward_exec(cand, bits, max_q);
        let e: u32 = if f >= u {
            f - u
        } else {
            u - f
        };
        assert(e == err(cand as int));
        if e < best_err {
            best_err = e;
            best = cand;
            proof {
                ib = k as int;
            }
        }
        k += 1;
    }
    best
}

// ---- Delta modes --------------------------------------------------------

/// The wrapped delta from `q0` to `q1` in `delta_bits` bits, when the
/// signed delta fits: `Some((q1 - q0) mod 2^min(prec, delta_bits))`, else `None`.
pub open spec fn encode_delta_spec(q0: u32, q1: u32, prec: u32, delta_bits: u32) -> Option<u32> {
    let d = q1 - q0;
    let half = pow2((delta_bits - 1) as nat) as int;
    if d < -half || d >= half {
        None
    } else {
        let k = if prec < delta_bits {
            prec
        } else {
            delta_bits
        };
        Some((d % (pow2(k as nat) as int)) as u32)
    }
}

/// Convert the absolute endpoint `q1_abs` into the delta from `q0` that a
/// `delta_bits`-bit field holds: `None` when the signed difference does
/// not fit, else the difference wrapped to the endpoint precision and
/// truncated to `delta_bits` bits.
pub fn encode_delta(q0: u32, q1_abs: u32, prec: u32, delta_bits: u32) -> (r: Option<u32>)
    requires
        1 <= delta_bits <= 31,
    ensures
        r == encode_delta_spec(q0, q1_abs, prec, delta_bits),
{
    proof {
        lemma2_to64();
        lemma_pow2_strictly_increases((delta_bits - 1) as nat, delta_bits as nat);
        if delta_bits < 31 {
            lemma_pow2_strictly_increases(delta_bits as nat, 31);
        }
    }
    let half = pow2_u64(delta_bits - 1) as i64;
    let d: i64 = (q1_abs as i64) - (q0 as i64);
    if d < -half || d >= half {
        return None;
    }
    let span = 2 * half;
    assert(span == pow2(delta_bits as nat)) by {
        vstd::arithmetic::power2::lemma_pow2_unfold(delta_bits as nat);
    }
    // The difference modulo 2^delta_bits.
    let w: u64 = if d >= 0 {
        d as u64
    } else {
        (span + d) as u64
    };
    assert(w as int == (d as int) % (span as int)) by {
        if d >= 0 {
            vstd::arithmetic::div_mod::lemma_small_mod(d as nat, span as nat);
        } else {
            vstd::arithmetic::div_mod::lemma_fundamental_div_mod_converse(d as int, span as int, -1, d + span);
        }
    }
    if prec < delta_bits {
        let m = pow2_u64(prec);
        proof {
            lemma_mod_of_pow2_mod(d as int, prec as nat, delta_bits as nat);
        }
        Some((w % m) as u32)
    } else {
        Some(w as u32)
    }
}

/// `2^n` as a `u64`.
pub(crate) fn pow2_u64(n: u32) -> (p: u64)
    requires
        n <= 31,
    ensures
        p == pow2(n as nat),
        1 <= p <= 0x8000_0000,
{
    proof {
        lemma2_to64();
        if n < 31 {
            lemma_pow2_strictly_increases(n as nat, 31);
        }
    }
    let mut p: u64 = 1;
    let mut i: u32 = 0;
    while i < n
        invariant
            i <= n,
            n <= 31,
            p == pow2(i as nat),
            p <= 0x8000_0000,
        decreases n - i,
    {
        proof {
            lemma2_to64();
            vstd::arithmetic::power2::lemma_pow2_unfold((i + 1) as nat);
            if i + 1 < 31 {
                lemma_pow2_strictly_increases((i + 1) as nat, 31);
            }
        }
        p = p * 2;
        i += 1;
    }
    p
}

/// Reducing modulo `2^b` and then modulo `2^a` (`a < b`) is reducing modulo `2^a`.
proof fn lemma_mod_of_pow2_mod(d: int, a: nat, b: nat)
    requires
        a < b,
    ensures
        (d % (pow2(b) as int)) % (pow2(a) as int) == d % (pow2(a) as int),
{
    vstd::arithmetic::power2::lemma_pow2_adds(a, (b - a) as nat);
    vstd::arithmetic::power2::lemma_pow2_pos(a);
    vstd::arithmetic::power2::lemma_pow2_pos((b - a) as nat);
    vstd::arithmetic::div_mod::lemma_mod_mod(d, pow2(a) as int, pow2((b - a) as nat) as int);
}

// ---- BC6H_SF16 ----------------------------------------------------------

/// The decoder's signed endpoint unquantization.
pub fn unquantize_sf16(comp: i32, bits: u32) -> (r: i32)
    requires
        bits >= 1,
        bits < 16 ==> comp > i32::MIN,
    ensures
        r == unquantize_value(comp as int, bits as int, true),
        bits < 16 ==> -0x7fff <= r <= 0x7fff,
{
    if bits >= 16 {
        return comp;
    }
    proof {
        lemma2_to64();
        lemma_pow2_strictly_increases((bits - 1) as nat, 15);
    }
    let s = comp < 0;
    let c: i32 = if s {
        -comp
    } else {
        comp
    };
    let h = pow2_u32(bits - 1) as i32;
    let unq: i32 = if c == 0 {
        0
    } else if c >= h - 1 {
        0x7fff
    } else {
        assert((c * 32768 + 16384) / (h as int) <= 0x7fff) by (nonlinear_arith)
            requires
                0 < c < h,
                h <= 0x4000,
        ;
        (c * 32768 + 16384) / h
    };
    if s {
        -unq
    } else {
        unq
    }
}

/// The `BC6H_SF16` finalise: the magnitude scaled by 31/32 (at most
/// `0x7fff`) with the sign moved to bit 15.
pub open spec fn finish_sf16_spec(comp: int) -> int {
    let m = abs_int(comp) * 31 / 32;
    let m = if m > 0x7fff {
        0x7fff
    } else {
        m
    };
    if comp < 0 {
        0x8000 + m
    } else {
        m
    }
}

/// [`finish_sf16_spec`].
pub fn finish_sf16(comp: i32) -> (r: u16)
    requires
        comp > i32::MIN,
        abs_int(comp as int) * 31 <= u32::MAX,
    ensures
        r == finish_sf16_spec(comp as int),
{
    let mag: u32 = if comp < 0 {
        (-comp) as u32
    } else {
        comp as u32
    };
    let c = (mag * 31) / 32;
    let m: u16 = if c > 0x7fff {
        0x7fff
    } else {
        c as u16
    };
    if comp < 0 {
        0x8000 + m
    } else {
        m
    }
}

/// A sign-magnitude half as an integer: bit 15 the sign, the low 15 bits
/// the magnitude.
pub open spec fn half_sm_spec(h: u16) -> int {
    if h >= 0x8000 {
        -(h - 0x8000)
    } else {
        h as int
    }
}

/// [`half_sm_spec`].
pub fn half_sf16_to_signed_magnitude(half_bits: u16) -> (r: i32)
    ensures
        r == half_sm_spec(half_bits),
{
    if half_bits >= 0x8000 {
        -((half_bits - 0x8000) as i32)
    } else {
        half_bits as i32
    }
}

/// A signed magnitude back as a sign-magnitude half, the magnitude held
/// to `0x7fff`.
pub open spec fn signed_magnitude_to_half_spec(v: int) -> int {
    let m = if abs_int(v) > 0x7fff {
        0x7fff
    } else {
        abs_int(v)
    };
    if v < 0 {
        0x8000 + m
    } else {
        m
    }
}

/// [`signed_magnitude_to_half_spec`].
pub fn signed_magnitude_to_half(value: i32) -> (r: u16)
    requires
        value > i32::MIN,
    ensures
        r == signed_magnitude_to_half_spec(value as int),
{
    if value < 0 {
        let mag: u16 = if -value > 0x7fff {
            0x7fff
        } else {
            (-value) as u16
        };
        0x8000 + mag
    } else if value > 0x7fff {
        0x7fff
    } else {
        value as u16
    }
}

/// The signed half value the decoder makes of candidate `q`.
pub open spec fn sf16_forward(q: int, bits: u32) -> int {
    half_sm_spec(finish_sf16_spec(unquantize_value(q, bits as int, true)) as u16)
}

/// Largest magnitude of a `bits`-bit signed endpoint.
pub open spec fn max_sq(bits: u32) -> int {
    pow2((bits - 1) as nat) - 1
}

/// The continuous estimate of the signed endpoint for the signed half `t`.
pub open spec fn sf16_estimate(t: int, bits: u32) -> int {
    let u = abs_int(t) * 32 / 31;
    let l = u * pow2((bits - 1) as nat) - 0x4000;
    let m = if l < 0 {
        0
    } else {
        l / 32768
    };
    let m = if m > max_sq(bits) {
        max_sq(bits)
    } else {
        m
    };
    if t < 0 {
        -m
    } else {
        m
    }
}

fn sf16_forward_exec(q: i32, bits: u32) -> (r: i32)
    requires
        1 <= bits <= 16,
        -max_sq(bits) <= q <= max_sq(bits),
    ensures
        r == sf16_forward(q as int, bits),
        -0x7fff <= r <= 0x7fff,
{
    proof {
        lemma2_to64();
        lemma_pow2_strictly_increases((bits - 1) as nat, 16);
    }
    let unq = unquantize_sf16(q, bits);
    assert(-0x8000 < unq < 0x8000);
    let h = finish_sf16(unq);
    half_sf16_to_signed_magnitude(h)
}

/// Quantize the signed half magnitude `half_signed` to a `bits`-bit
/// signed endpoint: 0 for 0, else the first probe candidate around
/// [`sf16_estimate`], held to `-max..=max`, whose decoded signed half is
/// nearest.
pub fn quantize_half_sf16(half_signed: i32, bits: u32) -> (r: i32)
    requires
        1 <= bits <= 16,
        -0x7fff <= half_signed <= 0x7fff,
    ensures
        -max_sq(bits) <= r <= max_sq(bits),
        half_signed == 0 ==> r == 0,
        half_signed != 0 ==> first_best(
            r as int,
            sf16_estimate(half_signed as int, bits),
            -max_sq(bits),
            max_sq(bits),
            |q: int| abs_int(sf16_forward(q, bits) - half_signed),
        ),
{
    proof {
        lemma2_to64();
        lemma_pow2_strictly_increases((bits - 1) as nat, 16);
    }
    let max_q: i32 = pow2_u32(bits - 1) as i32 - 1;
    if half_signed == 0 {
        return 0;
    }
    let ghost err = |q: int| abs_int(sf16_forward(q, bits) - half_signed);
    let target_mag: i64 = if half_signed < 0 {
        -(half_signed as i64)
    } else {
        half_signed as i64
    };
    let unq_est = (target_mag * 32) / 31;
    let p = (max_q as i64) + 1;
    assert(unq_est * p <= 0x4300_0000) by (nonlinear_arith)
        requires
            0 <= unq_est <= 0x8500,
            1 <= p <= 0x8000,
    ;
    let full = unq_est * p;
    let lhs: i64 = if full >= 0x4000 {
        full - 0x4000
    } else {
        0
    };
    let q_mag0 = lhs / 32768;
    let q_mag: i32 = if q_mag0 > max_q as i64 {
        max_q
    } else {
        q_mag0 as i32
    };
    let q_est: i32 = if half_signed < 0 {
        -q_mag
    } else {
        q_mag
    };
    let ghost qe = q_est as int;
    assert(qe == sf16_estimate(half_signed as int, bits));
    let mut best: i32 = q_est;
    let f0 = sf16_forward_exec(best, bits);
    let mut best_err: i32 = if f0 >= half_signed {
        f0 - half_signed
    } else {
        half_signed - f0
    };
    let ghost mut ib: int = 0;
    assert(best == probe(qe, -max_q as int, max_q as int, 0));
    let mut k: i32 = 1;
    while k < 6
        invariant
            1 <= bits <= 16,
            max_q == max_sq(bits),
            0 <= max_q <= 0x7fff,
            -0x7fff <= half_signed <= 0x7fff,
            1 <= k <= 6,
            0 <= ib < k,
            q_est == qe,
            -max_q <= q_est <= max_q,
            -max_q <= best <= max_q,
            best == probe(qe, -max_q as int, max_q as int, ib),
            best_err == err(best as int),
            err == (|q: int| abs_int(sf16_forward(q, bits) - half_signed)),
            forall|j: int|
                0 <= j < k ==> err(best as int) <= err(#[trigger] probe(qe, -max_q as int, max_q as int, j)),
            forall|j: int|
                0 <= j < ib ==> err(#[trigger] probe(qe, -max_q as int, max_q as int, j)) > err(best as int),
        decreases 6 - k,
    {
        let raw = q_est + k - 3;
        let cand: i32 = if raw < -max_q {
            -max_q
        } else if raw > max_q {
            max_q
        } else {
            raw
        };
        assert(cand == probe(qe, -max_q as int, max_q as int, k as int));
        let f = sf16_forward_exec(cand, bits);
        let e: i32 = if f >= half_signed {
            f - half_signed
        } else {
            half_signed - f
        };
        assert(e == err(cand as int));
        if e < best_err {
            best_err = e;
            best = cand;
            proof {
                ib = k as int;
            }
        }
        k += 1;
    }
    best
}

} // verus!
