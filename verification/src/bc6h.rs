//! BC6H (`BC6H_UF16` / `BC6H_SF16`) block decompression to RGBA half floats.
//!
//! A BC6H block is 128 bits read LSB-first: a 2- or 5-bit mode prefix, the
//! endpoint bits of the mode in its own interleaved order (see
//! [`crate::bc6h_tables`]), a 5-bit partition selector in the two-subset
//! modes, and the per-pixel indices (3 bits with two subsets, 4 bits with
//! one, one bit fewer at each subset's anchor pixel).
//!
//! The endpoints go through the format's pipeline: the base endpoint `w`
//! is held to the mode's precision (sign-extended for `SF16`); the other
//! endpoints are either absolute values of the same precision or signed
//! deltas added to `w` modulo that precision; every endpoint is then
//! unquantized to 16 bits, interpolated with the index weight and scaled
//! to a binary16 value (31/64 for `UF16`, 31/32 with the sign re-attached
//! for `SF16`). Alpha is always binary16 one (`0x3c00`). The four reserved
//! 5-bit prefixes decode to black with alpha one.
use vstd::prelude::*;
use vstd::arithmetic::power2::{pow2, lemma2_to64, lemma_pow2_adds, lemma_pow2_strictly_increases};
use vstd::arithmetic::div_mod::lemma_mod_multiples_vanish;
use vstd::bits::lemma_u32_shl_is_mul;
use crate::bc6h_tables::{layout_entry, layout_len, layout_length, layout_lookup};
use crate::bitfacts::{lemma_pow2_shifts, lemma_shl_mono};
use crate::bc7::{BitReader, bit_at, field, weight, lemma_field_one, read_block16, WEIGHT_3, WEIGHT_4};
use crate::bc7_tables::{anchor_entry, anchor_lookup, part2, part2_entry};
use crate::bcn::{ceil_div4, check_lengths, lengths_ok};
use crate::error::{DdsError, Result, is_invalid};
use crate::surface::{surface_decoded, blocks_written, write_block, lemma_block_step, lemma_all_blocks, lemma_block_offset};

verus! {

/// Mode number reported for the four reserved 5-bit prefixes.
pub const INVALID_MODE: u32 = 0xffff_ffff;

// ---- Modes ----------------------------------------------------------------------

/// One entry of a mode's endpoint bit layout: the next block bit is bit
/// `dest_bit` of channel `channel` (0 = R, 1 = G, 2 = B) of endpoint
/// `endpoint` (0 = w, 1 = x, 2 = y, 3 = z).
#[derive(Clone, Copy, Debug)]
pub struct FieldBit {
    pub channel: u8,
    pub endpoint: u8,
    pub dest_bit: u8,
}

/// A packed layout entry (`channel * 64 + endpoint * 16 + bit`) unpacked.
pub open spec fn unpack_field(e: u8) -> FieldBit {
    FieldBit { channel: e / 64, endpoint: (e / 16) % 4, dest_bit: e % 16 }
}

/// The shape of one BC6H mode.
pub struct ModeInfo {
    /// Number of subsets (1 or 2).
    pub subsets: u8,
    /// Precision of the base endpoint `w`, per channel.
    pub prec_r: u8,
    pub prec_g: u8,
    pub prec_b: u8,
    /// Width of the signed deltas per channel; 0 when the other endpoints
    /// are absolute values.
    pub delta_r: u8,
    pub delta_g: u8,
    pub delta_b: u8,
    /// The endpoint bits after the mode prefix, in block order.
    pub fields: Vec<FieldBit>,
    /// Index bits per pixel (3 with two subsets, 4 with one).
    pub idx_bits: u8,
}

/// Number of subsets of mode `m`.
pub open spec fn mode_subsets(m: int) -> int {
    if m < 10 {
        2
    } else {
        1
    }
}

/// Index bits per pixel of mode `m`.
pub open spec fn mode_idx_bits(m: int) -> int {
    if m < 10 {
        3
    } else {
        4
    }
}

/// Endpoint precision of mode `m` (the same for the three channels).
pub open spec fn mode_prec(m: int) -> int {
    if m == 0 || m == 10 {
        10
    } else if m == 1 {
        7
    } else if 2 <= m <= 4 || m == 11 {
        11
    } else if m == 5 {
        9
    } else if 6 <= m <= 8 {
        8
    } else if m == 9 {
        6
    } else if m == 12 {
        12
    } else {
        16
    }
}

/// Delta width of channel `ch` in mode `m`; 0 for the absolute modes 9 and 10.
pub open spec fn mode_delta(m: int, ch: int) -> int {
    if m == 0 || m == 5 {
        5
    } else if m == 1 {
        6
    } else if 2 <= m <= 4 {
        if ch == m - 2 {
            5
        } else {
            4
        }
    } else if 6 <= m <= 8 {
        if ch == m - 6 {
            6
        } else {
            5
        }
    } else if m == 9 || m == 10 {
        0
    } else if m == 11 {
        9
    } else if m == 12 {
        8
    } else {
        4
    }
}

/// `mi` describes mode `m`.
pub open spec fn info_matches(mi: ModeInfo, m: int) -> bool {
    &&& mi.subsets == mode_subsets(m)
    &&& mi.prec_r == mode_prec(m)
    &&& mi.prec_g == mode_prec(m)
    &&& mi.prec_b == mode_prec(m)
    &&& mi.delta_r == mode_delta(m, 0)
    &&& mi.delta_g == mode_delta(m, 1)
    &&& mi.delta_b == mode_delta(m, 2)
    &&& mi.idx_bits == mode_idx_bits(m)
    &&& mi.fields@.len() == layout_len(m)
    &&& forall|k: int| 0 <= k < layout_len(m) ==> #[trigger] mi.fields@[k] == unpack_field(layout_entry(m, k))
}

/// The endpoint layout of mode `m` as a list of field bits.
fn layout_fields(m: u32) -> (v: Vec<FieldBit>)
    requires
        m < 14,
    ensures
        v@.len() == layout_len(m as int),
        forall|k: int| 0 <= k < layout_len(m as int) ==> #[trigger] v@[k] == unpack_field(layout_entry(m as int, k)),
{
    let n = layout_length(m);
    let mut v: Vec<FieldBit> = Vec::new();
    let mut k: usize = 0;
    while k < n
        invariant
            m < 14,
            n == layout_len(m as int),
            k <= n,
            v@.len() == k,
            forall|j: int| 0 <= j < k ==> #[trigger] v@[j] == unpack_field(layout_entry(m as int, j)),
        decreases n - k,
    {
        let e = layout_lookup(m, k);
        v.push(FieldBit { channel: e / 64, endpoint: (e / 16) % 4, dest_bit: e % 16 });
        k += 1;
    }
    v
}

/// The shape of mode `mode`; `None` past mode 13.
pub fn mode_info(mode: u32) -> (r: Option<ModeInfo>)
    ensures
        r is Some <==> mode < 14,
        r matches Some(mi) ==> info_matches(mi, mode as int),
{
    Some(
        match mode {
            0 => ModeInfo {
                subsets: 2,
                prec_r: 10,
                prec_g: 10,
                prec_b: 10,
                delta_r: 5,
                delta_g: 5,
                delta_b: 5,
                fields: layout_fields(0),
                idx_bits: 3,
            },
            1 => ModeInfo {
                subsets: 2,
                prec_r: 7,
                prec_g: 7,
                prec_b: 7,
                delta_r: 6,
                delta_g: 6,
                delta_b: 6,
                fields: layout_fields(1),
                idx_bits: 3,
            },
            2 => ModeInfo {
                subsets: 2,
                prec_r: 11,
                prec_g: 11,
                prec_b: 11,
                delta_r: 5,
                delta_g: 4,
                delta_b: 4,
                fields: layout_fields(2),
                idx_bits: 3,
            },
            3 => ModeInfo {
                subsets: 2,
                prec_r: 11,
                prec_g: 11,
                prec_b: 11,
                delta_r: 4,
                delta_g: 5,
                delta_b: 4,
                fields: layout_fields(3),
                idx_bits: 3,
            },
            4 => ModeInfo {
                subsets: 2,
                prec_r: 11,
                prec_g: 11,
                prec_b: 11,
                delta_r: 4,
                delta_g: 4,
                delta_b: 5,
                fields: layout_fields(4),
                idx_bits: 3,
            },
            5 => ModeInfo {
                subsets: 2,
                prec_r: 9,
                prec_g: 9,
                prec_b: 9,
                delta_r: 5,
                delta_g: 5,
                delta_b: 5,
                fields: layout_fields(5),
                idx_bits: 3,
            },
            6 => ModeInfo {
                subsets: 2,
                prec_r: 8,
                prec_g: 8,
                prec_b: 8,
                delta_r: 6,
                delta_g: 5,
                delta_b: 5,
                fields: layout_fields(6),
                idx_bits: 3,
            },
            7 => ModeInfo {
                subsets: 2,
                prec_r: 8,
                prec_g: 8,
                prec_b: 8,
                delta_r: 5,
                delta_g: 6,
                delta_b: 5,
                fields: layout_fields(7),
                idx_bits: 3,
            },
            8 => ModeInfo {
                subsets: 2,
                prec_r: 8,
                prec_g: 8,
                prec_b: 8,
                delta_r: 5,
                delta_g: 5,
                delta_b: 6,
                fields: layout_fields(8),
                idx_bits: 3,
            },
            9 => ModeInfo {
                subsets: 2,
                prec_r: 6,
                prec_g: 6,
                prec_b: 6,
                delta_r: 0,
                delta_g: 0,
                delta_b: 0,
                fields: layout_fields(9),
                idx_bits: 3,
            },
            10 => ModeInfo {
                subsets: 1,
                prec_r: 10,
                prec_g: 10,
                prec_b: 10,
                delta_r: 0,
                delta_g: 0,
                delta_b: 0,
                fields: layout_fields(10),
                idx_bits: 4,
            },
            11 => ModeInfo {
                subsets: 1,
                prec_r: 11,
                prec_g: 11,
                prec_b: 11,
                delta_r: 9,
                delta_g: 9,
                delta_b: 9,
                fields: layout_fields(11),
                idx_bits: 4,
            },
            12 => ModeInfo {
                subsets: 1,
                prec_r: 12,
                prec_g: 12,
                prec_b: 12,
                delta_r: 8,
                delta_g: 8,
                delta_b: 8,
                fields: layout_fields(12),
                idx_bits: 4,
            },
            13 => ModeInfo {
                subsets: 1,
                prec_r: 16,
                prec_g: 16,
                prec_b: 16,
                delta_r: 4,
                delta_g: 4,
                delta_b: 4,
                fields: layout_fields(13),
                idx_bits: 4,
            },
            _ => {
                return None;
            },
        },
    )
}

/// Prefix length and mode of a block, from the low five bits of its first
/// byte; the mode is [`INVALID_MODE`] for the reserved prefixes
/// `10011`, `10111`, `11011` and `11111`.
pub open spec fn block_mode(b: Seq<u8>) -> (u32, u32) {
    let p = b[0] % 32;
    if p == 2 {
        (5, 2)
    } else if p == 6 {
        (5, 3)
    } else if p == 10 {
        (5, 4)
    } else if p == 14 {
        (5, 5)
    } else if p == 18 {
        (5, 6)
    } else if p == 22 {
        (5, 7)
    } else if p == 26 {
        (5, 8)
    } else if p == 30 {
        (5, 9)
    } else if p == 3 {
        (5, 10)
    } else if p == 7 {
        (5, 11)
    } else if p == 11 {
        (5, 12)
    } else if p == 15 {
        (5, 13)
    } else if p % 4 == 0 {
        (2, 0)
    } else if p % 4 == 1 {
        (2, 1)
    } else {
        (5, INVALID_MODE)
    }
}

fn decode_mode(block: &[u8; 16]) -> (r: (u32, u32))
    ensures
        r == block_mode(block@),
{
    let b0 = block[0];
    let lo2 = (b0 & 0x03) as u32;
    let hi3 = ((b0 >> 2) & 0x07) as u32;
    let prefix5 = lo2 | (hi3 << 2);
    assert(prefix5 == b0 % 32 && lo2 == b0 % 4) by (bit_vector)
        requires
            lo2 == (b0 & 0x03) as u32,
            hi3 == ((b0 >> 2) & 0x07) as u32,
            prefix5 == lo2 | (hi3 << 2),
    ;
    match prefix5 {
        0b00010 => (5, 2),
        0b00110 => (5, 3),
        0b01010 => (5, 4),
        0b01110 => (5, 5),
        0b10010 => (5, 6),
        0b10110 => (5, 7),
        0b11010 => (5, 8),
        0b11110 => (5, 9),
        0b00011 => (5, 10),
        0b00111 => (5, 11),
        0b01011 => (5, 12),
        0b01111 => (5, 13),
        0b10011 | 0b10111 | 0b11011 | 0b11111 => (5, INVALID_MODE),
        _ => {
            if lo2 == 0b00 {
                (2, 0)
            } else if lo2 == 0b01 {
                (2, 1)
            } else {
                (5, INVALID_MODE)
            }
        },
    }
}

// ---- Endpoints --------------------------------------------------------------------

/// The bits routed by the first `k` layout entries of mode `m` to channel
/// `ch` of endpoint `ep`, the layout starting at block bit `start`.
pub open spec fn gathered(b: Seq<u8>, m: int, start: int, ch: int, ep: int, k: int) -> u32
    decreases k,
{
    if k <= 0 {
        0
    } else {
        let f = unpack_field(layout_entry(m, k - 1));
        let prev = gathered(b, m, start, ch, ep, k - 1);
        if f.channel == ch && f.endpoint == ep {
            prev | ((bit_at(b, start + k - 1) as u32) << (f.dest_bit as u32))
        } else {
            prev
        }
    }
}

/// Raw value of channel `ch` of endpoint `ep` as stored in the block.
pub open spec fn raw_endpoint(b: Seq<u8>, m: int, start: int, ch: int, ep: int) -> u32 {
    gathered(b, m, start, ch, ep, layout_len(m))
}

/// The low `n` bits of `v` read as a two's-complement number.
pub open spec fn sext(v: int, n: int) -> int {
    let p = pow2(n as nat) as int;
    let l = v % p;
    if 2 * l >= p {
        l - p
    } else {
        l
    }
}

/// Endpoint `ep` of one channel at precision `prec`, from the raw base
/// `w_raw` and the raw stored value `v_raw`: the base is held to the
/// precision (sign-extended when signed); an absolute endpoint likewise; a
/// delta endpoint is the base plus the sign-extended delta, wrapped to
/// the precision.
pub open spec fn endpoint_of(w_raw: int, v_raw: int, ep: int, prec: int, delta: int, signed: bool) -> int {
    let p = pow2(prec as nat) as int;
    let w = if signed {
        sext(w_raw, prec)
    } else {
        w_raw % p
    };
    if ep == 0 {
        w
    } else if delta == 0 {
        if signed {
            sext(v_raw, prec)
        } else {
            v_raw % p
        }
    } else {
        let x = (w + sext(v_raw, delta)) % p;
        if signed {
            sext(x, prec)
        } else {
            x
        }
    }
}

/// An endpoint of `bits` bits widened to the 16-bit interpolation range.
pub open spec fn unquantize_value(comp: int, bits: int, signed: bool) -> int {
    if !signed {
        if bits >= 15 {
            comp
        } else if comp == 0 {
            0
        } else if comp == pow2(bits as nat) - 1 {
            0xffff
        } else {
            (comp * 65536 + 32768) / (pow2(bits as nat) as int)
        }
    } else if bits >= 16 {
        comp
    } else {
        let c = if comp < 0 {
            -comp
        } else {
            comp
        };
        let h = pow2((bits - 1) as nat) as int;
        let u = if c == 0 {
            0
        } else if c >= h - 1 {
            0x7fff
        } else {
            (c * 32768 + 16384) / h
        };
        if comp < 0 {
            -u
        } else {
            u
        }
    }
}

/// Unquantized channel `ch` of endpoint slot `slot` (`2s` and `2s + 1` for
/// subset `s`); 0 for a slot the mode does not have.
pub open spec fn endpoint_unq(b: Seq<u8>, m: int, start: int, signed: bool, ch: int, slot: int) -> int {
    if 0 <= slot < 2 * mode_subsets(m) {
        unquantize_value(
            endpoint_of(
                raw_endpoint(b, m, start, ch, 0) as int,
                raw_endpoint(b, m, start, ch, slot) as int,
                slot,
                mode_prec(m),
                mode_delta(m, ch),
                signed,
            ),
            mode_prec(m),
            signed,
        )
    } else {
        0
    }
}

// ---- Arithmetic ---------------------------------------------------------------------

/// `2^n`.
pub(crate) fn pow2_u32(n: u32) -> (p: u32)
    requires
        n <= 17,
    ensures
        p == pow2(n as nat),
        1 <= p <= 0x20000,
{
    proof {
        lemma2_to64();
        if n < 17 {
            lemma_pow2_strictly_increases(n as nat, 17);
        }
        lemma_u32_shl_is_mul(1, n);
    }
    1u32 << n
}

/// Halving a power of two: `2^n == 2 * 2^(n-1)`.
proof fn lemma_pow2_half(n: int)
    requires
        n >= 1,
    ensures
        pow2(n as nat) == 2 * pow2((n - 1) as nat),
{
    lemma_pow2_adds((n - 1) as nat, 1);
    lemma2_to64();
}

/// The low `bits` bits of `value` as a two's-complement number.
fn sign_extend(value: u32, bits: u32) -> (r: i32)
    requires
        1 <= bits <= 16,
    ensures
        r == sext(value as int, bits as int),
        -(pow2(bits as nat) as int) <= 2 * r < pow2(bits as nat),
{
    let p = pow2_u32(bits);
    let l = value % p;
    if 2 * l >= p {
        l as i32 - p as i32
    } else {
        l as i32
    }
}

/// [`endpoint_of`] of one channel.
fn endpoint_value(w_raw: u32, v_raw: u32, ep: usize, prec: u32, delta: u32, signed: bool) -> (r: i32)
    requires
        6 <= prec <= 16,
        delta <= 9,
    ensures
        r == endpoint_of(w_raw as int, v_raw as int, ep as int, prec as int, delta as int, signed),
        signed ==> -(pow2(prec as nat) as int) <= 2 * r < pow2(prec as nat),
        !signed ==> 0 <= r < pow2(prec as nat),
{
    let p = pow2_u32(prec);
    let w: i32 = if signed {
        sign_extend(w_raw, prec)
    } else {
        (w_raw % p) as i32
    };
    if ep == 0 {
        return w;
    }
    if delta == 0 {
        return if signed {
            sign_extend(v_raw, prec)
        } else {
            (v_raw % p) as i32
        };
    }
    let d = sign_extend(v_raw, delta);
    proof {
        lemma2_to64();
        lemma_pow2_strictly_increases(delta as nat, 10);
    }
    let t = w + d;
    let x = ((t + 0x20000) as u32) % p;
    proof {
        let q = pow2((17 - prec) as nat) as int;
        lemma_pow2_adds(prec as nat, (17 - prec) as nat);
        assert(p * q == 0x20000);
        lemma_mod_multiples_vanish(q, t as int, p as int);
    }
    if signed {
        sign_extend(x, prec)
    } else {
        x as i32
    }
}

/// [`unquantize_value`].
fn unquantize(comp: i32, bits: u32, signed: bool) -> (r: i32)
    requires
        6 <= bits <= 16,
        !signed ==> 0 <= comp < pow2(bits as nat),
        signed ==> -(pow2(bits as nat) as int) <= 2 * comp < pow2(bits as nat),
    ensures
        r == unquantize_value(comp as int, bits as int, signed),
        !signed ==> 0 <= r <= 0xffff,
        signed ==> -0x8000 <= r <= 0x7fff,
{
    proof {
        lemma2_to64();
        if bits < 16 {
            lemma_pow2_strictly_increases(bits as nat, 16);
        }
    }
    if !signed {
        if bits >= 15 {
            return comp;
        }
        if comp == 0 {
            return 0;
        }
        let p = pow2_u32(bits);
        if comp == p as i32 - 1 {
            return 0xffff;
        }
        proof {
            lemma_pow2_strictly_increases(bits as nat, 15);
        }
        let c = comp as u32;
        assert(c * 65536 + 32768 < p * 65536) by (nonlinear_arith)
            requires
                c + 2 <= p,
        ;
        let num = c * 65536 + 32768;
        let v = num / p;
        assert(v < 65536) by (nonlinear_arith)
            requires
                v == num / p,
                num < p * 65536,
                p >= 1,
        ;
        v as i32
    } else {
        if bits >= 16 {
            return comp;
        }
        proof {
            lemma_pow2_half(bits as int);
        }
        let s = comp < 0;
        let c: i32 = if s {
            -comp
        } else {
            comp
        };
        let h = pow2_u32(bits - 1);
        let unq: i32 = if c == 0 {
            0
        } else if c >= h as i32 - 1 {
            0x7fff
        } else {
            let cu = c as u32;
            assert(cu * 32768 + 16384 < h * 32768) by (nonlinear_arith)
                requires
                    cu + 2 <= h,
            ;
            let num = cu * 32768 + 16384;
            let v = num / h;
            assert(v < 32768) by (nonlinear_arith)
                requires
                    v == num / h,
                    num < h * 32768,
                    h >= 1,
            ;
            v as i32
        };
        if s {
            -unq
        } else {
            unq
        }
    }
}

/// [`interp_value`]; the result lies between the endpoints.
fn interpolate(a: i32, b: i32, w: u32) -> (r: i32)
    requires
        -0x8000 <= a <= 0xffff,
        -0x8000 <= b <= 0xffff,
        w <= 64,
    ensures
        r == interp_value(a as int, b as int, w as int),
        a <= b ==> a <= r <= b,
        b <= a ==> b <= r <= a,
{
    let ai = a as i64;
    let bi = b as i64;
    let wi = w as i64;
    assert(-0x8000 * 64 <= ai * (64 - wi) <= 0xffff * 64 && -0x8000 * 64 <= bi * wi <= 0xffff * 64) by (nonlinear_arith)
        requires
            -0x8000 <= ai <= 0xffff,
            -0x8000 <= bi <= 0xffff,
            0 <= wi <= 64,
    ;
    let x: i64 = ai * (64 - wi) + bi * wi + 32;
    let lo: i64 = if a <= b {
        a as i64
    } else {
        b as i64
    };
    let hi: i64 = if a <= b {
        b as i64
    } else {
        a as i64
    };
    assert(64 * lo + 32 <= x <= 64 * hi + 32) by (nonlinear_arith)
        requires
            x == a * (64 - w) + b * w + 32,
            lo <= a <= hi,
            lo <= b <= hi,
            0 <= w <= 64,
    ;
    let q = ((x + 0x40_0000) as u64 / 64) as i64 - 0x1_0000;
    assert(q == x / 64);
    q as i32
}

/// [`finish_value`].
fn finish_unquantize(comp: i32, signed: bool) -> (r: u16)
    requires
        !signed ==> comp <= 0xffff,
        signed ==> -0x8000 <= comp <= 0x7fff,
    ensures
        r == finish_value(comp as int, signed),
{
    if !signed {
        let c: u32 = if comp < 0 {
            0
        } else {
            comp as u32
        };
        let c31 = c * 31;
        let v = c31 >> 6;
        assert(v == c31 / 64) by (bit_vector)
            requires
                v == c31 >> 6,
        ;
        v as u16
    } else if comp < 0 {
        let m = (-comp) as u32;
        let m31 = m * 31;
        let c = m31 >> 5;
        assert(c == m31 / 32) by (bit_vector)
            requires
                c == m31 >> 5,
        ;
        let c16 = c as u16;
        let r = 0x8000u16 | c16;
        assert(r == 0x8000 + c16) by (bit_vector)
            requires
                r == 0x8000u16 | c16,
                c16 < 0x8000,
        ;
        r
    } else {
        let m = comp as u32;
        let m31 = m * 31;
        let c = m31 >> 5;
        assert(c == m31 / 32) by (bit_vector)
            requires
                c == m31 >> 5,
        ;
        c as u16
    }
}

// ---- Indices ------------------------------------------------------------------------

/// Subset of pixel `px` under partition `part`.
pub open spec fn texel_subset(m: int, part: u32, px: int) -> u32 {
    if mode_subsets(m) == 2 {
        part2(part, px)
    } else {
        0
    }
}

/// Pixel `px` is the anchor of its subset: pixel 0 for subset 0, the
/// partition's anchor for subset 1.
pub open spec fn is_anchor(m: int, part: u32, px: int) -> bool {
    if mode_subsets(m) == 2 {
        if texel_subset(m, part, px) == 0 {
            px == 0
        } else {
            px == anchor_entry(2, part, 1)
        }
    } else {
        px == 0
    }
}

/// Bits of the index of pixel `px`.
pub open spec fn index_width(m: int, part: u32, px: int) -> int {
    if is_anchor(m, part, px) {
        mode_idx_bits(m) - 1
    } else {
        mode_idx_bits(m)
    }
}

/// Bits of the indices of the pixels before `px`.
pub open spec fn index_offset(m: int, part: u32, px: int) -> int
    decreases px,
{
    if px <= 0 {
        0
    } else {
        index_offset(m, part, px - 1) + index_width(m, part, px - 1)
    }
}

/// Partition selector of the block (0 with one subset).
pub open spec fn block_partition(b: Seq<u8>, m: int, start: int) -> u32 {
    if mode_subsets(m) == 2 {
        field(b, start + layout_len(m), 5)
    } else {
        0
    }
}

/// Block bit of the first index.
pub open spec fn index_start(m: int, start: int) -> int {
    start + layout_len(m) + if mode_subsets(m) == 2 {
        5int
    } else {
        0int
    }
}

/// Index of pixel `px`.
pub open spec fn texel_index(b: Seq<u8>, m: int, start: int, px: int) -> u32 {
    let part = block_partition(b, m, start);
    field(b, index_start(m, start) + index_offset(m, part, px), index_width(m, part, px))
}

// ---- Pixels ---------------------------------------------------------------------------

/// `((64 - w) a + w b + 32) >> 6`.
pub open spec fn interp_value(a: int, b: int, w: int) -> int {
    (a * (64 - w) + b * w + 32) / 64
}

/// An interpolated value scaled to its binary16 bit pattern: by 31/64 for
/// unsigned blocks, by 31/32 on the magnitude with the sign bit on top for
/// signed ones.
pub open spec fn finish_value(comp: int, signed: bool) -> u16 {
    if !signed {
        ((if comp < 0 {
            0
        } else {
            comp
        }) * 31 / 64) as u16
    } else if comp < 0 {
        (0x8000 + (-comp) * 31 / 32) as u16
    } else {
        (comp * 31 / 32) as u16
    }
}

/// Channel `ch` of a pixel of subset `s` with index weight `w`.
pub open spec fn texel_channel(b: Seq<u8>, m: int, start: int, signed: bool, s: int, w: int, ch: int) -> u16 {
    finish_value(
        interp_value(endpoint_unq(b, m, start, signed, ch, 2 * s), endpoint_unq(b, m, start, signed, ch, 2 * s + 1), w),
        signed,
    )
}

/// Pixel `px` (row-major) of the BC6H block `b` as binary16 RGBA.
pub open spec fn bc6h_texel(b: Seq<u8>, signed: bool, px: int) -> [u16; 4] {
    let (start, mode) = block_mode(b);
    let m = mode as int;
    let st = start as int;
    if mode == INVALID_MODE {
        [0u16, 0u16, 0u16, 0x3c00u16]
    } else {
        let s = texel_subset(m, block_partition(b, m, st), px) as int;
        let w = weight(mode_idx_bits(m) as u32, texel_index(b, m, st, px)) as int;
        [
            texel_channel(b, m, st, signed, s, w, 0),
            texel_channel(b, m, st, signed, s, w, 1),
            texel_channel(b, m, st, signed, s, w, 2),
            0x3c00u16,
        ]
    }
}

// ---- Decoding -----------------------------------------------------------------------

/// Read the endpoint bits of mode `mode` into raw channel values
/// (`raw[ch][ep]`).
fn gather_fields(br: &mut BitReader, mode: u32, fields: &Vec<FieldBit>) -> (raw: [[u32; 4]; 4])
    requires
        mode < 14,
        fields@.len() == layout_len(mode as int),
        forall|k: int| 0 <= k < layout_len(mode as int) ==> #[trigger] fields@[k] == unpack_field(layout_entry(mode as int, k)),
        old(br).pos <= 5,
    ensures
        final(br).bytes == old(br).bytes,
        final(br).pos == old(br).pos + layout_len(mode as int),
        forall|c: int, e: int|
            0 <= c < 4 && 0 <= e < 4 ==> #[trigger] raw@[c]@[e] == raw_endpoint(old(br).bytes@, mode as int, old(br).pos as int, c, e),
        forall|c: int, e: int| 0 <= c < 4 && 0 <= e < 4 ==> #[trigger] raw@[c]@[e] < 0x10000,
{
    let ghost b = br.bytes@;
    let ghost start = br.pos as int;
    let n = fields.len();
    let mut raw = [[0u32; 4]; 4];
    let mut k: usize = 0;
    while k < n
        invariant
            mode < 14,
            n == fields@.len(),
            n == layout_len(mode as int),
            n <= 75,
            forall|j: int| 0 <= j < layout_len(mode as int) ==> #[trigger] fields@[j] == unpack_field(layout_entry(mode as int, j)),
            k <= n,
            br.bytes@ == b,
            b == old(br).bytes@,
            start == old(br).pos,
            start <= 5,
            br.pos == start + k,
            forall|c: int, e: int|
                0 <= c < 4 && 0 <= e < 4 ==> #[trigger] raw@[c]@[e] == gathered(b, mode as int, start, c, e, k as int),
            forall|c: int, e: int| 0 <= c < 4 && 0 <= e < 4 ==> #[trigger] raw@[c]@[e] < 0x10000,
        decreases n - k,
    {
        let f = fields[k];
        let bit = br.read(1);
        proof {
            lemma_field_one(b, start + k);
            lemma_pow2_shifts();
        }
        let c = f.channel as usize;
        let e = f.endpoint as usize;
        let d = f.dest_bit as u32;
        let prev = raw[c][e];
        let nv = prev | (bit << d);
        assert(nv < 0x10000) by (bit_vector)
            requires
                nv == prev | (bit << d),
                prev < 0x10000,
                bit < 2,
                d < 16,
        ;
        let mut row = raw[c];
        row[e] = nv;
        raw[c] = row;
        proof {
            assert forall|ci: int, ei: int| 0 <= ci < 4 && 0 <= ei < 4 implies #[trigger] raw@[ci]@[ei] == gathered(
                b,
                mode as int,
                start,
                ci,
                ei,
                k + 1,
            ) by {
                assert(fields@[k as int] == unpack_field(layout_entry(mode as int, k as int)));
            }
        }
        k += 1;
    }
    raw
}

/// The unquantized endpoint slots of one channel (0 past `count`).
fn channel_endpoints(raw: [u32; 4], count: usize, prec: u32, delta: u32, signed: bool) -> (eps: [i32; 4])
    requires
        count == 2 || count == 4,
        6 <= prec <= 16,
        delta <= 9,
    ensures
        forall|e: int|
            0 <= e < 4 ==> #[trigger] eps@[e] == (if e < count {
                unquantize_value(endpoint_of(raw@[0] as int, raw@[e] as int, e, prec as int, delta as int, signed), prec as int, signed)
            } else {
                0
            }),
        forall|e: int| 0 <= e < 4 ==> !signed ==> 0 <= #[trigger] eps@[e] <= 0xffff,
        forall|e: int| 0 <= e < 4 ==> signed ==> -0x8000 <= #[trigger] eps@[e] <= 0x7fff,
{
    let mut eps = [0i32; 4];
    let mut e: usize = 0;
    while e < count
        invariant
            count == 2 || count == 4,
            6 <= prec <= 16,
            delta <= 9,
            e <= count,
            forall|j: int|
                0 <= j < 4 ==> #[trigger] eps@[j] == (if j < e {
                    unquantize_value(endpoint_of(raw@[0] as int, raw@[j] as int, j, prec as int, delta as int, signed), prec as int, signed)
                } else {
                    0
                }),
            forall|j: int| 0 <= j < 4 ==> !signed ==> 0 <= #[trigger] eps@[j] <= 0xffff,
            forall|j: int| 0 <= j < 4 ==> signed ==> -0x8000 <= #[trigger] eps@[j] <= 0x7fff,
        decreases count - e,
    {
        let v = endpoint_value(raw[0], raw[e], e, prec, delta, signed);
        eps[e] = unquantize(v, prec, signed);
        e += 1;
    }
    eps
}

proof fn lemma_index_offset_bounds(m: int, part: u32, px: int)
    requires
        0 <= px <= 16,
        m < 14,
    ensures
        0 <= index_offset(m, part, px) <= 4 * px,
    decreases px,
{
    if px > 0 {
        lemma_index_offset_bounds(m, part, px - 1);
    }
}

/// Read the 16 pixel indices.
fn read_indices(br: &mut BitReader, mode: u32, idx_bits: u32, two: bool, partition: u32) -> (idx: [u32; 16])
    requires
        mode < 14,
        two == (mode_subsets(mode as int) == 2),
        idx_bits == mode_idx_bits(mode as int),
        partition < 32,
        old(br).pos <= 100,
    ensures
        final(br).bytes == old(br).bytes,
        forall|px: int|
            0 <= px < 16 ==> #[trigger] idx@[px] == field(
                old(br).bytes@,
                old(br).pos + index_offset(mode as int, partition, px),
                index_width(mode as int, partition, px),
            ),
        forall|px: int| 0 <= px < 16 ==> (#[trigger] idx@[px] as u64) < (1u64 << (idx_bits as u64)),
{
    let ghost b = br.bytes@;
    let ghost start = br.pos as int;
    let mut idx = [0u32; 16];
    let mut px: u32 = 0;
    while px < 16
        invariant
            mode < 14,
            two == (mode_subsets(mode as int) == 2),
            idx_bits == mode_idx_bits(mode as int),
            partition < 32,
            px <= 16,
            br.bytes@ == b,
            b == old(br).bytes@,
            start == old(br).pos,
            start <= 100,
            br.pos == start + index_offset(mode as int, partition, px as int),
            forall|q: int|
                0 <= q < px ==> #[trigger] idx@[q] == field(b, start + index_offset(mode as int, partition, q), index_width(mode as int, partition, q)),
            forall|q: int| 0 <= q < px ==> (#[trigger] idx@[q] as u64) < (1u64 << (idx_bits as u64)),
        decreases 16 - px,
    {
        proof {
            lemma_index_offset_bounds(mode as int, partition, px as int);
        }
        let s = if two {
            part2_entry(partition, px)
        } else {
            0
        };
        let anchor = if two {
            if s == 0 {
                px == 0
            } else {
                px == anchor_lookup(2, partition, 1)
            }
        } else {
            px == 0
        };
        let nbits = if anchor {
            idx_bits - 1
        } else {
            idx_bits
        };
        let v = br.read(nbits);
        proof {
            let ib = idx_bits as u64;
            let nb = nbits as u64;
            lemma_shl_mono();
            assert((1u64 << nb) <= (1u64 << ib));
        }
        idx[px as usize] = v;
        px += 1;
    }
    idx
}

/// Pixel `px` of a block in mode `mode`, from its unquantized endpoints
/// and its index.
fn bc6h_pixel(
    block: &[u8; 16],
    signed: bool,
    mode: u32,
    start: u32,
    idx_bits: u32,
    two: bool,
    partition: u32,
    endpoints: &[[i32; 4]; 3],
    index: u32,
    px: u32,
) -> (rgba: [u16; 4])
    requires
        block_mode(block@) == (start, mode),
        mode < 14,
        two == (mode_subsets(mode as int) == 2),
        idx_bits == mode_idx_bits(mode as int),
        partition == block_partition(block@, mode as int, start as int),
        partition < 32,
        px < 16,
        index == texel_index(block@, mode as int, start as int, px as int),
        (index as u64) < (1u64 << (idx_bits as u64)),
        forall|c: int, e: int|
            0 <= c < 3 && 0 <= e < 4 ==> #[trigger] endpoints@[c]@[e] == endpoint_unq(block@, mode as int, start as int, signed, c, e),
        forall|c: int, e: int| 0 <= c < 3 && 0 <= e < 4 ==> !signed ==> 0 <= #[trigger] endpoints@[c]@[e] <= 0xffff,
        forall|c: int, e: int| 0 <= c < 3 && 0 <= e < 4 ==> signed ==> -0x8000 <= #[trigger] endpoints@[c]@[e] <= 0x7fff,
    ensures
        rgba == bc6h_texel(block@, signed, px as int),
{
    proof {
        lemma_pow2_shifts();
    }
    let s = if two {
        part2_entry(partition, px)
    } else {
        0
    };
    let w = if idx_bits == 3 {
        WEIGHT_3[index as usize]
    } else {
        WEIGHT_4[index as usize]
    };
    assert(w <= 64);
    let ghost b = block@;
    let ghost m = mode as int;
    let ghost st = start as int;
    let mut rgba = [0u16, 0u16, 0u16, 0x3c00u16];
    let mut ch: usize = 0;
    while ch < 3
        invariant
            ch <= 3,
            w <= 64,
            w == weight(mode_idx_bits(m) as u32, index),
            s == texel_subset(m, partition, px as int),
            m == mode,
            st == start,
            m < 14,
            b == block@,
            rgba@[3] == 0x3c00u16,
            forall|c: int, e: int| 0 <= c < 3 && 0 <= e < 4 ==> #[trigger] endpoints@[c]@[e] == endpoint_unq(b, m, st, signed, c, e),
            forall|c: int, e: int| 0 <= c < 3 && 0 <= e < 4 ==> !signed ==> 0 <= #[trigger] endpoints@[c]@[e] <= 0xffff,
            forall|c: int, e: int| 0 <= c < 3 && 0 <= e < 4 ==> signed ==> -0x8000 <= #[trigger] endpoints@[c]@[e] <= 0x7fff,
            forall|c: int| 0 <= c < ch ==> #[trigger] rgba@[c] == texel_channel(b, m, st, signed, s as int, w as int, c),
        decreases 3 - ch,
    {
        let (e0, e1) = if s < 2 {
            (endpoints[ch][2 * s as usize], endpoints[ch][2 * s as usize + 1])
        } else {
            (0i32, 0i32)
        };
        let v = interpolate(e0, e1, w);
        rgba[ch] = finish_unquantize(v, signed);
        ch += 1;
    }
    proof {
        assert(rgba =~= bc6h_texel(b, signed, px as int));
    }
    rgba
}

/// Decode one BC6H block into 16 binary16 RGBA pixels (row-major, alpha
/// one); `None` for the four reserved modes.
pub fn decode_bc6h_block(block: &[u8; 16], signed: bool) -> (r: Option<[[u16; 4]; 16]>)
    ensures
        r is None <==> block_mode(block@).1 == INVALID_MODE,
        r matches Some(out) ==> forall|px: int| 0 <= px < 16 ==> #[trigger] out@[px] == bc6h_texel(block@, signed, px),
{
    let (prefix_bits, mode) = decode_mode(block);
    if mode == INVALID_MODE {
        return None;
    }
    let mi = match mode_info(mode) {
        Some(mi) => mi,
        None => {
            return None;
        },
    };
    let ghost b = block@;
    let ghost m = mode as int;
    let ghost st = prefix_bits as int;
    let mut br = BitReader::new(block);
    br.pos = prefix_bits;
    let raw = gather_fields(&mut br, mode, &mi.fields);
    let two = mi.subsets == 2;
    let partition = if two {
        br.read(5)
    } else {
        0
    };
    proof {
        lemma_pow2_shifts();
    }
    let count = (mi.subsets as usize) * 2;
    let endpoints = [
        channel_endpoints(raw[0], count, mi.prec_r as u32, mi.delta_r as u32, signed),
        channel_endpoints(raw[1], count, mi.prec_g as u32, mi.delta_g as u32, signed),
        channel_endpoints(raw[2], count, mi.prec_b as u32, mi.delta_b as u32, signed),
    ];
    proof {
        assert forall|c: int, e: int| 0 <= c < 3 && 0 <= e < 4 implies #[trigger] endpoints@[c]@[e] == endpoint_unq(
            b,
            m,
            st,
            signed,
            c,
            e,
        ) by {
            assert(raw@[c]@[0] == raw_endpoint(b, m, st, c, 0));
            assert(raw@[c]@[e] == raw_endpoint(b, m, st, c, e));
        }
    }
    let ghost istart = br.pos as int;
    assert(istart == index_start(m, st));
    let idx_bits = mi.idx_bits as u32;
    let idx = read_indices(&mut br, mode, idx_bits, two, partition);
    let mut out = [[0u16; 4]; 16];
    let mut px: u32 = 0;
    while px < 16
        invariant
            px <= 16,
            block@ == b,
            block_mode(b) == (prefix_bits, mode),
            m == mode,
            st == prefix_bits,
            mode < 14,
            two == (mode_subsets(m) == 2),
            idx_bits == mode_idx_bits(m),
            partition == block_partition(b, m, st),
            partition < 32,
            istart == index_start(m, st),
            forall|q: int|
                0 <= q < 16 ==> #[trigger] idx@[q] == field(b, istart + index_offset(m, partition, q), index_width(m, partition, q)),
            forall|q: int| 0 <= q < 16 ==> (#[trigger] idx@[q] as u64) < (1u64 << (idx_bits as u64)),
            forall|c: int, e: int| 0 <= c < 3 && 0 <= e < 4 ==> #[trigger] endpoints@[c]@[e] == endpoint_unq(b, m, st, signed, c, e),
            forall|c: int, e: int| 0 <= c < 3 && 0 <= e < 4 ==> !signed ==> 0 <= #[trigger] endpoints@[c]@[e] <= 0xffff,
            forall|c: int, e: int| 0 <= c < 3 && 0 <= e < 4 ==> signed ==> -0x8000 <= #[trigger] endpoints@[c]@[e] <= 0x7fff,
            forall|q: int| 0 <= q < px ==> #[trigger] out@[q] == bc6h_texel(b, signed, q),
        decreases 16 - px,
    {
        let p = bc6h_pixel(block, signed, mode, prefix_bits, idx_bits, two, partition, &endpoints, idx[px as usize], px);
        out[px as usize] = p;
        px += 1;
    }
    Some(out)
}

// ---- Surfaces -----------------------------------------------------------------------

/// Sixteen binary16 RGBA pixels as 128 little-endian bytes (pixel `t`,
/// channel `c`, byte `k` at `8t + 2c + k`).
pub open spec fn flat_half(p: Seq<[u16; 4]>) -> Seq<u8> {
    Seq::new(
        128,
        |k: int|
            {
                let v = p[k / 8][(k % 8) / 2];
                if k % 2 == 0 {
                    (v % 256) as u8
                } else {
                    (v / 256) as u8
                }
            },
    )
}

/// Decoded bytes of every block of a BC6H stream (block `b` at bytes
/// `16b..16b+16`).
pub open spec fn bc6h_stream_texels(input: Seq<u8>, signed: bool) -> spec_fn(int) -> Seq<u8> {
    |b: int| flat_half(Seq::new(16, |t: int| bc6h_texel(input.subrange(16 * b, 16 * b + 16), signed, t)))
}

fn flatten_half(pixels: &[[u16; 4]; 16]) -> (flat: [u8; 128])
    ensures
        flat@ == flat_half(pixels@),
{
    let mut flat = [0u8; 128];
    let mut t: usize = 0;
    while t < 16
        invariant
            t <= 16,
            forall|k: int| 0 <= k < 8 * t ==> #[trigger] flat@[k] == flat_half(pixels@)[k],
        decreases 16 - t,
    {
        let p = pixels[t];
        let mut c: usize = 0;
        while c < 4
            invariant
                t < 16,
                c <= 4,
                p == pixels@[t as int],
                forall|k: int| 0 <= k < 8 * t + 2 * c ==> #[trigger] flat@[k] == flat_half(pixels@)[k],
            decreases 4 - c,
        {
            let v = p[c];
            flat[8 * t + 2 * c] = (v % 256) as u8;
            flat[8 * t + 2 * c + 1] = (v / 256) as u8;
            proof {
                assert forall|k: int| 0 <= k < 8 * t + 2 * c + 2 implies #[trigger] flat@[k] == flat_half(pixels@)[k] by {
                    if k >= 8 * t + 2 * c {
                        assert(k / 8 == t && (k % 8) / 2 == c);
                    }
                }
            }
            c += 1;
        }
        t += 1;
    }
    assert(flat@ =~= flat_half(pixels@));
    flat
}

/// Decode a BC6H surface to interleaved binary16 RGBA (8 bytes per pixel,
/// alpha one). `input` must hold `ceil(w/4) × ceil(h/4) × 16` bytes and
/// `output` `w × h × 8` bytes; otherwise the result is `InvalidData` and
/// `output` is untouched. Reserved-mode blocks decode to black.
pub fn decode_bc6h(input: &[u8], width: u32, height: u32, signed: bool, output: &mut [u8]) -> (r: Result<()>)
    ensures
        lengths_ok(input@.len() as int, old(output)@.len() as int, width, height, 16, 8) ==> (r is Ok
            && surface_decoded(
            final(output)@,
            old(output)@,
            width as int,
            height as int,
            8,
            bc6h_stream_texels(input@, signed),
        )),
        !lengths_ok(input@.len() as int, old(output)@.len() as int, width, height, 16, 8) ==> (
        is_invalid(r) && final(output)@ == old(output)@),
{
    if !check_lengths(input.len(), output.len(), width, height, 16, 8) {
        return Err(DdsError::invalid("BC6H: input or output shorter than the surface"));
    }
    let ghost blocks = bc6h_stream_texels(input@, signed);
    let ghost orig = output@;
    let bw = ceil_div4(width);
    let bh = ceil_div4(height);
    proof {
        assert(0 * bw == 0);
        assert forall|j: int| 0 <= j < output@.len() implies #[trigger] output@[j] == (if j < width * height * 8
            && crate::surface::block_of(j, width as int, 8) < 0 {
            crate::surface::decoded_byte(blocks, j, width as int, 8)
        } else {
            orig[j]
        }) by {
            if j < width * height * 8 {
                crate::surface::lemma_in_surface(j, width as int, height as int, 8);
            }
        }
    }
    let mut by: usize = 0;
    while by < bh
        invariant
            crate::bcn::block_loop(width, height, bw, bh),
            lengths_ok(input@.len() as int, orig.len() as int, width, height, 16, 8),
            input@.len() <= usize::MAX,
            by <= bh,
            blocks == bc6h_stream_texels(input@, signed),
            blocks_written(output@, orig, width as int, height as int, 8, blocks, by * bw),
        decreases bh - by,
    {
        let mut bx: usize = 0;
        while bx < bw
            invariant
                crate::bcn::block_loop(width, height, bw, bh),
                lengths_ok(input@.len() as int, orig.len() as int, width, height, 16, 8),
                input@.len() <= usize::MAX,
                by < bh,
                bx <= bw,
                blocks == bc6h_stream_texels(input@, signed),
                blocks_written(output@, orig, width as int, height as int, 8, blocks, by * bw + bx),
            decreases bw - bx,
        {
            proof {
                lemma_block_offset(bx as int, by as int, bw as int, bh as int, 16);
            }
            let off = (by * bw + bx) * 16;
            let block = read_block16(input, off);
            let pixels = match decode_bc6h_block(&block, signed) {
                Some(p) => p,
                None => [[0u16, 0, 0, 0x3c00]; 16],
            };
            proof {
                assert forall|t: int| 0 <= t < 16 implies #[trigger] pixels@[t] == bc6h_texel(block@, signed, t) by {}
            }
            let flat = flatten_half(&pixels);
            let ghost before = output@;
            write_block(&flat, 8, bx, by, width, height, output);
            proof {
                let b = by * bw + bx;
                assert(block@ =~= input@.subrange(16 * b, 16 * b + 16));
                assert(pixels@ =~= Seq::new(16, |t: int| bc6h_texel(input@.subrange(16 * b, 16 * b + 16), signed, t)));
                assert(flat@ =~= blocks(b));
                lemma_block_step(before, output@, orig, width as int, height as int, 8, blocks, b);
            }
            bx += 1;
        }
        assert((by + 1) * bw == by * bw + bw) by (nonlinear_arith);
        by += 1;
    }
    proof {
        assert(bh * bw == bw * bh) by (nonlinear_arith);
        lemma_all_blocks(output@, orig, width as int, height as int, 8, blocks);
    }
    Ok(())
}

} // verus!
