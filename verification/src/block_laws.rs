//! What the block encoders promise of a block read back by the decoders.
use vstd::prelude::*;
use crate::bcn::{bc1_channel, bc1_index, bc1_palette, bc2_alpha_value, bc4_bits, bc4_index, bc4_unorm_palette, bc4_unorm_value, rgb565_channel};
use crate::bcn_enc::{
    abs_diff, any_visible, bc1_block_encodes, bc1_mode, bc1_nearest_upto, bc1_pair, bc1_pal_dist, bc1_pixel_index,
    bc2_alpha_byte, bc4_block_encodes, first_visible, has_low_alpha, lemma_bc4_nearest_facts, max_upto, min_upto,
    pack565, pair_dist, rgb_dist, rgb_of, spread, visible, visible_pair,
};

verus! {

/// The first `n` values of `s` all equal `v`.
pub open spec fn flat_upto(s: Seq<u8>, n: int, v: u8) -> bool {
    forall|i: int| 0 <= i < n ==> #[trigger] s[i] == v
}

proof fn lemma_extremes_bound(s: Seq<u8>, n: int)
    requires
        n >= 1,
    ensures
        forall|i: int| 0 <= i < n ==> min_upto(s, n) <= #[trigger] s[i] <= max_upto(s, n),
    decreases n,
{
    if n > 1 {
        lemma_extremes_bound(s, n - 1);
    }
}

/// Reading back an interpolated-alpha block (BC4, BC3 alpha, a BC5
/// channel) written for 16 values: each value decodes to an entry of the
/// block's palette that no other entry is nearer to, and a block of 16
/// equal values decodes to exactly that value.
pub proof fn lemma_bc4_block_roundtrip(out: Seq<u8>, vals: Seq<u8>)
    requires
        out.len() == 8,
        vals.len() == 16,
        bc4_block_encodes(out, vals),
    ensures
        forall|i: int, k: int|
            #![trigger vals[i], bc4_unorm_palette(out[0], out[1], k)]
            0 <= i < 16 && 0 <= k < 8 ==> abs_diff(vals[i] as int, bc4_unorm_value(out, i) as int) <= abs_diff(
                vals[i] as int,
                bc4_unorm_palette(out[0], out[1], k) as int,
            ),
        forall|v: u8| #[trigger] flat_upto(vals, 16, v) ==> forall|i: int| 0 <= i < 16 ==> #[trigger] bc4_unorm_value(out, i) == v,
{
    let a0 = max_upto(vals, 16);
    let a1 = min_upto(vals, 16);
    lemma_extremes_bound(vals, 16);
    if a0 == a1 {
        assert(bc4_bits(out) == 0) by {
            assert(out[2] == 0 && out[3] == 0 && out[4] == 0 && out[5] == 0 && out[6] == 0 && out[7] == 0);
            crate::bitfacts::lemma_zero_bits();
        }
        assert forall|i: int| 0 <= i < 16 implies #[trigger] bc4_index(out, i) == 0 by {
            assert((0u64 >> ((3 * i) as u64)) & 7u64 == 0u64) by {
                crate::bitfacts::lemma_zero_bits();
            }
        }
        assert forall|i: int| 0 <= i < 16 implies #[trigger] bc4_unorm_value(out, i) == vals[i] by {
            assert(bc4_index(out, i) == 0);
        }
    } else {
        assert forall|i: int, k: int|
            #![trigger vals[i], bc4_unorm_palette(out[0], out[1], k)]
            0 <= i < 16 && 0 <= k < 8 implies abs_diff(vals[i] as int, bc4_unorm_value(out, i) as int)
            <= abs_diff(vals[i] as int, bc4_unorm_palette(out[0], out[1], k) as int) by {
            lemma_bc4_nearest_facts(a0, a1, vals[i], 8);
            assert(bc4_unorm_palette(a0, a1, k) == bc4_unorm_palette(out[0], out[1], k));
        }
        assert forall|v: u8| #[trigger] flat_upto(vals, 16, v) implies forall|i: int|
            0 <= i < 16 ==> #[trigger] bc4_unorm_value(out, i) == v by {
            lemma_flat_extremes(vals, 16, v);
        }
    }
}

proof fn lemma_flat_extremes(s: Seq<u8>, n: int, v: u8)
    requires
        n >= 1,
        flat_upto(s, n, v),
    ensures
        max_upto(s, n) == v,
        min_upto(s, n) == v,
    decreases n,
{
    assert(s[n - 1] == v);
    if n > 1 {
        assert(flat_upto(s, n - 1, v));
        lemma_flat_extremes(s, n - 1, v);
    } else {
        assert(max_upto(s, 0) == 0);
        assert(min_upto(s, 0) == 255);
    }
}

/// Reading back BC2 explicit alpha: each alpha keeps its top four bits,
/// widened to eight by repeating them, that is `(a / 16) * 17`.
pub proof fn lemma_bc2_alpha_roundtrip(out: Seq<u8>, alpha: Seq<u8>)
    requires
        out.len() == 8,
        alpha.len() == 16,
        forall|k: int| 0 <= k < 8 ==> #[trigger] out[k] == bc2_alpha_byte(alpha, k),
    ensures
        forall|i: int| 0 <= i < 16 ==> #[trigger] bc2_alpha_value(out, i) == (alpha[i] / 16) * 17,
{
    assert forall|i: int| 0 <= i < 16 implies #[trigger] bc2_alpha_value(out, i) == (alpha[i] / 16) * 17 by {
        let k = i / 2;
        let a = alpha[2 * k];
        let b = alpha[2 * k + 1];
        assert(out[k] == bc2_alpha_byte(alpha, k));
        crate::bitfacts::lemma_nibble_pair(a, b);
    }
}

/// Reading back a BC1 colour block written for 16 pixels of one opaque
/// colour `c` (alpha at least 128): every pixel decodes to `c` rounded to
/// RGB565 and widened back, with alpha 255, whichever palette rule the
/// reader applies.
pub proof fn lemma_bc1_flat_roundtrip(out: Seq<u8>, p: Seq<[u8; 4]>, punch: bool, c: [u8; 4])
    requires
        out.len() == 8,
        p.len() == 16,
        forall|i: int| 0 <= i < 16 ==> #[trigger] p[i] == c,
        c[3] >= 128,
        bc1_block_encodes(out, p, punch),
    ensures
        forall|i: int, ch: int|
            0 <= i < 16 && 0 <= ch < 3 ==> #[trigger] bc1_channel(out, punch, i, ch) == rgb565_channel(
                pack565(c[0], c[1], c[2]),
                ch,
            ),
        forall|i: int| 0 <= i < 16 ==> #[trigger] bc1_channel(out, punch, i, 3) == 255,
{
    let c565 = pack565(c[0], c[1], c[2]);
    assert(!has_low_alpha(p)) by {
        if has_low_alpha(p) {
            let i = choose|i: int| 0 <= i < 16 && #[trigger] p[i][3] < 128;
            assert(p[i] == c);
        }
    }
    assert(visible(p, false, 0));
    assert(any_visible(p, false));
    assert(!spread(p, false)) by {
        if spread(p, false) {
            let (a, b) = choose|a: int, b: int| #[trigger] visible_pair(p, false, a, b) && pair_dist(p, a, b) > 0;
            assert(p[a] == c && p[b] == c);
            assert(rgb_of(p[a]) == rgb_of(p[b]));
            assert(rgb_dist(rgb_of(p[a]), rgb_of(p[b])) == 0);
        }
    }
    assert(first_visible(p, false, 0));
    let f = choose|f: int| first_visible(p, false, f);
    assert(first_visible(p, false, f));
    assert(p[f] == c);
    assert(bc1_pair(p, false) == (f, f));
    assert(bc1_mode(c565, c565, false) == (c565, c565, true));
    assert forall|i: int| 0 <= i < 16 implies #[trigger] bc1_index(out, i) == 0 by {
        assert(bc1_index(out, i) == bc1_pixel_index(p[i], c565, c565, true));
        assert(p[i] == c);
        assert(bc1_pal_dist(c, c565, c565, 1) == bc1_pal_dist(c, c565, c565, 0));
        assert(bc1_pal_dist(c, c565, c565, 2) == bc1_pal_dist(c, c565, c565, 0));
        reveal_with_fuel(bc1_nearest_upto, 3);
        assert(bc1_nearest_upto(c, c565, c565, 3) == 0);
    }
}

} // verus!
