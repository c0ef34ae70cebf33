//! Endpoint bit layouts of the fourteen BC6H modes.
//!
//! After the mode prefix, each block bit is one bit of one endpoint
//! channel. Entry `k` of a mode's layout describes block bit
//! `prefix + k`, packed as `channel * 64 + endpoint * 16 + bit`: channel
//! 0..2 (R, G, B), endpoint 0..3 (w, x, y, z) and the bit's position in
//! that endpoint value.
use vstd::prelude::*;

verus! {

/// Endpoint bit layout of mode 0.
pub const LAYOUT_0: [u8; 75] = [
    100, 164, 180, 0, 1, 2, 3, 4, 5, 6, 7, 8,
    9, 64, 65, 66, 67, 68, 69, 70, 71, 72, 73, 128,
    129, 130, 131, 132, 133, 134, 135, 136, 137, 16, 17, 18,
    19, 20, 116, 96, 97, 98, 99, 80, 81, 82, 83, 84,
    176, 112, 113, 114, 115, 144, 145, 146, 147, 148, 177, 160,
    161, 162, 163, 32, 33, 34, 35, 36, 178, 48, 49, 50,
    51, 52, 179,
];

/// Endpoint bit layout of mode 1.
pub const LAYOUT_1: [u8; 75] = [
    101, 116, 117, 0, 1, 2, 3, 4, 5, 6, 176, 177,
    164, 64, 65, 66, 67, 68, 69, 70, 165, 178, 100, 128,
    129, 130, 131, 132, 133, 134, 179, 181, 180, 16, 17, 18,
    19, 20, 21, 96, 97, 98, 99, 80, 81, 82, 83, 84,
    85, 112, 113, 114, 115, 144, 145, 146, 147, 148, 149, 160,
    161, 162, 163, 32, 33, 34, 35, 36, 37, 48, 49, 50,
    51, 52, 53,
];

/// Endpoint bit layout of mode 2.
pub const LAYOUT_2: [u8; 72] = [
    0, 1, 2, 3, 4, 5, 6, 7, 8, 9, 64, 65,
    66, 67, 68, 69, 70, 71, 72, 73, 128, 129, 130, 131,
    132, 133, 134, 135, 136, 137, 16, 17, 18, 19, 20, 10,
    96, 97, 98, 99, 80, 81, 82, 83, 74, 176, 112, 113,
    114, 115, 144, 145, 146, 147, 138, 177, 160, 161, 162, 163,
    32, 33, 34, 35, 36, 178, 48, 49, 50, 51, 52, 179,
];

/// Endpoint bit layout of mode 3.
pub const LAYOUT_3: [u8; 72] = [
    0, 1, 2, 3, 4, 5, 6, 7, 8, 9, 64, 65,
    66, 67, 68, 69, 70, 71, 72, 73, 128, 129, 130, 131,
    132, 133, 134, 135, 136, 137, 16, 17, 18, 19, 10, 116,
    96, 97, 98, 99, 80, 81, 82, 83, 84, 74, 112, 113,
    114, 115, 144, 145, 146, 147, 138, 177, 160, 161, 162, 163,
    32, 33, 34, 35, 176, 178, 48, 49, 50, 51, 100, 179,
];

/// Endpoint bit layout of mode 4.
pub const LAYOUT_4: [u8; 72] = [
    0, 1, 2, 3, 4, 5, 6, 7, 8, 9, 64, 65,
    66, 67, 68, 69, 70, 71, 72, 73, 128, 129, 130, 131,
    132, 133, 134, 135, 136, 137, 16, 17, 18, 19, 10, 164,
    96, 97, 98, 99, 80, 81, 82, 83, 74, 176, 112, 113,
    114, 115, 144, 145, 146, 147, 148, 138, 160, 161, 162, 163,
    32, 33, 34, 35, 177, 178, 48, 49, 50, 51, 180, 179,
];

/// Endpoint bit layout of mode 5.
pub const LAYOUT_5: [u8; 72] = [
    0, 1, 2, 3, 4, 5, 6, 7, 8, 164, 64, 65,
    66, 67, 68, 69, 70, 71, 72, 100, 128, 129, 130, 131,
    132, 133, 134, 135, 136, 180, 16, 17, 18, 19, 20, 116,
    96, 97, 98, 99, 80, 81, 82, 83, 84, 176, 112, 113,
    114, 115, 144, 145, 146, 147, 148, 177, 160, 161, 162, 163,
    32, 33, 34, 35, 36, 178, 48, 49, 50, 51, 52, 179,
];

/// Endpoint bit layout of mode 6.
pub const LAYOUT_6: [u8; 72] = [
    0, 1, 2, 3, 4, 5, 6, 7, 116, 164, 64, 65,
    66, 67, 68, 69, 70, 71, 178, 100, 128, 129, 130, 131,
    132, 133, 134, 135, 179, 180, 16, 17, 18, 19, 20, 21,
    96, 97, 98, 99, 80, 81, 82, 83, 84, 176, 112, 113,
    114, 115, 144, 145, 146, 147, 148, 177, 160, 161, 162, 163,
    32, 33, 34, 35, 36, 37, 48, 49, 50, 51, 52, 53,
];

/// Endpoint bit layout of mode 7.
pub const LAYOUT_7: [u8; 72] = [
    0, 1, 2, 3, 4, 5, 6, 7, 176, 164, 64, 65,
    66, 67, 68, 69, 70, 71, 101, 100, 128, 129, 130, 131,
    132, 133, 134, 135, 117, 180, 16, 17, 18, 19, 20, 116,
    96, 97, 98, 99, 80, 81, 82, 83, 84, 85, 112, 113,
    114, 115, 144, 145, 146, 147, 148, 177, 160, 161, 162, 163,
    32, 33, 34, 35, 36, 178, 48, 49, 50, 51, 52, 179,
];

/// Endpoint bit layout of mode 8.
pub const LAYOUT_8: [u8; 72] = [
    0, 1, 2, 3, 4, 5, 6, 7, 177, 164, 64, 65,
    66, 67, 68, 69, 70, 71, 165, 100, 128, 129, 130, 131,
    132, 133, 134, 135, 181, 180, 16, 17, 18, 19, 20, 116,
    96, 97, 98, 99, 80, 81, 82, 83, 84, 176, 112, 113,
    114, 115, 144, 145, 146, 147, 148, 149, 160, 161, 162, 163,
    32, 33, 34, 35, 36, 178, 48, 49, 50, 51, 52, 179,
];

/// Endpoint bit layout of mode 9.
pub const LAYOUT_9: [u8; 72] = [
    0, 1, 2, 3, 4, 5, 116, 176, 177, 164, 64, 65,
    66, 67, 68, 69, 101, 165, 178, 100, 128, 129, 130, 131,
    132, 133, 117, 179, 181, 180, 16, 17, 18, 19, 20, 21,
    96, 97, 98, 99, 80, 81, 82, 83, 84, 85, 112, 113,
    114, 115, 144, 145, 146, 147, 148, 149, 160, 161, 162, 163,
    32, 33, 34, 35, 36, 37, 48, 49, 50, 51, 52, 53,
];

/// Endpoint bit layout of mode 10.
pub const LAYOUT_10: [u8; 60] = [
    0, 1, 2, 3, 4, 5, 6, 7, 8, 9, 64, 65,
    66, 67, 68, 69, 70, 71, 72, 73, 128, 129, 130, 131,
    132, 133, 134, 135, 136, 137, 16, 17, 18, 19, 20, 21,
    22, 23, 24, 25, 80, 81, 82, 83, 84, 85, 86, 87,
    88, 89, 144, 145, 146, 147, 148, 149, 150, 151, 152, 153,
];

/// Endpoint bit layout of mode 11.
pub const LAYOUT_11: [u8; 60] = [
    0, 1, 2, 3, 4, 5, 6, 7, 8, 9, 64, 65,
    66, 67, 68, 69, 70, 71, 72, 73, 128, 129, 130, 131,
    132, 133, 134, 135, 136, 137, 16, 17, 18, 19, 20, 21,
    22, 23, 24, 10, 80, 81, 82, 83, 84, 85, 86, 87,
    88, 74, 144, 145, 146, 147, 148, 149, 150, 151, 152, 138,
];

/// Endpoint bit layout of mode 12.
pub const LAYOUT_12: [u8; 60] = [
    0, 1, 2, 3, 4, 5, 6, 7, 8, 9, 64, 65,
    66, 67, 68, 69, 70, 71, 72, 73, 128, 129, 130, 131,
    132, 133, 134, 135, 136, 137, 16, 17, 18, 19, 20, 21,
    22, 23, 11, 10, 80, 81, 82, 83, 84, 85, 86, 87,
    75, 74, 144, 145, 146, 147, 148, 149, 150, 151, 139, 138,
];

/// Endpoint bit layout of mode 13.
pub const LAYOUT_13: [u8; 60] = [
    0, 1, 2, 3, 4, 5, 6, 7, 8, 9, 64, 65,
    66, 67, 68, 69, 70, 71, 72, 73, 128, 129, 130, 131,
    132, 133, 134, 135, 136, 137, 16, 17, 18, 19, 15, 14,
    13, 12, 11, 10, 80, 81, 82, 83, 79, 78, 77, 76,
    75, 74, 144, 145, 146, 147, 143, 142, 141, 140, 139, 138,
];

/// Number of layout entries of mode `m` (0 past the last mode).
pub open spec fn layout_len(m: int) -> int {
    if m == 0 {
        75
    } else if m == 1 {
        75
    } else if m == 2 {
        72
    } else if m == 3 {
        72
    } else if m == 4 {
        72
    } else if m == 5 {
        72
    } else if m == 6 {
        72
    } else if m == 7 {
        72
    } else if m == 8 {
        72
    } else if m == 9 {
        72
    } else if m == 10 {
        60
    } else if m == 11 {
        60
    } else if m == 12 {
        60
    } else if m == 13 {
        60
    } else {
        0
    }
}

/// Entry `k` of the layout of mode `m`.
pub closed spec fn layout_entry(m: int, k: int) -> u8 {
    if m == 0 {
        LAYOUT_0@[k]
    } else if m == 1 {
        LAYOUT_1@[k]
    } else if m == 2 {
        LAYOUT_2@[k]
    } else if m == 3 {
        LAYOUT_3@[k]
    } else if m == 4 {
        LAYOUT_4@[k]
    } else if m == 5 {
        LAYOUT_5@[k]
    } else if m == 6 {
        LAYOUT_6@[k]
    } else if m == 7 {
        LAYOUT_7@[k]
    } else if m == 8 {
        LAYOUT_8@[k]
    } else if m == 9 {
        LAYOUT_9@[k]
    } else if m == 10 {
        LAYOUT_10@[k]
    } else if m == 11 {
        LAYOUT_11@[k]
    } else if m == 12 {
        LAYOUT_12@[k]
    } else {
        LAYOUT_13@[k]
    }
}

/// Number of layout entries of mode `m`.
pub fn layout_length(m: u32) -> (n: usize)
    requires
        m < 14,
    ensures
        n == layout_len(m as int),
{
    if m == 0 {
        75
    } else if m == 1 {
        75
    } else if m == 2 {
        72
    } else if m == 3 {
        72
    } else if m == 4 {
        72
    } else if m == 5 {
        72
    } else if m == 6 {
        72
    } else if m == 7 {
        72
    } else if m == 8 {
        72
    } else if m == 9 {
        72
    } else if m == 10 {
        60
    } else if m == 11 {
        60
    } else if m == 12 {
        60
    } else {
        60
    }
}

/// Every endpoint field of mode 10 names channel R, G or B.
pub proof fn lemma_layout10_channels()
    ensures
        forall|k: int| 0 <= k < layout_len(10) ==> #[trigger] layout_entry(10, k) < 192,
{
    assert forall|k: int| 0 <= k < 60 implies #[trigger] LAYOUT_10@[k] < 192 by {
        assert(LAYOUT_10@ =~= seq![
            0u8, 1, 2, 3, 4, 5, 6, 7, 8, 9, 64, 65,
            66, 67, 68, 69, 70, 71, 72, 73, 128, 129, 130, 131,
            132, 133, 134, 135, 136, 137, 16, 17, 18, 19, 20, 21,
            22, 23, 24, 25, 80, 81, 82, 83, 84, 85, 86, 87,
            88, 89, 144, 145, 146, 147, 148, 149, 150, 151, 152, 153,
        ]);
    }
}

/// Entry `k` of the layout of mode `m`.
pub fn layout_lookup(m: u32, k: usize) -> (e: u8)
    requires
        m < 14,
        k < layout_len(m as int),
    ensures
        e == layout_entry(m as int, k as int),
{
    if m == 0 {
        LAYOUT_0[k]
    } else if m == 1 {
        LAYOUT_1[k]
    } else if m == 2 {
        LAYOUT_2[k]
    } else if m == 3 {
        LAYOUT_3[k]
    } else if m == 4 {
        LAYOUT_4[k]
    } else if m == 5 {
        LAYOUT_5[k]
    } else if m == 6 {
        LAYOUT_6[k]
    } else if m == 7 {
        LAYOUT_7[k]
    } else if m == 8 {
        LAYOUT_8[k]
    } else if m == 9 {
        LAYOUT_9[k]
    } else if m == 10 {
        LAYOUT_10[k]
    } else if m == 11 {
        LAYOUT_11[k]
    } else if m == 12 {
        LAYOUT_12[k]
    } else {
        LAYOUT_13[k]
    }
}

} // verus!
