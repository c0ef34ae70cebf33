//! The partition and anchor tables of BC7 (the same tables Direct3D 11
//! hardware decodes with).
use vstd::prelude::*;

verus! {

/// Subset of each pixel for the 64 two-subset partitions.
pub const PART_2: [[u8; 16]; 64] = [
    // Partitions 0..63 of the 2-subset table.
    [0,0,1,1, 0,0,1,1, 0,0,1,1, 0,0,1,1],
    [0,0,0,1, 0,0,0,1, 0,0,0,1, 0,0,0,1],
    [0,1,1,1, 0,1,1,1, 0,1,1,1, 0,1,1,1],
    [0,0,0,1, 0,0,1,1, 0,0,1,1, 0,1,1,1],
    [0,0,0,0, 0,0,0,1, 0,0,0,1, 0,0,1,1],
    [0,0,1,1, 0,1,1,1, 0,1,1,1, 1,1,1,1],
    [0,0,0,1, 0,0,1,1, 0,1,1,1, 1,1,1,1],
    [0,0,0,0, 0,0,0,1, 0,0,1,1, 0,1,1,1],
    [0,0,0,0, 0,0,0,0, 0,0,0,1, 0,0,1,1],
    [0,0,1,1, 0,1,1,1, 1,1,1,1, 1,1,1,1],
    [0,0,0,0, 0,0,0,1, 0,1,1,1, 1,1,1,1],
    [0,0,0,0, 0,0,0,0, 0,0,0,1, 0,1,1,1],
    [0,0,0,1, 0,1,1,1, 1,1,1,1, 1,1,1,1],
    [0,0,0,0, 0,0,0,0, 1,1,1,1, 1,1,1,1],
    [0,0,0,0, 1,1,1,1, 1,1,1,1, 1,1,1,1],
    [0,0,0,0, 0,0,0,0, 0,0,0,0, 1,1,1,1],
    [0,0,0,0, 1,0,0,0, 1,1,1,0, 1,1,1,1],
    [0,1,1,1, 0,0,1,1, 0,0,0,1, 0,0,0,0],
    [0,0,0,0, 1,0,0,0, 1,1,0,0, 1,1,1,0],
    [0,1,1,1, 0,0,1,1, 0,0,1,1, 0,0,0,1],
    [0,0,1,1, 0,0,0,1, 0,0,0,0, 0,0,0,0],
    [0,0,0,0, 1,0,0,0, 1,0,0,0, 1,1,0,0],
    [0,1,1,1, 0,0,1,1, 0,0,1,1, 0,0,0,1],
    [0,0,1,1, 0,0,0,1, 0,0,0,1, 0,0,0,0],
    [0,0,0,0, 1,0,0,0, 1,0,0,0, 1,1,0,0],
    [0,1,1,1, 0,0,1,1, 0,0,1,1, 0,0,0,1],
    [0,0,1,1, 0,1,1,1, 0,1,1,1, 0,0,1,1],
    [0,0,1,1, 1,0,0,1, 1,1,0,0, 1,1,0,0],
    [0,0,0,1, 0,1,1,1, 1,1,1,0, 1,0,0,0],
    [0,0,0,0, 1,1,1,1, 1,1,1,1, 0,0,0,0],
    [0,1,1,1, 0,0,0,1, 1,0,0,0, 1,1,1,0],
    [0,0,1,1, 1,0,0,1, 1,0,0,1, 1,1,0,0],
    [0,1,0,1, 0,1,0,1, 0,1,0,1, 0,1,0,1],
    [0,0,0,0, 1,1,1,1, 0,0,0,0, 1,1,1,1],
    [0,1,0,1, 1,0,1,0, 0,1,0,1, 1,0,1,0],
    [0,0,1,1, 0,0,1,1, 1,1,0,0, 1,1,0,0],
    [0,0,1,1, 1,1,0,0, 0,0,1,1, 1,1,0,0],
    [0,1,0,1, 0,1,0,1, 1,0,1,0, 1,0,1,0],
    [0,1,1,0, 1,0,0,1, 0,1,1,0, 1,0,0,1],
    [0,1,0,1, 1,0,1,0, 1,0,1,0, 0,1,0,1],
    [0,1,1,1, 0,0,1,1, 1,1,0,0, 1,1,1,0],
    [0,0,0,1, 0,0,1,1, 1,1,0,0, 1,0,0,0],
    [0,0,1,1, 0,0,1,0, 0,1,0,0, 1,1,0,0],
    [0,0,1,1, 1,0,1,1, 1,1,0,1, 1,1,0,0],
    [0,1,1,0, 1,0,0,1, 1,0,0,1, 0,1,1,0],
    [0,0,1,1, 1,1,0,0, 1,1,0,0, 0,0,1,1],
    [0,1,1,0, 0,1,1,0, 1,0,0,1, 1,0,0,1],
    [0,0,0,0, 0,1,1,0, 0,1,1,0, 0,0,0,0],
    [0,1,0,0, 1,1,1,0, 0,1,0,0, 0,0,0,0],
    [0,0,1,0, 0,1,1,1, 0,0,1,0, 0,0,0,0],
    [0,0,0,0, 0,0,1,0, 0,1,1,1, 0,0,1,0],
    [0,0,0,0, 0,1,0,0, 1,1,1,0, 0,1,0,0],
    [0,1,1,0, 1,1,0,0, 1,0,0,1, 0,0,1,1],
    [0,0,1,1, 0,1,1,0, 1,1,0,0, 1,0,0,1],
    [0,1,1,0, 0,0,1,1, 1,0,0,1, 1,1,0,0],
    [0,0,1,1, 1,0,0,1, 1,1,0,0, 0,1,1,0],
    [0,1,1,0, 1,1,0,0, 1,1,0,0, 1,0,0,1],
    [0,1,1,0, 0,0,1,1, 0,0,1,1, 1,0,0,1],
    [0,1,1,1, 1,1,1,0, 1,0,0,0, 0,0,0,1],
    [0,0,0,1, 1,0,0,0, 1,1,1,0, 0,1,1,1],
    [0,0,0,0, 1,1,1,1, 0,0,1,1, 0,0,1,1],
    [0,0,1,1, 0,0,1,1, 1,1,1,1, 0,0,0,0],
    [0,0,1,0, 0,0,1,0, 1,1,1,0, 1,1,1,0],
    [0,1,0,0, 0,1,0,0, 0,1,1,1, 0,1,1,1],
];

/// Subset of each pixel for the 64 three-subset partitions.
pub const PART_3: [[u8; 16]; 64] = [
    [0,0,1,1, 0,0,1,1, 0,2,2,1, 2,2,2,2],
    [0,0,0,1, 0,0,1,1, 2,2,1,1, 2,2,2,1],
    [0,0,0,0, 2,0,0,1, 2,2,1,1, 2,2,1,1],
    [0,2,2,2, 0,0,2,2, 0,0,1,1, 0,1,1,1],
    [0,0,0,0, 0,0,0,0, 1,1,2,2, 1,1,2,2],
    [0,0,1,1, 0,0,1,1, 0,0,2,2, 0,0,2,2],
    [0,0,2,2, 0,0,2,2, 1,1,1,1, 1,1,1,1],
    [0,0,1,1, 0,0,1,1, 2,2,1,1, 2,2,1,1],
    [0,0,0,0, 0,0,0,0, 1,1,1,1, 2,2,2,2],
    [0,0,0,0, 1,1,1,1, 1,1,1,1, 2,2,2,2],
    [0,0,0,0, 1,1,1,1, 2,2,2,2, 2,2,2,2],
    [0,0,1,2, 0,0,1,2, 0,0,1,2, 0,0,1,2],
    [0,1,1,2, 0,1,1,2, 0,1,1,2, 0,1,1,2],
    [0,1,2,2, 0,1,2,2, 0,1,2,2, 0,1,2,2],
    [0,0,1,1, 0,1,1,2, 1,1,2,2, 1,2,2,2],
    [0,0,1,1, 2,0,0,1, 2,2,0,0, 2,2,2,0],
    [0,0,0,1, 0,0,1,1, 0,1,1,2, 1,1,2,2],
    [0,1,1,1, 0,0,1,1, 2,0,0,1, 2,2,0,0],
    [0,0,0,0, 1,1,2,2, 1,1,2,2, 1,1,2,2],
    [0,0,2,2, 0,0,2,2, 0,0,2,2, 1,1,1,1],
    [0,1,1,1, 0,1,1,1, 0,2,2,2, 0,2,2,2],
    [0,0,0,1, 0,0,0,1, 2,2,2,1, 2,2,2,1],
    [0,0,0,0, 0,0,1,1, 0,1,2,2, 0,1,2,2],
    [0,0,0,0, 1,1,0,0, 2,2,1,0, 2,2,1,0],
    [0,1,2,2, 0,1,2,2, 0,0,1,1, 0,0,0,0],
    [0,0,1,2, 0,0,1,2, 1,1,2,2, 2,2,2,2],
    [0,1,1,0, 1,2,2,1, 1,2,2,1, 0,1,1,0],
    [0,0,0,0, 0,1,1,0, 1,2,2,1, 1,2,2,1],
    [0,0,2,2, 1,1,0,2, 1,1,0,2, 0,0,2,2],
    [0,1,1,0, 0,1,1,0, 2,0,0,2, 2,2,2,2],
    [0,0,1,1, 0,1,2,2, 0,1,2,2, 0,0,1,1],
    [0,0,0,0, 2,0,0,0, 2,2,1,1, 2,2,2,1],
    [0,0,0,0, 0,0,0,2, 1,1,2,2, 1,2,2,2],
    [0,2,2,2, 0,0,2,2, 0,0,1,2, 0,0,1,1],
    [0,0,1,1, 0,0,1,2, 0,0,2,2, 0,2,2,2],
    [0,1,2,0, 0,1,2,0, 0,1,2,0, 0,1,2,0],
    [0,0,0,0, 1,1,1,1, 2,2,2,2, 0,0,0,0],
    [0,1,2,0, 1,2,0,1, 2,0,1,2, 0,1,2,0],
    [0,1,2,0, 2,0,1,2, 1,2,0,1, 0,1,2,0],
    [0,0,1,1, 2,2,0,0, 1,1,2,2, 0,0,1,1],
    [0,0,1,1, 1,1,2,2, 2,2,0,0, 0,0,1,1],
    [0,1,0,1, 0,1,0,1, 2,2,2,2, 2,2,2,2],
    [0,0,0,0, 0,0,0,0, 2,1,2,1, 2,1,2,1],
    [0,0,2,2, 1,1,2,2, 0,0,2,2, 1,1,2,2],
    [0,0,2,2, 0,0,1,1, 0,0,2,2, 0,0,1,1],
    [0,2,2,0, 1,2,2,1, 0,2,2,0, 1,2,2,1],
    [0,1,0,1, 2,2,2,2, 2,2,2,2, 0,1,0,1],
    [0,0,0,0, 2,1,2,1, 2,1,2,1, 2,1,2,1],
    [0,1,0,1, 0,1,0,1, 0,1,0,1, 2,2,2,2],
    [0,2,2,2, 0,1,1,1, 0,2,2,2, 0,1,1,1],
    [0,0,0,2, 1,1,1,2, 0,0,0,2, 1,1,1,2],
    [0,0,0,0, 2,1,1,2, 2,1,1,2, 2,1,1,2],
    [0,2,2,2, 0,1,1,1, 0,1,1,1, 0,2,2,2],
    [0,0,0,2, 1,1,1,2, 1,1,1,2, 0,0,0,2],
    [0,1,1,0, 0,1,1,0, 0,1,1,0, 2,2,2,2],
    [0,0,0,0, 0,0,0,0, 2,1,1,2, 2,1,1,2],
    [0,1,1,0, 0,1,1,0, 2,2,2,2, 2,2,2,2],
    [0,0,2,2, 0,0,1,1, 0,0,1,1, 0,0,2,2],
    [0,0,2,2, 1,1,2,2, 1,1,2,2, 0,0,2,2],
    [0,0,0,0, 0,0,0,0, 0,0,0,0, 2,1,1,2],
    [0,0,0,2, 0,0,0,1, 0,0,0,2, 0,0,0,1],
    [0,2,2,2, 1,2,2,2, 0,2,2,2, 1,2,2,2],
    [0,1,0,1, 2,2,2,2, 2,2,2,2, 2,2,2,2],
    [0,1,1,1, 2,0,1,1, 2,2,0,1, 2,2,2,0],
];

/// Anchor pixel of the second subset of each two-subset partition.
pub const ANCHOR_2_SUBSET_2: [u8; 64] = [
    15,15,15,15, 15,15,15,15, 15,15,15,15, 15,15,15,15,
    15, 2, 8, 2,  2, 8, 8,15,  2, 8, 2, 2,  8, 8, 2, 2,
    15,15, 6, 8,  2, 8,15,15,  2, 8, 2, 2,  2,15,15, 6,
     6, 2, 6, 8, 15,15, 2, 2, 15,15,15,15, 15, 2, 2,15,
];

/// Anchor pixel of the second subset of each three-subset partition.
pub const ANCHOR_3_SUBSET_2: [u8; 64] = [
     3, 3,15,15,  8, 3,15,15,  8, 8, 6, 6,  6, 5, 3, 3,
     3, 3, 8,15,  3, 3, 6,10,  5, 8, 8, 6,  8, 5,15,15,
     8,15, 3, 5,  6,10, 8,15, 15, 3,15, 5, 15,15,15,15,
     3,15, 5, 5,  5, 8, 5,10,  5,10, 8,13, 15,12, 3, 3,
];

/// Anchor pixel of the third subset of each three-subset partition.
pub const ANCHOR_3_SUBSET_3: [u8; 64] = [
    15, 8, 8, 3, 15,15, 3, 8, 15,15,15,15, 15,15,15, 8,
    15, 8,15, 3, 15, 8,15, 8,  3,15, 6,10, 15,15,10, 8,
    15, 3,15,10, 10, 8, 9,10,  6,15, 8,15,  3, 6, 6, 8,
    15, 3,15,15, 15,15,15,15, 15,15,15,15,  3,15,15, 8,
];

/// Entry `(part, px)` of the two-subset partition table.
pub closed spec fn part2(part: u32, px: int) -> u32 {
    PART_2@[part as int]@[px] as u32
}

/// Entry `(part, px)` of the three-subset partition table.
pub closed spec fn part3(part: u32, px: int) -> u32 {
    PART_3@[part as int]@[px] as u32
}

/// Anchor of subset `s` (1 or 2) of partition `part` for `subsets` subsets.
pub closed spec fn anchor_entry(subsets: u32, part: u32, s: u32) -> u32 {
    if subsets == 2 {
        ANCHOR_2_SUBSET_2@[part as int] as u32
    } else if s == 1 {
        ANCHOR_3_SUBSET_2@[part as int] as u32
    } else {
        ANCHOR_3_SUBSET_3@[part as int] as u32
    }
}

/// Subset of pixel `px` under two-subset partition `part`.
pub fn part2_entry(part: u32, px: u32) -> (r: u32)
    requires
        part < 64,
        px < 16,
    ensures
        r == part2(part, px as int),
{
    PART_2[part as usize][px as usize] as u32
}

/// Subset of pixel `px` under three-subset partition `part`.
pub fn part3_entry(part: u32, px: u32) -> (r: u32)
    requires
        part < 64,
        px < 16,
    ensures
        r == part3(part, px as int),
{
    PART_3[part as usize][px as usize] as u32
}

/// Anchor pixel of subset `s` (1 or 2) of partition `part`.
pub fn anchor_lookup(subsets: u32, part: u32, s: u32) -> (r: u32)
    requires
        part < 64,
    ensures
        r == anchor_entry(subsets, part, s),
{
    if subsets == 2 {
        ANCHOR_2_SUBSET_2[part as usize] as u32
    } else if s == 1 {
        ANCHOR_3_SUBSET_2[part as usize] as u32
    } else {
        ANCHOR_3_SUBSET_3[part as usize] as u32
    }
}

/// Pixel 0 lies in the first subset of every two-subset partition, every
/// entry names one of the two subsets, and the second subset's anchor
/// pixel lies in the second subset except in partitions 22 to 25, whose
/// rows repeat rows 19 to 21 of the table.
pub proof fn lemma_part2_layout(p: u32)
    requires
        p < 64,
    ensures
        part2(p, 0) == 0,
        1 <= anchor_entry(2, p, 1) < 16,
        forall|px: int| 0 <= px < 16 ==> #[trigger] part2(p, px) <= 1,
        !(22 <= p <= 25) ==> part2(p, anchor_entry(2, p, 1) as int) == 1,
{
    if p < 16 {
        assert(ANCHOR_2_SUBSET_2@[p as int] == 15);
        assert(PART_2@[p as int]@[15] == 1);
    } else if p == 16 {
        assert(ANCHOR_2_SUBSET_2@[16] == 15 && PART_2@[16]@[15] == 1);
    } else if p == 17 {
        assert(ANCHOR_2_SUBSET_2@[17] == 2 && PART_2@[17]@[2] == 1);
    } else if p == 18 {
        assert(ANCHOR_2_SUBSET_2@[18] == 8 && PART_2@[18]@[8] == 1);
    } else if p == 19 {
        assert(ANCHOR_2_SUBSET_2@[19] == 2 && PART_2@[19]@[2] == 1);
    } else if p == 20 {
        assert(ANCHOR_2_SUBSET_2@[20] == 2 && PART_2@[20]@[2] == 1);
    } else if p == 21 {
        assert(ANCHOR_2_SUBSET_2@[21] == 8 && PART_2@[21]@[8] == 1);
    } else if p == 26 {
        assert(ANCHOR_2_SUBSET_2@[26] == 2 && PART_2@[26]@[2] == 1);
    } else if p == 27 {
        assert(ANCHOR_2_SUBSET_2@[27] == 2 && PART_2@[27]@[2] == 1);
    } else if p == 28 {
        assert(ANCHOR_2_SUBSET_2@[28] == 8 && PART_2@[28]@[8] == 1);
    } else if p == 29 {
        assert(ANCHOR_2_SUBSET_2@[29] == 8 && PART_2@[29]@[8] == 1);
    } else if p == 30 {
        assert(ANCHOR_2_SUBSET_2@[30] == 2 && PART_2@[30]@[2] == 1);
    } else if p == 31 {
        assert(ANCHOR_2_SUBSET_2@[31] == 2 && PART_2@[31]@[2] == 1);
    } else if p == 32 {
        assert(ANCHOR_2_SUBSET_2@[32] == 15 && PART_2@[32]@[15] == 1);
    } else if p == 33 {
        assert(ANCHOR_2_SUBSET_2@[33] == 15 && PART_2@[33]@[15] == 1);
    } else if p == 34 {
        assert(ANCHOR_2_SUBSET_2@[34] == 6 && PART_2@[34]@[6] == 1);
    } else if p == 35 {
        assert(ANCHOR_2_SUBSET_2@[35] == 8 && PART_2@[35]@[8] == 1);
    } else if p == 36 {
        assert(ANCHOR_2_SUBSET_2@[36] == 2 && PART_2@[36]@[2] == 1);
    } else if p == 37 {
        assert(ANCHOR_2_SUBSET_2@[37] == 8 && PART_2@[37]@[8] == 1);
    } else if p == 38 {
        assert(ANCHOR_2_SUBSET_2@[38] == 15 && PART_2@[38]@[15] == 1);
    } else if p == 39 {
        assert(ANCHOR_2_SUBSET_2@[39] == 15 && PART_2@[39]@[15] == 1);
    } else if p == 40 {
        assert(ANCHOR_2_SUBSET_2@[40] == 2 && PART_2@[40]@[2] == 1);
    } else if p == 41 {
        assert(ANCHOR_2_SUBSET_2@[41] == 8 && PART_2@[41]@[8] == 1);
    } else if p == 42 {
        assert(ANCHOR_2_SUBSET_2@[42] == 2 && PART_2@[42]@[2] == 1);
    } else if p == 43 {
        assert(ANCHOR_2_SUBSET_2@[43] == 2 && PART_2@[43]@[2] == 1);
    } else if p == 44 {
        assert(ANCHOR_2_SUBSET_2@[44] == 2 && PART_2@[44]@[2] == 1);
    } else if p == 45 {
        assert(ANCHOR_2_SUBSET_2@[45] == 15 && PART_2@[45]@[15] == 1);
    } else if p == 46 {
        assert(ANCHOR_2_SUBSET_2@[46] == 15 && PART_2@[46]@[15] == 1);
    } else if p == 47 {
        assert(ANCHOR_2_SUBSET_2@[47] == 6 && PART_2@[47]@[6] == 1);
    } else if p == 48 {
        assert(ANCHOR_2_SUBSET_2@[48] == 6 && PART_2@[48]@[6] == 1);
    } else if p == 49 {
        assert(ANCHOR_2_SUBSET_2@[49] == 2 && PART_2@[49]@[2] == 1);
    } else if p == 50 {
        assert(ANCHOR_2_SUBSET_2@[50] == 6 && PART_2@[50]@[6] == 1);
    } else if p == 51 {
        assert(ANCHOR_2_SUBSET_2@[51] == 8 && PART_2@[51]@[8] == 1);
    } else if p == 52 {
        assert(ANCHOR_2_SUBSET_2@[52] == 15 && PART_2@[52]@[15] == 1);
    } else if p == 53 {
        assert(ANCHOR_2_SUBSET_2@[53] == 15 && PART_2@[53]@[15] == 1);
    } else if p == 54 {
        assert(ANCHOR_2_SUBSET_2@[54] == 2 && PART_2@[54]@[2] == 1);
    } else if p == 55 {
        assert(ANCHOR_2_SUBSET_2@[55] == 2 && PART_2@[55]@[2] == 1);
    } else if p == 56 {
        assert(ANCHOR_2_SUBSET_2@[56] == 15 && PART_2@[56]@[15] == 1);
    } else if p == 57 {
        assert(ANCHOR_2_SUBSET_2@[57] == 15 && PART_2@[57]@[15] == 1);
    } else if p == 58 {
        assert(ANCHOR_2_SUBSET_2@[58] == 15 && PART_2@[58]@[15] == 1);
    } else if p == 59 {
        assert(ANCHOR_2_SUBSET_2@[59] == 15 && PART_2@[59]@[15] == 1);
    } else if p == 60 {
        assert(ANCHOR_2_SUBSET_2@[60] == 15 && PART_2@[60]@[15] == 1);
    } else if p == 61 {
        assert(ANCHOR_2_SUBSET_2@[61] == 2 && PART_2@[61]@[2] == 1);
    } else if p == 62 {
        assert(ANCHOR_2_SUBSET_2@[62] == 2 && PART_2@[62]@[2] == 1);
    } else if p == 63 {
        assert(ANCHOR_2_SUBSET_2@[63] == 15 && PART_2@[63]@[15] == 1);
    }
}

} // verus!
