//! Inverse remapping of coded probability deltas onto probabilities.
use vstd::prelude::*;

verus! {

/// Maps a decoded delta index to the recentered distance it stands for.
pub const INV_MAP_TABLE: [u8; 255] = [
    7, 20, 33, 46, 59, 72, 85, 98, 111, 124, 137, 150, 163, 176, 189,
    202, 215, 228, 241, 254, 1, 2, 3, 4, 5, 6, 8, 9, 10, 11,
    12, 13, 14, 15, 16, 17, 18, 19, 21, 22, 23, 24, 25, 26, 27,
    28, 29, 30, 31, 32, 34, 35, 36, 37, 38, 39, 40, 41, 42, 43,
    44, 45, 47, 48, 49, 50, 51, 52, 53, 54, 55, 56, 57, 58, 60,
    61, 62, 63, 64, 65, 66, 67, 68, 69, 70, 71, 73, 74, 75, 76,
    77, 78, 79, 80, 81, 82, 83, 84, 86, 87, 88, 89, 90, 91, 92,
    93, 94, 95, 96, 97, 99, 100, 101, 102, 103, 104, 105, 106, 107, 108,
    109, 110, 112, 113, 114, 115, 116, 117, 118, 119, 120, 121, 122, 123, 125,
    126, 127, 128, 129, 130, 131, 132, 133, 134, 135, 136, 138, 139, 140, 141,
    142, 143, 144, 145, 146, 147, 148, 149, 151, 152, 153, 154, 155, 156, 157,
    158, 159, 160, 161, 162, 164, 165, 166, 167, 168, 169, 170, 171, 172, 173,
    174, 175, 177, 178, 179, 180, 181, 182, 183, 184, 185, 186, 187, 188, 190,
    191, 192, 193, 194, 195, 196, 197, 198, 199, 200, 201, 203, 204, 205, 206,
    207, 208, 209, 210, 211, 212, 213, 214, 216, 217, 218, 219, 220, 221, 222,
    223, 224, 225, 226, 227, 229, 230, 231, 232, 233, 234, 235, 236, 237, 238,
    239, 240, 242, 243, 244, 245, 246, 247, 248, 249, 250, 251, 252, 253, 253,
];

/// Undoes the recentering of `v` around `m`: distances at most `2 * m` alternate
/// below and above `m` (odd below, even above), larger ones stand for themselves.
pub open spec fn inv_recenter(v: int, m: int) -> int {
    if v > 2 * m {
        v
    } else if v % 2 == 1 {
        m - (v + 1) / 2
    } else {
        m + v / 2
    }
}

/// The probability that delta index `delta` stands for when the previous probability
/// is `prob`: recentered around `prob` in the lower half, around `255 - prob` from the
/// top in the upper half.
pub open spec fn inv_remap(delta: int, prob: int) -> int {
    let v = INV_MAP_TABLE@[delta] as int;
    if 2 * prob <= 255 {
        inv_recenter(v, prob) + 1
    } else {
        255 - inv_recenter(v, 254 - prob)
    }
}

/// Every entry of the table is a distance between 1 and 254.
pub proof fn lemma_inv_map_table_bounds()
    ensures
        forall|i: int| 0 <= i < 255 ==> 1 <= #[trigger] INV_MAP_TABLE@[i] <= 254,
{
    assert(INV_MAP_TABLE@ =~= seq![
    7, 20, 33, 46, 59, 72, 85, 98, 111, 124, 137, 150, 163, 176, 189,
    202, 215, 228, 241, 254, 1, 2, 3, 4, 5, 6, 8, 9, 10, 11,
    12, 13, 14, 15, 16, 17, 18, 19, 21, 22, 23, 24, 25, 26, 27,
    28, 29, 30, 31, 32, 34, 35, 36, 37, 38, 39, 40, 41, 42, 43,
    44, 45, 47, 48, 49, 50, 51, 52, 53, 54, 55, 56, 57, 58, 60,
    61, 62, 63, 64, 65, 66, 67, 68, 69, 70, 71, 73, 74, 75, 76,
    77, 78, 79, 80, 81, 82, 83, 84, 86, 87, 88, 89, 90, 91, 92,
    93, 94, 95, 96, 97, 99, 100, 101, 102, 103, 104, 105, 106, 107, 108,
    109, 110, 112, 113, 114, 115, 116, 117, 118, 119, 120, 121, 122, 123, 125,
    126, 127, 128, 129, 130, 131, 132, 133, 134, 135, 136, 138, 139, 140, 141,
    142, 143, 144, 145, 146, 147, 148, 149, 151, 152, 153, 154, 155, 156, 157,
    158, 159, 160, 161, 162, 164, 165, 166, 167, 168, 169, 170, 171, 172, 173,
    174, 175, 177, 178, 179, 180, 181, 182, 183, 184, 185, 186, 187, 188, 190,
    191, 192, 193, 194, 195, 196, 197, 198, 199, 200, 201, 203, 204, 205, 206,
    207, 208, 209, 210, 211, 212, 213, 214, 216, 217, 218, 219, 220, 221, 222,
    223, 224, 225, 226, 227, 229, 230, 231, 232, 233, 234, 235, 236, 237, 238,
    239, 240, 242, 243, 244, 245, 246, 247, 248, 249, 250, 251, 252, 253, 253,
    ]);
}

/// Undoes the recentering of `v` around `m`.
pub fn inv_recenter_nonneg(v: i16, m: i16) -> (r: i16)
    requires
        -16384 <= m <= 16383,
    ensures
        r == inv_recenter(v as int, m as int),
{
    assert((v & 1 == 1) == (v % 2 == 1)) by (bit_vector);
    if v > 2 * m {
        v
    } else if v & 1 == 1 {
        let w: i16 = v + 1;
        assert(w >> 1 == w / 2) by (bit_vector);
        m - (w >> 1)
    } else {
        assert(v >> 1 == v / 2) by (bit_vector);
        m + (v >> 1)
    }
}

/// The probability that delta index `delta_prob` stands for when the previous
/// probability is `prob`; always between 1 and 255.
pub fn inv_remap_prob(delta_prob: u8, prob: u8) -> (r: u8)
    requires
        delta_prob < 255,
    ensures
        r as int == inv_remap(delta_prob as int, prob as int),
        1 <= r,
{
    proof {
        lemma_inv_map_table_bounds();
    }
    let v = INV_MAP_TABLE[delta_prob as usize] as i16;
    let p = prob as i16;
    assert(p << 1 == 2 * p) by (bit_vector)
        requires
            0 <= p <= 255,
    ;
    let m = if (p << 1) <= 255 {
        inv_recenter_nonneg(v, p) + 1
    } else {
        255 - inv_recenter_nonneg(v, 255 - 1 - p)
    };
    m as u8
}

} // verus!
