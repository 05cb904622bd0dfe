use crate::types::level_rank_s;
use crate::types::EcLevel;
use crate::types::SegMode;
use vstd::prelude::*;

verus! {

/// Side length in modules of a symbol of version `v`.
pub open spec fn side_s(v: usize) -> int {
    4 * v + 17
}

/// Error-correction block structure of a version at a level, as the
/// standard's block table gives it: error-correction codewords per block,
/// then the count and data size of the first block group, then the count and
/// data size of the second block group.
pub open spec fn block_table_s(v: usize, l: EcLevel) -> (usize, usize, usize, usize, usize) {
    match l {
        EcLevel::Low => match v {
            1 => (7, 1, 19, 0, 0),
            2 => (10, 1, 34, 0, 0),
            3 => (15, 1, 55, 0, 0),
            4 => (20, 1, 80, 0, 0),
            5 => (26, 1, 108, 0, 0),
            6 => (18, 2, 68, 0, 0),
            7 => (20, 2, 78, 0, 0),
            8 => (24, 2, 97, 0, 0),
            9 => (30, 2, 116, 0, 0),
            10 => (18, 2, 68, 2, 69),
            11 => (20, 4, 81, 0, 0),
            12 => (24, 2, 92, 2, 93),
            13 => (26, 4, 107, 0, 0),
            14 => (30, 3, 115, 1, 116),
            15 => (22, 5, 87, 1, 88),
            16 => (24, 5, 98, 1, 99),
            17 => (28, 1, 107, 5, 108),
            18 => (30, 5, 120, 1, 121),
            19 => (28, 3, 113, 4, 114),
            20 => (28, 3, 107, 5, 108),
            21 => (28, 4, 116, 4, 117),
            22 => (28, 2, 111, 7, 112),
            23 => (30, 4, 121, 5, 122),
            24 => (30, 6, 117, 4, 118),
            25 => (26, 8, 106, 4, 107),
            26 => (28, 10, 114, 2, 115),
            27 => (30, 8, 122, 4, 123),
            28 => (30, 3, 117, 10, 118),
            29 => (30, 7, 116, 7, 117),
            30 => (30, 5, 115, 10, 116),
            31 => (30, 13, 115, 3, 116),
            32 => (30, 17, 115, 0, 0),
            33 => (30, 17, 115, 1, 116),
            34 => (30, 13, 115, 6, 116),
            35 => (30, 12, 121, 7, 122),
            36 => (30, 6, 121, 14, 122),
            37 => (30, 17, 122, 4, 123),
            38 => (30, 4, 122, 18, 123),
            39 => (30, 20, 117, 4, 118),
            40 => (30, 19, 118, 6, 119),
            _ => (0, 0, 0, 0, 0),
        },
        EcLevel::Medium => match v {
            1 => (10, 1, 16, 0, 0),
            2 => (16, 1, 28, 0, 0),
            3 => (26, 1, 44, 0, 0),
            4 => (18, 2, 32, 0, 0),
            5 => (24, 2, 43, 0, 0),
            6 => (16, 4, 27, 0, 0),
            7 => (18, 4, 31, 0, 0),
            8 => (22, 2, 38, 2, 39),
            9 => (22, 3, 36, 2, 37),
            10 => (26, 4, 43, 1, 44),
            11 => (30, 1, 50, 4, 51),
            12 => (22, 6, 36, 2, 37),
            13 => (22, 8, 37, 1, 38),
            14 => (24, 4, 40, 5, 41),
            15 => (24, 5, 41, 5, 42),
            16 => (28, 7, 45, 3, 46),
            17 => (28, 10, 46, 1, 47),
            18 => (26, 9, 43, 4, 44),
            19 => (26, 3, 44, 11, 45),
            20 => (26, 3, 41, 13, 42),
            21 => (26, 17, 42, 0, 0),
            22 => (28, 17, 46, 0, 0),
            23 => (28, 4, 47, 14, 48),
            24 => (28, 6, 45, 14, 46),
            25 => (28, 8, 47, 13, 48),
            26 => (28, 19, 46, 4, 47),
            27 => (28, 22, 45, 3, 46),
            28 => (28, 3, 45, 23, 46),
            29 => (28, 21, 45, 7, 46),
            30 => (28, 19, 47, 10, 48),
            31 => (28, 2, 46, 29, 47),
            32 => (28, 10, 46, 23, 47),
            33 => (28, 14, 46, 21, 47),
            34 => (28, 14, 46, 23, 47),
            35 => (28, 12, 47, 26, 48),
            36 => (28, 6, 47, 34, 48),
            37 => (28, 29, 46, 14, 47),
            38 => (28, 13, 46, 32, 47),
            39 => (28, 40, 47, 7, 48),
            40 => (28, 18, 47, 31, 48),
            _ => (0, 0, 0, 0, 0),
        },
        EcLevel::Quartile => match v {
            1 => (13, 1, 13, 0, 0),
            2 => (22, 1, 22, 0, 0),
            3 => (18, 2, 17, 0, 0),
            4 => (26, 2, 24, 0, 0),
            5 => (18, 2, 15, 2, 16),
            6 => (24, 4, 19, 0, 0),
            7 => (18, 2, 14, 4, 15),
            8 => (22, 4, 18, 2, 19),
            9 => (20, 4, 16, 4, 17),
            10 => (24, 6, 19, 2, 20),
            11 => (28, 4, 22, 4, 23),
            12 => (26, 4, 20, 6, 21),
            13 => (24, 8, 20, 4, 21),
            14 => (20, 11, 16, 5, 17),
            15 => (30, 5, 24, 7, 25),
            16 => (24, 15, 19, 2, 20),
            17 => (28, 1, 22, 15, 23),
            18 => (28, 17, 22, 1, 23),
            19 => (26, 17, 21, 4, 22),
            20 => (30, 15, 24, 5, 25),
            21 => (28, 17, 22, 6, 23),
            22 => (30, 7, 24, 16, 25),
            23 => (30, 11, 24, 14, 25),
            24 => (30, 11, 24, 16, 25),
            25 => (30, 7, 24, 22, 25),
            26 => (28, 28, 22, 6, 23),
            27 => (30, 8, 23, 26, 24),
            28 => (30, 4, 24, 31, 25),
            29 => (30, 1, 23, 37, 24),
            30 => (30, 15, 24, 25, 25),
            31 => (30, 42, 24, 1, 25),
            32 => (30, 10, 24, 35, 25),
            33 => (30, 29, 24, 19, 25),
            34 => (30, 44, 24, 7, 25),
            35 => (30, 39, 24, 14, 25),
            36 => (30, 46, 24, 10, 25),
            37 => (30, 49, 24, 10, 25),
            38 => (30, 48, 24, 14, 25),
            39 => (30, 43, 24, 22, 25),
            40 => (30, 34, 24, 34, 25),
            _ => (0, 0, 0, 0, 0),
        },
        EcLevel::High => match v {
            1 => (17, 1, 9, 0, 0),
            2 => (28, 1, 16, 0, 0),
            3 => (22, 2, 13, 0, 0),
            4 => (16, 4, 9, 0, 0),
            5 => (22, 2, 11, 2, 12),
            6 => (28, 4, 15, 0, 0),
            7 => (26, 4, 13, 1, 14),
            8 => (26, 4, 14, 2, 15),
            9 => (24, 4, 12, 4, 13),
            10 => (28, 6, 15, 2, 16),
            11 => (24, 3, 12, 8, 13),
            12 => (28, 7, 14, 4, 15),
            13 => (22, 12, 11, 4, 12),
            14 => (24, 11, 12, 5, 13),
            15 => (24, 11, 12, 7, 13),
            16 => (30, 3, 15, 13, 16),
            17 => (28, 2, 14, 17, 15),
            18 => (28, 2, 14, 19, 15),
            19 => (26, 9, 13, 16, 14),
            20 => (28, 15, 15, 10, 16),
            21 => (30, 19, 16, 6, 17),
            22 => (24, 34, 13, 0, 0),
            23 => (30, 16, 15, 14, 16),
            24 => (30, 30, 16, 2, 17),
            25 => (30, 22, 15, 13, 16),
            26 => (30, 33, 16, 4, 17),
            27 => (30, 12, 15, 28, 16),
            28 => (30, 11, 15, 31, 16),
            29 => (30, 19, 15, 26, 16),
            30 => (30, 23, 15, 25, 16),
            31 => (30, 23, 15, 28, 16),
            32 => (30, 19, 15, 35, 16),
            33 => (30, 11, 15, 46, 16),
            34 => (30, 59, 16, 1, 17),
            35 => (30, 22, 15, 41, 16),
            36 => (30, 2, 15, 64, 16),
            37 => (30, 24, 15, 46, 16),
            38 => (30, 42, 15, 32, 16),
            39 => (30, 10, 15, 67, 16),
            40 => (30, 20, 15, 61, 16),
            _ => (0, 0, 0, 0, 0),
        },
    }
}

/// Executable copy of the block table.
pub fn block_table(v: usize, l: EcLevel) -> (r: (usize, usize, usize, usize, usize))
    ensures
        r == block_table_s(v, l),
{
    match l {
        EcLevel::Low => match v {
            1 => (7, 1, 19, 0, 0),
            2 => (10, 1, 34, 0, 0),
            3 => (15, 1, 55, 0, 0),
            4 => (20, 1, 80, 0, 0),
            5 => (26, 1, 108, 0, 0),
            6 => (18, 2, 68, 0, 0),
            7 => (20, 2, 78, 0, 0),
            8 => (24, 2, 97, 0, 0),
            9 => (30, 2, 116, 0, 0),
            10 => (18, 2, 68, 2, 69),
            11 => (20, 4, 81, 0, 0),
            12 => (24, 2, 92, 2, 93),
            13 => (26, 4, 107, 0, 0),
            14 => (30, 3, 115, 1, 116),
            15 => (22, 5, 87, 1, 88),
            16 => (24, 5, 98, 1, 99),
            17 => (28, 1, 107, 5, 108),
            18 => (30, 5, 120, 1, 121),
            19 => (28, 3, 113, 4, 114),
            20 => (28, 3, 107, 5, 108),
            21 => (28, 4, 116, 4, 117),
            22 => (28, 2, 111, 7, 112),
            23 => (30, 4, 121, 5, 122),
            24 => (30, 6, 117, 4, 118),
            25 => (26, 8, 106, 4, 107),
            26 => (28, 10, 114, 2, 115),
            27 => (30, 8, 122, 4, 123),
            28 => (30, 3, 117, 10, 118),
            29 => (30, 7, 116, 7, 117),
            30 => (30, 5, 115, 10, 116),
            31 => (30, 13, 115, 3, 116),
            32 => (30, 17, 115, 0, 0),
            33 => (30, 17, 115, 1, 116),
            34 => (30, 13, 115, 6, 116),
            35 => (30, 12, 121, 7, 122),
            36 => (30, 6, 121, 14, 122),
            37 => (30, 17, 122, 4, 123),
            38 => (30, 4, 122, 18, 123),
            39 => (30, 20, 117, 4, 118),
            40 => (30, 19, 118, 6, 119),
            _ => (0, 0, 0, 0, 0),
        },
        EcLevel::Medium => match v {
            1 => (10, 1, 16, 0, 0),
            2 => (16, 1, 28, 0, 0),
            3 => (26, 1, 44, 0, 0),
            4 => (18, 2, 32, 0, 0),
            5 => (24, 2, 43, 0, 0),
            6 => (16, 4, 27, 0, 0),
            7 => (18, 4, 31, 0, 0),
            8 => (22, 2, 38, 2, 39),
            9 => (22, 3, 36, 2, 37),
            10 => (26, 4, 43, 1, 44),
            11 => (30, 1, 50, 4, 51),
            12 => (22, 6, 36, 2, 37),
            13 => (22, 8, 37, 1, 38),
            14 => (24, 4, 40, 5, 41),
            15 => (24, 5, 41, 5, 42),
            16 => (28, 7, 45, 3, 46),
            17 => (28, 10, 46, 1, 47),
            18 => (26, 9, 43, 4, 44),
            19 => (26, 3, 44, 11, 45),
            20 => (26, 3, 41, 13, 42),
            21 => (26, 17, 42, 0, 0),
            22 => (28, 17, 46, 0, 0),
            23 => (28, 4, 47, 14, 48),
            24 => (28, 6, 45, 14, 46),
            25 => (28, 8, 47, 13, 48),
            26 => (28, 19, 46, 4, 47),
            27 => (28, 22, 45, 3, 46),
            28 => (28, 3, 45, 23, 46),
            29 => (28, 21, 45, 7, 46),
            30 => (28, 19, 47, 10, 48),
            31 => (28, 2, 46, 29, 47),
            32 => (28, 10, 46, 23, 47),
            33 => (28, 14, 46, 21, 47),
            34 => (28, 14, 46, 23, 47),
            35 => (28, 12, 47, 26, 48),
            36 => (28, 6, 47, 34, 48),
            37 => (28, 29, 46, 14, 47),
            38 => (28, 13, 46, 32, 47),
            39 => (28, 40, 47, 7, 48),
            40 => (28, 18, 47, 31, 48),
            _ => (0, 0, 0, 0, 0),
        },
        EcLevel::Quartile => match v {
            1 => (13, 1, 13, 0, 0),
            2 => (22, 1, 22, 0, 0),
            3 => (18, 2, 17, 0, 0),
            4 => (26, 2, 24, 0, 0),
            5 => (18, 2, 15, 2, 16),
            6 => (24, 4, 19, 0, 0),
            7 => (18, 2, 14, 4, 15),
            8 => (22, 4, 18, 2, 19),
            9 => (20, 4, 16, 4, 17),
            10 => (24, 6, 19, 2, 20),
            11 => (28, 4, 22, 4, 23),
            12 => (26, 4, 20, 6, 21),
            13 => (24, 8, 20, 4, 21),
            14 => (20, 11, 16, 5, 17),
            15 => (30, 5, 24, 7, 25),
            16 => (24, 15, 19, 2, 20),
            17 => (28, 1, 22, 15, 23),
            18 => (28, 17, 22, 1, 23),
            19 => (26, 17, 21, 4, 22),
            20 => (30, 15, 24, 5, 25),
            21 => (28, 17, 22, 6, 23),
            22 => (30, 7, 24, 16, 25),
            23 => (30, 11, 24, 14, 25),
            24 => (30, 11, 24, 16, 25),
            25 => (30, 7, 24, 22, 25),
            26 => (28, 28, 22, 6, 23),
            27 => (30, 8, 23, 26, 24),
            28 => (30, 4, 24, 31, 25),
            29 => (30, 1, 23, 37, 24),
            30 => (30, 15, 24, 25, 25),
            31 => (30, 42, 24, 1, 25),
            32 => (30, 10, 24, 35, 25),
            33 => (30, 29, 24, 19, 25),
            34 => (30, 44, 24, 7, 25),
            35 => (30, 39, 24, 14, 25),
            36 => (30, 46, 24, 10, 25),
            37 => (30, 49, 24, 10, 25),
            38 => (30, 48, 24, 14, 25),
            39 => (30, 43, 24, 22, 25),
            40 => (30, 34, 24, 34, 25),
            _ => (0, 0, 0, 0, 0),
        },
        EcLevel::High => match v {
            1 => (17, 1, 9, 0, 0),
            2 => (28, 1, 16, 0, 0),
            3 => (22, 2, 13, 0, 0),
            4 => (16, 4, 9, 0, 0),
            5 => (22, 2, 11, 2, 12),
            6 => (28, 4, 15, 0, 0),
            7 => (26, 4, 13, 1, 14),
            8 => (26, 4, 14, 2, 15),
            9 => (24, 4, 12, 4, 13),
            10 => (28, 6, 15, 2, 16),
            11 => (24, 3, 12, 8, 13),
            12 => (28, 7, 14, 4, 15),
            13 => (22, 12, 11, 4, 12),
            14 => (24, 11, 12, 5, 13),
            15 => (24, 11, 12, 7, 13),
            16 => (30, 3, 15, 13, 16),
            17 => (28, 2, 14, 17, 15),
            18 => (28, 2, 14, 19, 15),
            19 => (26, 9, 13, 16, 14),
            20 => (28, 15, 15, 10, 16),
            21 => (30, 19, 16, 6, 17),
            22 => (24, 34, 13, 0, 0),
            23 => (30, 16, 15, 14, 16),
            24 => (30, 30, 16, 2, 17),
            25 => (30, 22, 15, 13, 16),
            26 => (30, 33, 16, 4, 17),
            27 => (30, 12, 15, 28, 16),
            28 => (30, 11, 15, 31, 16),
            29 => (30, 19, 15, 26, 16),
            30 => (30, 23, 15, 25, 16),
            31 => (30, 23, 15, 28, 16),
            32 => (30, 19, 15, 35, 16),
            33 => (30, 11, 15, 46, 16),
            34 => (30, 59, 16, 1, 17),
            35 => (30, 22, 15, 41, 16),
            36 => (30, 2, 15, 64, 16),
            37 => (30, 24, 15, 46, 16),
            38 => (30, 42, 15, 32, 16),
            39 => (30, 10, 15, 67, 16),
            40 => (30, 20, 15, 61, 16),
            _ => (0, 0, 0, 0, 0),
        },
    }
}
/// Number of data codewords a symbol of version `v` at level `l` carries.
pub open spec fn data_codewords_s(v: usize, l: EcLevel) -> int {
    let t = block_table_s(v, l);
    t.1 * t.2 + t.3 * t.4
}

/// Number of data bits a symbol of version `v` at level `l` carries.
pub open spec fn data_bits_s(v: usize, l: EcLevel) -> int {
    8 * data_codewords_s(v, l)
}

/// Bounds that every entry of the block table obeys; they keep all later
/// codeword arithmetic inside `usize`.
#[verifier::rlimit(100)]
pub proof fn lemma_block_table_bounds(v: usize, l: EcLevel)
    requires
        1 <= v <= 40,
    ensures
        7 <= block_table_s(v, l).0 <= 30,
        1 <= block_table_s(v, l).1,
        block_table_s(v, l).1 + block_table_s(v, l).3 <= 81,
        1 <= block_table_s(v, l).2 <= 123,
        block_table_s(v, l).4 <= 123,
        block_table_s(v, l).3 > 0 ==> block_table_s(v, l).4 == block_table_s(v, l).2 + 1,
        1 <= data_codewords_s(v, l) <= 9963,
{
    let t = block_table_s(v, l);
    assert(1 <= t.1 * t.2 + t.3 * t.4 <= 81 * 123) by (nonlinear_arith)
        requires
            1 <= t.1,
            1 <= t.2 <= 123,
            0 <= t.3,
            0 <= t.4 <= 123,
            t.1 + t.3 <= 81,
    ;
}

/// Executable data codeword count.
pub fn data_codewords(v: usize, l: EcLevel) -> (r: usize)
    requires
        1 <= v <= 40,
    ensures
        r == data_codewords_s(v, l),
{
    proof {
        lemma_block_table_bounds(v, l);
    }
    let t = block_table(v, l);
    t.1 * t.2 + t.3 * t.4
}

/// Width in bits of the character count field for a mode at a version.
pub open spec fn cc_bits_s(m: SegMode, v: usize) -> usize {
    match m {
        SegMode::Numeric => if v <= 9 { 10 } else if v <= 26 { 12 } else { 14 },
        SegMode::Alphanumeric => if v <= 9 { 9 } else if v <= 26 { 11 } else { 13 },
        SegMode::Byte => if v <= 9 { 8 } else { 16 },
    }
}

/// Executable copy of `cc_bits_s`.
pub fn cc_bits(m: SegMode, v: usize) -> (r: usize)
    ensures
        r == cc_bits_s(m, v),
{
    match m {
        SegMode::Numeric => if v <= 9 { 10 } else if v <= 26 { 12 } else { 14 },
        SegMode::Alphanumeric => if v <= 9 { 9 } else if v <= 26 { 11 } else { 13 },
        SegMode::Byte => if v <= 9 { 8 } else { 16 },
    }
}

/// Four-bit mode indicator that opens a segment.
pub open spec fn mode_indicator_s(m: SegMode) -> u32 {
    match m {
        SegMode::Numeric => 1,
        SegMode::Alphanumeric => 2,
        SegMode::Byte => 4,
    }
}

/// Executable copy of `mode_indicator_s`.
pub fn mode_indicator(m: SegMode) -> (r: u32)
    ensures
        r == mode_indicator_s(m),
{
    match m {
        SegMode::Numeric => 1,
        SegMode::Alphanumeric => 2,
        SegMode::Byte => 4,
    }
}

/// How many alignment pattern centers lie on one axis of version `v`.
pub open spec fn align_count_s(v: usize) -> int {
    if v == 1 { 0 } else { v / 7 + 2 }
}

/// Gap between consecutive alignment centers of version `v`; the first gap
/// (after the fixed center at 6) absorbs what rounding leaves over.
pub open spec fn align_step_s(v: usize) -> int {
    if v < 7 {
        4 * v + 4
    } else {
        match v {
            7 => 16, 8 => 18, 9 => 20, 10 => 22, 11 => 24, 12 => 26, 13 => 28,
            14 => 20, 15 => 22, 16 => 24, 17 => 24, 18 => 26, 19 => 28, 20 => 28,
            21 => 22, 22 => 24, 23 => 24, 24 => 26, 25 => 26, 26 => 28, 27 => 28,
            28 => 24, 29 => 24, 30 => 26, 31 => 26, 32 => 26, 33 => 28, 34 => 28,
            35 => 24, 36 => 26, 37 => 26, 38 => 26, 39 => 28, _ => 28,
        }
    }
}

/// Whether `x` is the axis coordinate of some alignment pattern center of
/// version `v`: 6, the last coordinate `4v + 10`, or one of the evenly
/// stepped coordinates between the second and the last.
pub open spec fn is_align_coord_s(v: usize, x: int) -> bool {
    let last = 4 * v + 10;
    let second = last - (align_count_s(v) - 2) * align_step_s(v);
    v >= 2 && (x == 6 || x == last || (second <= x < last && (x - second) % align_step_s(v)
        == 0))
}

/// Executable test of `is_align_coord_s`.
pub fn is_align_coord(v: usize, x: usize) -> (r: bool)
    requires
        1 <= v <= 40,
    ensures
        r == is_align_coord_s(v, x as int),
{
    if v < 2 {
        return false;
    }
    let last: usize = 4 * v + 10;
    let count: usize = v / 7 + 2;
    let step: usize = if v < 7 {
        4 * v + 4
    } else {
        match v {
            7 => 16, 8 => 18, 9 => 20, 10 => 22, 11 => 24, 12 => 26, 13 => 28,
            14 => 20, 15 => 22, 16 => 24, 17 => 24, 18 => 26, 19 => 28, 20 => 28,
            21 => 22, 22 => 24, 23 => 24, 24 => 26, 25 => 26, 26 => 28, 27 => 28,
            28 => 24, 29 => 24, 30 => 26, 31 => 26, 32 => 26, 33 => 28, 34 => 28,
            35 => 24, 36 => 26, 37 => 26, 38 => 26, 39 => 28, _ => 28,
        }
    };
    let cm2: usize = count - 2;
    assert(7 * cm2 <= v);
    assert(cm2 * step <= 4 * v) by (nonlinear_arith)
        requires
            step <= 28,
            7 * cm2 <= v,
            0 <= cm2,
            0 <= step,
    ;
    let span: usize = cm2 * step;
    let second: usize = last - span;
    x == 6 || x == last || (second <= x && x < last && (x - second) % step == 0)
}

/// A level that demands fewer error-correction codewords leaves more data
/// codewords at every version.
#[verifier::rlimit(100)]
pub proof fn lemma_dc_level_mono(v: usize, lo: EcLevel, hi: EcLevel)
    requires
        1 <= v <= 40,
        level_rank_s(lo) <= level_rank_s(hi),
    ensures
        data_codewords_s(v, lo) >= data_codewords_s(v, hi),
{
    if v == 1 {
        assert(data_codewords_s(v, EcLevel::Low) == 19);
        assert(data_codewords_s(v, EcLevel::Medium) == 16);
        assert(data_codewords_s(v, EcLevel::Quartile) == 13);
        assert(data_codewords_s(v, EcLevel::High) == 9);
    } else if v == 2 {
        assert(data_codewords_s(v, EcLevel::Low) == 34);
        assert(data_codewords_s(v, EcLevel::Medium) == 28);
        assert(data_codewords_s(v, EcLevel::Quartile) == 22);
        assert(data_codewords_s(v, EcLevel::High) == 16);
    } else if v == 3 {
        assert(data_codewords_s(v, EcLevel::Low) == 55);
        assert(data_codewords_s(v, EcLevel::Medium) == 44);
        assert(data_codewords_s(v, EcLevel::Quartile) == 34);
        assert(data_codewords_s(v, EcLevel::High) == 26);
    } else if v == 4 {
        assert(data_codewords_s(v, EcLevel::Low) == 80);
        assert(data_codewords_s(v, EcLevel::Medium) == 64);
        assert(data_codewords_s(v, EcLevel::Quartile) == 48);
        assert(data_codewords_s(v, EcLevel::High) == 36);
    } else if v == 5 {
        assert(data_codewords_s(v, EcLevel::Low) == 108);
        assert(data_codewords_s(v, EcLevel::Medium) == 86);
        assert(data_codewords_s(v, EcLevel::Quartile) == 62);
        assert(data_codewords_s(v, EcLevel::High) == 46);
    } else if v == 6 {
        assert(data_codewords_s(v, EcLevel::Low) == 136);
        assert(data_codewords_s(v, EcLevel::Medium) == 108);
        assert(data_codewords_s(v, EcLevel::Quartile) == 76);
        assert(data_codewords_s(v, EcLevel::High) == 60);
    } else if v == 7 {
        assert(data_codewords_s(v, EcLevel::Low) == 156);
        assert(data_codewords_s(v, EcLevel::Medium) == 124);
        assert(data_codewords_s(v, EcLevel::Quartile) == 88);
        assert(data_codewords_s(v, EcLevel::High) == 66);
    } else if v == 8 {
        assert(data_codewords_s(v, EcLevel::Low) == 194);
        assert(data_codewords_s(v, EcLevel::Medium) == 154);
        assert(data_codewords_s(v, EcLevel::Quartile) == 110);
        assert(data_codewords_s(v, EcLevel::High) == 86);
    } else if v == 9 {
        assert(data_codewords_s(v, EcLevel::Low) == 232);
        assert(data_codewords_s(v, EcLevel::Medium) == 182);
        assert(data_codewords_s(v, EcLevel::Quartile) == 132);
        assert(data_codewords_s(v, EcLevel::High) == 100);
    } else if v == 10 {
        assert(data_codewords_s(v, EcLevel::Low) == 274);
        assert(data_codewords_s(v, EcLevel::Medium) == 216);
        assert(data_codewords_s(v, EcLevel::Quartile) == 154);
        assert(data_codewords_s(v, EcLevel::High) == 122);
    } else if v == 11 {
        assert(data_codewords_s(v, EcLevel::Low) == 324);
        assert(data_codewords_s(v, EcLevel::Medium) == 254);
        assert(data_codewords_s(v, EcLevel::Quartile) == 180);
        assert(data_codewords_s(v, EcLevel::High) == 140);
    } else if v == 12 {
        assert(data_codewords_s(v, EcLevel::Low) == 370);
        assert(data_codewords_s(v, EcLevel::Medium) == 290);
        assert(data_codewords_s(v, EcLevel::Quartile) == 206);
        assert(data_codewords_s(v, EcLevel::High) == 158);
    } else if v == 13 {
        assert(data_codewords_s(v, EcLevel::Low) == 428);
        assert(data_codewords_s(v, EcLevel::Medium) == 334);
        assert(data_codewords_s(v, EcLevel::Quartile) == 244);
        assert(data_codewords_s(v, EcLevel::High) == 180);
    } else if v == 14 {
        assert(data_codewords_s(v, EcLevel::Low) == 461);
        assert(data_codewords_s(v, EcLevel::Medium) == 365);
        assert(data_codewords_s(v, EcLevel::Quartile) == 261);
        assert(data_codewords_s(v, EcLevel::High) == 197);
    } else if v == 15 {
        assert(data_codewords_s(v, EcLevel::Low) == 523);
        assert(data_codewords_s(v, EcLevel::Medium) == 415);
        assert(data_codewords_s(v, EcLevel::Quartile) == 295);
        assert(data_codewords_s(v, EcLevel::High) == 223);
    } else if v == 16 {
        assert(data_codewords_s(v, EcLevel::Low) == 589);
        assert(data_codewords_s(v, EcLevel::Medium) == 453);
        assert(data_codewords_s(v, EcLevel::Quartile) == 325);
        assert(data_codewords_s(v, EcLevel::High) == 253);
    } else if v == 17 {
        assert(data_codewords_s(v, EcLevel::Low) == 647);
        assert(data_codewords_s(v, EcLevel::Medium) == 507);
        assert(data_codewords_s(v, EcLevel::Quartile) == 367);
        assert(data_codewords_s(v, EcLevel::High) == 283);
    } else if v == 18 {
        assert(data_codewords_s(v, EcLevel::Low) == 721);
        assert(data_codewords_s(v, EcLevel::Medium) == 563);
        assert(data_codewords_s(v, EcLevel::Quartile) == 397);
        assert(data_codewords_s(v, EcLevel::High) == 313);
    } else if v == 19 {
        assert(data_codewords_s(v, EcLevel::Low) == 795);
        assert(data_codewords_s(v, EcLevel::Medium) == 627);
        assert(data_codewords_s(v, EcLevel::Quartile) == 445);
        assert(data_codewords_s(v, EcLevel::High) == 341);
    } else if v == 20 {
        assert(data_codewords_s(v, EcLevel::Low) == 861);
        assert(data_codewords_s(v, EcLevel::Medium) == 669);
        assert(data_codewords_s(v, EcLevel::Quartile) == 485);
        assert(data_codewords_s(v, EcLevel::High) == 385);
    } else if v == 21 {
        assert(data_codewords_s(v, EcLevel::Low) == 932);
        assert(data_codewords_s(v, EcLevel::Medium) == 714);
        assert(data_codewords_s(v, EcLevel::Quartile) == 512);
        assert(data_codewords_s(v, EcLevel::High) == 406);
    } else if v == 22 {
        assert(data_codewords_s(v, EcLevel::Low) == 1006);
        assert(data_codewords_s(v, EcLevel::Medium) == 782);
        assert(data_codewords_s(v, EcLevel::Quartile) == 568);
        assert(data_codewords_s(v, EcLevel::High) == 442);
    } else if v == 23 {
        assert(data_codewords_s(v, EcLevel::Low) == 1094);
        assert(data_codewords_s(v, EcLevel::Medium) == 860);
        assert(data_codewords_s(v, EcLevel::Quartile) == 614);
        assert(data_codewords_s(v, EcLevel::High) == 464);
    } else if v == 24 {
        assert(data_codewords_s(v, EcLevel::Low) == 1174);
        assert(data_codewords_s(v, EcLevel::Medium) == 914);
        assert(data_codewords_s(v, EcLevel::Quartile) == 664);
        assert(data_codewords_s(v, EcLevel::High) == 514);
    } else if v == 25 {
        assert(data_codewords_s(v, EcLevel::Low) == 1276);
        assert(data_codewords_s(v, EcLevel::Medium) == 1000);
        assert(data_codewords_s(v, EcLevel::Quartile) == 718);
        assert(data_codewords_s(v, EcLevel::High) == 538);
    } else if v == 26 {
        assert(data_codewords_s(v, EcLevel::Low) == 1370);
        assert(data_codewords_s(v, EcLevel::Medium) == 1062);
        assert(data_codewords_s(v, EcLevel::Quartile) == 754);
        assert(data_codewords_s(v, EcLevel::High) == 596);
    } else if v == 27 {
        assert(data_codewords_s(v, EcLevel::Low) == 1468);
        assert(data_codewords_s(v, EcLevel::Medium) == 1128);
        assert(data_codewords_s(v, EcLevel::Quartile) == 808);
        assert(data_codewords_s(v, EcLevel::High) == 628);
    } else if v == 28 {
        assert(data_codewords_s(v, EcLevel::Low) == 1531);
        assert(data_codewords_s(v, EcLevel::Medium) == 1193);
        assert(data_codewords_s(v, EcLevel::Quartile) == 871);
        assert(data_codewords_s(v, EcLevel::High) == 661);
    } else if v == 29 {
        assert(data_codewords_s(v, EcLevel::Low) == 1631);
        assert(data_codewords_s(v, EcLevel::Medium) == 1267);
        assert(data_codewords_s(v, EcLevel::Quartile) == 911);
        assert(data_codewords_s(v, EcLevel::High) == 701);
    } else if v == 30 {
        assert(data_codewords_s(v, EcLevel::Low) == 1735);
        assert(data_codewords_s(v, EcLevel::Medium) == 1373);
        assert(data_codewords_s(v, EcLevel::Quartile) == 985);
        assert(data_codewords_s(v, EcLevel::High) == 745);
    } else if v == 31 {
        assert(data_codewords_s(v, EcLevel::Low) == 1843);
        assert(data_codewords_s(v, EcLevel::Medium) == 1455);
        assert(data_codewords_s(v, EcLevel::Quartile) == 1033);
        assert(data_codewords_s(v, EcLevel::High) == 793);
    } else if v == 32 {
        assert(data_codewords_s(v, EcLevel::Low) == 1955);
        assert(data_codewords_s(v, EcLevel::Medium) == 1541);
        assert(data_codewords_s(v, EcLevel::Quartile) == 1115);
        assert(data_codewords_s(v, EcLevel::High) == 845);
    } else if v == 33 {
        assert(data_codewords_s(v, EcLevel::Low) == 2071);
        assert(data_codewords_s(v, EcLevel::Medium) == 1631);
        assert(data_codewords_s(v, EcLevel::Quartile) == 1171);
        assert(data_codewords_s(v, EcLevel::High) == 901);
    } else if v == 34 {
        assert(data_codewords_s(v, EcLevel::Low) == 2191);
        assert(data_codewords_s(v, EcLevel::Medium) == 1725);
        assert(data_codewords_s(v, EcLevel::Quartile) == 1231);
        assert(data_codewords_s(v, EcLevel::High) == 961);
    } else if v == 35 {
        assert(data_codewords_s(v, EcLevel::Low) == 2306);
        assert(data_codewords_s(v, EcLevel::Medium) == 1812);
        assert(data_codewords_s(v, EcLevel::Quartile) == 1286);
        assert(data_codewords_s(v, EcLevel::High) == 986);
    } else if v == 36 {
        assert(data_codewords_s(v, EcLevel::Low) == 2434);
        assert(data_codewords_s(v, EcLevel::Medium) == 1914);
        assert(data_codewords_s(v, EcLevel::Quartile) == 1354);
        assert(data_codewords_s(v, EcLevel::High) == 1054);
    } else if v == 37 {
        assert(data_codewords_s(v, EcLevel::Low) == 2566);
        assert(data_codewords_s(v, EcLevel::Medium) == 1992);
        assert(data_codewords_s(v, EcLevel::Quartile) == 1426);
        assert(data_codewords_s(v, EcLevel::High) == 1096);
    } else if v == 38 {
        assert(data_codewords_s(v, EcLevel::Low) == 2702);
        assert(data_codewords_s(v, EcLevel::Medium) == 2102);
        assert(data_codewords_s(v, EcLevel::Quartile) == 1502);
        assert(data_codewords_s(v, EcLevel::High) == 1142);
    } else if v == 39 {
        assert(data_codewords_s(v, EcLevel::Low) == 2812);
        assert(data_codewords_s(v, EcLevel::Medium) == 2216);
        assert(data_codewords_s(v, EcLevel::Quartile) == 1582);
        assert(data_codewords_s(v, EcLevel::High) == 1222);
    } else if v == 40 {
        assert(data_codewords_s(v, EcLevel::Low) == 2956);
        assert(data_codewords_s(v, EcLevel::Medium) == 2334);
        assert(data_codewords_s(v, EcLevel::Quartile) == 1666);
        assert(data_codewords_s(v, EcLevel::High) == 1276);
    }
}

/// Every alignment center coordinate is at least 6.
pub proof fn lemma_align_coord_min(v: usize, x: int)
    requires
        1 <= v <= 40,
        is_align_coord_s(v, x),
    ensures
        x >= 6,
{
    let last = 4 * (v as int) + 10;
    let count = align_count_s(v);
    let step = align_step_s(v);
    if !(x == 6 || x == last) {
        assert(step <= 28);
        assert(7 * (count - 2) <= v);
        assert((count - 2) * step <= 4 * v) by (nonlinear_arith)
            requires
                step <= 28,
                7 * (count - 2) <= v,
                0 <= count - 2,
                0 <= step,
        ;
    }
}

/// Alignment center coordinates are far apart: any coordinate other than
/// 6 and the last one lies between 14 and 16 cells short of the last.
pub proof fn lemma_align_coord_gap(v: usize, x: int)
    requires
        1 <= v <= 40,
        is_align_coord_s(v, x),
    ensures
        x == 6 || x == 4 * v + 10 || (14 <= x <= 4 * v + 10 - 16),
{
    let last = 4 * (v as int) + 10;
    let count = align_count_s(v);
    let step = align_step_s(v);
    let span = (count - 2) * step;
    let second = last - span;
    if x != 6 && x != last {
        if v < 7 {
            assert(span == 0) by (nonlinear_arith)
                requires
                    span == (count - 2) * step,
                    count == 2,
            ;
            assert(false);
        } else {
            let q = (v as int) / 7;
            assert(count - 2 == q);
            assert(1 <= q <= 5);
            assert(16 <= step <= 28);
            if (v as int) % 7 == 0 {
                assert(step <= 24);
                assert(q * step <= q * 24) by (nonlinear_arith)
                    requires
                        0 <= q,
                        step <= 24,
                ;
                assert(7 * q == v);
                assert(24 * q <= 4 * v - 4) by (nonlinear_arith)
                    requires
                        7 * q == v,
                        1 <= q,
                ;
            } else {
                assert(q * step <= q * 28) by (nonlinear_arith)
                    requires
                        0 <= q,
                        step <= 28,
                ;
                assert(7 * q <= v - 1);
            }
            assert(span <= 4 * v - 4);
            assert(second >= 14);
            assert(x >= second);
            // a stepped coordinate keeps a whole step of distance to the last
            let d = x - second;
            assert(d % step == 0);
            let kd = d / step;
            assert(d == step * kd);
            let ks = count - 2;
            assert(span == step * ks) by (nonlinear_arith)
                requires
                    span == ks * step,
            ;
            assert(span - d == step * (ks - kd)) by (nonlinear_arith)
                requires
                    d == step * kd,
                    span == step * ks,
            ;
            assert(span - d >= step) by (nonlinear_arith)
                requires
                    span - d == step * (ks - kd),
                    span - d > 0,
                    step > 0,
            ;
            assert(x <= last - 16);
        }
    }
}

} // verus!
