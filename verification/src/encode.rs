use crate::codec::{
    add_padding, auto_bits_s, byte_bits_from_s, bytes_of_bits_s, fits, fits_auto, fits_auto_s,
    fits_s, lemma_fits_auto_payload_bound, mode_fits, mode_fits_s, padded_s, push_auto_segments,
    push_bits, push_segment, seg_bits_s, smallest_version, smallest_version_auto, to_bytes,
};
use crate::ecc::{assemble_codewords, assembled_s};
use crate::grid::{
    align_color_s, align_near_s, base_color_s, bit_at_s, build_base, cell0_s, data_filled_s,
    final_cell_s, final_grid_s, fmt15_s, fmt_idx_s, iabs, imax, in_align_s, in_finder_zone_s,
    lemma_div_in_range, lemma_rc_index, mask_bit_s, place_data, placed_cell_s, reserved_s,
    ver18_s, ver_idx_s, zz_count_s, zz_pos_s, Grid, Module,
};
use crate::mask::penalty_s;
use crate::mask::select_mask;
use crate::tables::{
    data_bits_s, data_codewords, is_align_coord_s, lemma_align_coord_gap,
    lemma_block_table_bounds, lemma_dc_level_mono, side_s,
};
use crate::types::{level_rank_s, EcLevel, QrError, SegMode};
use vstd::prelude::*;

verus! {

/// A finished symbol: the version, level and mask that were used, and the
/// final module colors, row-major, dark as `true`.
#[derive(Debug)]
pub struct QrSymbol {
    pub version: usize,
    pub level: EcLevel,
    pub mask: usize,
    pub side: usize,
    pub modules: Vec<bool>,
}

impl QrSymbol {
    pub open spec fn wf(self) -> bool {
        1 <= self.version <= 40 && self.side == side_s(self.version) && self.mask < 8
            && self.modules.len() == self.side * self.side
    }

    /// Color of module (r, c), dark as `true`.
    pub open spec fn module_s(self, r: int, c: int) -> bool {
        self.modules@[r * self.side + c]
    }

    /// Executable module read.
    pub fn module_at(&self, r: usize, c: usize) -> (b: bool)
        requires
            self.wf(),
            r < self.side,
            c < self.side,
        ensures
            b == self.module_s(r as int, c as int),
    {
        proof {
            lemma_rc_index(self.side as int, r as int, c as int);
        }
        self.modules[r * self.side + c]
    }
}

/// The complete data bit stream of the symbol: one segment, terminator and
/// padding up to the version's data capacity.
pub open spec fn data_stream_s(p: Seq<u8>, m: SegMode, v: usize, l: EcLevel) -> Seq<bool> {
    padded_s(seg_bits_s(p, m, v), data_bits_s(v, l))
}

/// The final bit sequence flooded into the grid: the interleaved data and
/// error-correction codewords, bit by bit, high bit of each codeword first.
pub open spec fn codeword_bits_s(p: Seq<u8>, m: SegMode, v: usize, l: EcLevel) -> Seq<bool> {
    byte_bits_from_s(assembled_s(bytes_of_bits_s(data_stream_s(p, m, v, l)), v, l), 0)
}

/// Turns codewords back into a bit stream, high bit first.
pub fn bytes_to_bits(data: &Vec<u8>) -> (r: Vec<bool>)
    ensures
        r@ == byte_bits_from_s(data@, 0),
{
    let mut out: Vec<bool> = Vec::new();
    let mut i: usize = 0;
    while i < data.len()
        invariant
            i <= data@.len(),
            Seq::<bool>::empty() + byte_bits_from_s(data@, 0) == out@ + byte_bits_from_s(
                data@,
                i as int,
            ),
        decreases data@.len() - i,
    {
        let ghost pre = out@;
        push_bits(&mut out, data[i] as u32, 8);
        proof {
            assert(pre + (crate::codec::bseq(data@[i as int] as u32, 8) + byte_bits_from_s(
                data@,
                i + 1,
            )) =~= out@ + byte_bits_from_s(data@, i + 1));
        }
        i += 1;
    }
    proof {
        assert(out@ + Seq::<bool>::empty() =~= out@);
        assert(Seq::<bool>::empty() + byte_bits_from_s(data@, 0) =~= byte_bits_from_s(data@, 0));
    }
    out
}

/// Builds the final codeword bit sequence for one payload at a fixed
/// version and level.
pub fn build_codeword_bits(p: &Vec<u8>, m: SegMode, v: usize, l: EcLevel) -> (r: Vec<bool>)
    requires
        mode_fits_s(p@, m),
        p@.len() < 65536,
        1 <= v <= 40,
        fits_s(m, p@.len() as int, v, l),
    ensures
        r@ == codeword_bits_s(p@, m, v, l),
{
    proof {
        lemma_block_table_bounds(v, l);
        crate::codec::lemma_seg_bits_len(p@, m, v);
    }
    let mut buf: Vec<bool> = Vec::new();
    push_segment(&mut buf, p, m, v);
    let cap: usize = 8 * data_codewords(v, l);
    add_padding(&mut buf, cap);
    let bytes = to_bytes(&buf);
    proof {
        assert(bytes@.len() == data_bits_s(v, l) / 8);
    }
    let assembled = assemble_codewords(&bytes, v, l);
    bytes_to_bits(&assembled)
}

/// Final color that a reserved cell shows in the finished symbol: its
/// format bit, its version bit, or the fixed pattern color.
pub open spec fn func_final_color_s(v: usize, l: EcLevel, m: int, r: int, c: int) -> bool {
    let side = side_s(v);
    let fi = fmt_idx_s(side, r, c);
    let vi = ver_idx_s(side, r, c);
    if fi >= 0 {
        crate::codec::bit_of(fmt15_s(l, m as u32), fi as u32)
    } else if v >= 7 && vi >= 0 {
        crate::codec::bit_of(ver18_s(v), vi as u32)
    } else {
        base_color_s(v, r, c)
    }
}

/// Every reserved cell of the symbol shows exactly what its version, level
/// and mask dictate: the format and version words in their areas, the fixed
/// function pattern colors everywhere else.
pub open spec fn patterns_present_s(sym: QrSymbol) -> bool {
    forall|r2: int, c2: int|
        0 <= r2 < sym.side && 0 <= c2 < sym.side && reserved_s(sym.version, r2, c2)
            ==> #[trigger] sym.module_s(r2, c2) == func_final_color_s(
            sym.version,
            sym.level,
            sym.mask as int,
            r2,
            c2,
        )
}

/// Final color of a data module: its codeword bit, taken in zig-zag order
/// over the non-reserved cells, inverted where the mask formula holds.
pub open spec fn data_module_s(v: usize, mk: int, bits: Seq<bool>, r: int, c: int) -> bool {
    bit_at_s(bits, zz_count_s(v, zz_pos_s(side_s(v), r, c))) != mask_bit_s(mk, r, c)
}

/// Final color of any cell of the symbol, as a function of the version,
/// level, mask and codeword bits alone.
pub open spec fn symbol_cell_s(v: usize, l: EcLevel, mk: int, bits: Seq<bool>, r: int, c: int) -> bool {
    if reserved_s(v, r, c) {
        func_final_color_s(v, l, mk, r, c)
    } else {
        data_module_s(v, mk, bits, r, c)
    }
}

/// The whole finished module sequence as that function, row-major.
pub open spec fn symbol_grid_s(v: usize, l: EcLevel, mk: int, bits: Seq<bool>) -> Seq<bool> {
    Seq::new(
        (side_s(v) * side_s(v)) as nat,
        |k: int| symbol_cell_s(v, l, mk, bits, k / side_s(v), k % side_s(v)),
    )
}

/// The finished colors of a filled grid equal `symbol_grid_s`: nothing of
/// the symbol depends on anything but version, level, mask and bits.
pub proof fn lemma_final_grid_pinned(g: Grid, v: usize, l: EcLevel, bits: Seq<bool>, mk: int)
    requires
        1 <= v <= 40,
        0 <= mk < 8,
        g.wf(),
        g.side == side_s(v),
        forall|r: int, c: int|
            0 <= r < g.side && 0 <= c < g.side && reserved_s(v, r, c) ==> #[trigger] g.at_s(r, c)
                == Module::Func(base_color_s(v, r, c)),
        forall|r: int, c: int|
            0 <= r < g.side && 0 <= c < g.side ==> #[trigger] placed_cell_s(v, g, bits, r, c),
    ensures
        final_grid_s(g, v, l, mk) == symbol_grid_s(v, l, mk, bits),
{
    let side = side_s(v);
    assert forall|k: int| 0 <= k < side * side implies final_grid_s(g, v, l, mk)[k]
        == symbol_grid_s(v, l, mk, bits)[k] by {
        lemma_div_in_range(k, side);
        let r = k / side;
        let c = k % side;
        assert(placed_cell_s(v, g, bits, r, c));
        if reserved_s(v, r, c) {
            assert(g.at_s(r, c) == Module::Func(base_color_s(v, r, c)));
        }
    }
    assert(final_grid_s(g, v, l, mk) =~= symbol_grid_s(v, l, mk, bits));
}

/// Encodes `p` in the given mode, choosing the smallest sufficient version
/// unless the caller pinned one. Success and each error are pinned to their
/// exact inputs; on success the symbol's reserved cells carry the function
/// patterns and information words of its version, level and mask.
#[verifier::rlimit(100)]
pub fn encode_with_mode(p: &Vec<u8>, l: EcLevel, pinned: Option<usize>, m: SegMode) -> (r: Result<
    QrSymbol,
    QrError,
>)
    ensures
        match r {
            Ok(sym) => mode_fits_s(p@, m) && sym.wf() && sym.level == l && fits_s(
                m,
                p@.len() as int,
                sym.version,
                l,
            ) && (match pinned {
                Some(pv) => sym.version == pv,
                None => forall|v2: usize| 1 <= v2 < sym.version ==> !fits_s(m, p@.len() as int, v2, l),
            }) && patterns_present_s(sym) && sym.modules@ == symbol_grid_s(
                sym.version,
                l,
                sym.mask as int,
                codeword_bits_s(p@, m, sym.version, l),
            ) && mask_optimal_s(sym, codeword_bits_s(p@, m, sym.version, l)),
            Err(e) => {
                &&& (e == QrError::InvalidCharacterError <==> !mode_fits_s(p@, m))
                &&& (e == QrError::VersionTooSmallError <==> mode_fits_s(p@, m) && (match pinned {
                    Some(pv) => !(1 <= pv <= 40 && fits_s(m, p@.len() as int, pv, l)),
                    None => false,
                }))
                &&& (e == QrError::CapacityError <==> mode_fits_s(p@, m) && pinned is None
                    && (forall|v2: usize| 1 <= v2 <= 40 ==> !fits_s(m, p@.len() as int, v2, l)))
                &&& e != QrError::RenderConfigError
            },
        },
{
    if !mode_fits(p, m) {
        return Err(QrError::InvalidCharacterError);
    }
    let n = p.len();
    let v: usize = match pinned {
        Some(pv) => {
            if !(1 <= pv && pv <= 40) {
                return Err(QrError::VersionTooSmallError);
            }
            if !fits(m, n, pv, l) {
                return Err(QrError::VersionTooSmallError);
            }
            pv
        },
        None => {
            match smallest_version(m, n, l) {
                Some(v) => v,
                None => {
                    return Err(QrError::CapacityError);
                },
            }
        },
    };
    proof {
        crate::codec::lemma_fits_payload_bound(m, n as int, v, l);
    }
    let bits = build_codeword_bits(p, m, v, l);
    Ok(assemble_symbol(&bits, v, l))
}

/// Builds the base grid of version `v`, floods the codeword bits into it,
/// and applies the best mask: the symbol-construction tail that both
/// encoding entry points share.
fn assemble_symbol(bits: &Vec<bool>, v: usize, l: EcLevel) -> (sym: QrSymbol)
    requires
        1 <= v <= 40,
    ensures
        sym.wf(),
        sym.version == v,
        sym.level == l,
        patterns_present_s(sym),
        sym.modules@ == symbol_grid_s(v, l, sym.mask as int, bits@),
        forall|m2: int|
            0 <= m2 < 8 ==> penalty_s(symbol_grid_s(v, l, sym.mask as int, bits@), side_s(v))
                <= #[trigger] penalty_s(symbol_grid_s(v, l, m2, bits@), side_s(v)),
        forall|m2: int|
            0 <= m2 < sym.mask ==> penalty_s(symbol_grid_s(v, l, sym.mask as int, bits@), side_s(v))
                < #[trigger] penalty_s(symbol_grid_s(v, l, m2, bits@), side_s(v)),
{
    let mut g = build_base(v);
    let ghost g0 = g;
    proof {
        assert forall|r2: int| 0 <= r2 < g.side implies !(g.at_s(r2, 6) is Free) by {
            assert(g.at_s(r2, 6) == cell0_s(v, r2, 6));
            assert(reserved_s(v, r2, 6));
        }
    }
    place_data(&mut g, bits, Ghost(v));
    let (mask, modules) = select_mask(&g, v, l);
    let side = g.side;
    let sym = QrSymbol { version: v, level: l, mask, side, modules };
    proof {
        assert(side * side == (side as int) * (side as int));
        assert forall|r2: int, c2: int|
            0 <= r2 < sym.side && 0 <= c2 < sym.side && reserved_s(sym.version, r2, c2)
            implies #[trigger] sym.module_s(r2, c2) == func_final_color_s(
            sym.version,
            sym.level,
            sym.mask as int,
            r2,
            c2,
        ) by {
            lemma_rc_index(side as int, r2, c2);
            crate::grid::lemma_div_in_range(r2 * side + c2, side as int);
            assert((r2 * side + c2) / (side as int) == r2 && (r2 * side + c2) % (side as int)
                == c2) by (nonlinear_arith)
                requires
                    0 <= r2 < side,
                    0 <= c2 < side,
            ;
            assert(g0.at_s(r2, c2) == cell0_s(v, r2, c2));
            assert(data_filled_s(g0, g, r2, c2));
            assert(g.at_s(r2, c2) == cell0_s(v, r2, c2));
            assert(sym.modules@[r2 * side + c2] == final_cell_s(g, v, l, sym.mask as int, r2, c2));
        }
        assert forall|r2: int, c2: int|
            0 <= r2 < side && 0 <= c2 < side && reserved_s(v, r2, c2) implies #[trigger] g.at_s(
            r2,
            c2,
        ) == Module::Func(base_color_s(v, r2, c2)) by {
            assert(g0.at_s(r2, c2) == cell0_s(v, r2, c2));
            assert(data_filled_s(g0, g, r2, c2));
        }
        assert forall|m2: int| 0 <= m2 < 8 implies final_grid_s(g, v, l, m2) == symbol_grid_s(
            v,
            l,
            m2,
            bits@,
        ) by {
            lemma_final_grid_pinned(g, v, l, bits@, m2);
        }
        assert forall|m2: int|
            0 <= m2 < 8 implies penalty_s(symbol_grid_s(v, l, sym.mask as int, bits@), side_s(v))
                <= #[trigger] penalty_s(symbol_grid_s(v, l, m2, bits@), side_s(v)) by {
            lemma_final_grid_pinned(g, v, l, bits@, m2);
            lemma_final_grid_pinned(g, v, l, bits@, sym.mask as int);
            assert(penalty_s(final_grid_s(g, v, l, sym.mask as int), side_s(v)) <= penalty_s(
                final_grid_s(g, v, l, m2),
                side_s(v),
            ));
        }
        assert forall|m2: int|
            0 <= m2 < sym.mask implies penalty_s(symbol_grid_s(v, l, sym.mask as int, bits@), side_s(v))
                < #[trigger] penalty_s(symbol_grid_s(v, l, m2, bits@), side_s(v)) by {
            lemma_final_grid_pinned(g, v, l, bits@, m2);
            lemma_final_grid_pinned(g, v, l, bits@, sym.mask as int);
            assert(penalty_s(final_grid_s(g, v, l, sym.mask as int), side_s(v)) < penalty_s(
                final_grid_s(g, v, l, m2),
                side_s(v),
            ));
        }
    }
    sym
}

/// The final bit sequence flooded into the grid under automatic
/// segmentation: greedy segments, terminator and padding, block split and
/// interleaving, bit by bit.
pub open spec fn codeword_auto_s(p: Seq<u8>, v: usize, l: EcLevel) -> Seq<bool> {
    byte_bits_from_s(
        assembled_s(bytes_of_bits_s(padded_s(auto_bits_s(p, v), data_bits_s(v, l))), v, l),
        0,
    )
}

/// Builds the final codeword bit sequence of the greedy segmentation at a
/// fixed version and level.
pub fn build_codeword_auto(p: &Vec<u8>, v: usize, l: EcLevel) -> (r: Vec<bool>)
    requires
        1 <= v <= 40,
        fits_auto_s(p@, v, l),
    ensures
        r@ == codeword_auto_s(p@, v, l),
{
    proof {
        lemma_block_table_bounds(v, l);
        lemma_fits_auto_payload_bound(p@, v, l);
    }
    let mut buf: Vec<bool> = Vec::new();
    push_auto_segments(&mut buf, p, v);
    let cap: usize = 8 * data_codewords(v, l);
    add_padding(&mut buf, cap);
    let bytes = to_bytes(&buf);
    proof {
        assert(bytes@.len() == data_bits_s(v, l) / 8);
    }
    let assembled = assemble_codewords(&bytes, v, l);
    bytes_to_bits(&assembled)
}

/// Encodes a payload at the requested level: the payload is partitioned by
/// the greedy segmenter of the character count widths of each candidate
/// version, the smallest sufficient version is chosen unless the caller
/// pinned one, and each error is pinned to its exact inputs. Automatic
/// segmentation never reports a bad character.
pub fn encode(p: &Vec<u8>, l: EcLevel, pinned: Option<usize>) -> (r: Result<QrSymbol, QrError>)
    ensures
        match r {
            Ok(sym) => sym.wf() && sym.level == l && patterns_present_s(sym) && fits_auto_s(
                p@,
                sym.version,
                l,
            ) && (match pinned {
                Some(pv) => sym.version == pv,
                None => forall|v2: usize| 1 <= v2 < sym.version ==> !fits_auto_s(p@, v2, l),
            }) && sym.modules@ == symbol_grid_s(
                sym.version,
                l,
                sym.mask as int,
                codeword_auto_s(p@, sym.version, l),
            ) && mask_optimal_s(sym, codeword_auto_s(p@, sym.version, l)),
            Err(e) => {
                &&& (e == QrError::VersionTooSmallError <==> (match pinned {
                    Some(pv) => !(1 <= pv <= 40 && fits_auto_s(p@, pv, l)),
                    None => false,
                }))
                &&& (e == QrError::CapacityError <==> pinned is None && (forall|v2: usize|
                    1 <= v2 <= 40 ==> !fits_auto_s(p@, v2, l)))
                &&& e != QrError::RenderConfigError
                &&& e != QrError::InvalidCharacterError
            },
        },
{
    let v: usize = match pinned {
        Some(pv) => {
            if !(1 <= pv && pv <= 40) {
                return Err(QrError::VersionTooSmallError);
            }
            if !fits_auto(p, pv, l) {
                return Err(QrError::VersionTooSmallError);
            }
            pv
        },
        None => {
            match smallest_version_auto(p, l) {
                Some(v) => v,
                None => {
                    return Err(QrError::CapacityError);
                },
            }
        },
    };
    let bits = build_codeword_auto(p, v, l);
    Ok(assemble_symbol(&bits, v, l))
}

/// Capacity monotonicity: a payload whose greedy segmentation fits some
/// version at one level also fits that version at any level that demands
/// fewer (or equally many) error-correction codewords.
pub proof fn lemma_capacity_monotone(p: Seq<u8>, v: usize, l1: EcLevel, l2: EcLevel)
    requires
        1 <= v <= 40,
        level_rank_s(l2) <= level_rank_s(l1),
        fits_auto_s(p, v, l1),
    ensures
        fits_auto_s(p, v, l2),
{
    lemma_dc_level_mono(v, l2, l1);
}

/// Capacity monotonicity for the chosen version: when a payload succeeds
/// at version `v1` under level `l1`, the smallest sufficient version `v2`
/// under a level with fewer correction codewords is no larger than `v1`.
pub proof fn lemma_version_monotone(p: Seq<u8>, v1: usize, v2: usize, l1: EcLevel, l2: EcLevel)
    requires
        1 <= v1 <= 40,
        fits_auto_s(p, v1, l1),
        level_rank_s(l2) <= level_rank_s(l1),
        1 <= v2,
        fits_auto_s(p, v2, l2),
        forall|v3: usize| 1 <= v3 < v2 ==> !fits_auto_s(p, v3, l2),
    ensures
        v2 <= v1,
{
    lemma_capacity_monotone(p, v1, l1, l2);
    if v2 > v1 {
        assert(!fits_auto_s(p, v1, l2));
    }
}

/// Structural validity: a well-formed symbol whose reserved cells carry its
/// function patterns shows the canonical 7-by-7 finder pattern at each of
/// its three corners, alternating timing cells along row and column six
/// (outside alignment patterns), and for version 7 up the bits of its
/// version word in the upper-right version block.
pub proof fn lemma_structural_validity(sym: QrSymbol)
    requires
        sym.wf(),
        patterns_present_s(sym),
    ensures
        forall|dr: int, dc: int|
            0 <= dr < 7 && 0 <= dc < 7 ==> #[trigger] sym.module_s(dr, dc) == (imax(
                iabs(dr - 3),
                iabs(dc - 3),
            ) != 2),
        forall|dr: int, dc: int|
            0 <= dr < 7 && 0 <= dc < 7 ==> #[trigger] sym.module_s(dr, sym.side - 7 + dc) == (imax(
                iabs(dr - 3),
                iabs(dc - 3),
            ) != 2),
        forall|dr: int, dc: int|
            0 <= dr < 7 && 0 <= dc < 7 ==> #[trigger] sym.module_s(sym.side - 7 + dr, dc) == (imax(
                iabs(dr - 3),
                iabs(dc - 3),
            ) != 2),
        forall|i: int|
            8 <= i < sym.side - 8 && !in_align_s(sym.version, 6, i) ==> #[trigger] sym.module_s(
                6,
                i,
            ) == (i % 2 == 0),
        forall|i: int|
            8 <= i < sym.side - 8 && !in_align_s(sym.version, i, 6) ==> #[trigger] sym.module_s(
                i,
                6,
            ) == (i % 2 == 0),
        sym.version >= 7 ==> forall|r2: int, c2: int|
            0 <= r2 <= 5 && sym.side - 11 <= c2 <= sym.side - 9 ==> #[trigger] sym.module_s(
                r2,
                c2,
            ) == crate::codec::bit_of(
                ver18_s(sym.version),
                (3 * r2 + c2 - (sym.side - 11)) as u32,
            ),
        forall|r2: int, c2: int|
            0 <= r2 < sym.side && 0 <= c2 < sym.side && in_align_s(sym.version, r2, c2)
                ==> #[trigger] sym.module_s(r2, c2) == align_color_s(sym.version, r2, c2),
{
    let v = sym.version;
    let side = side_s(v) as int;
    assert forall|dr: int, dc: int| 0 <= dr < 7 && 0 <= dc < 7 implies #[trigger] sym.module_s(
        dr,
        dc,
    ) == (imax(iabs(dr - 3), iabs(dc - 3)) != 2) by {
        assert(reserved_s(v, dr, dc));
        assert(sym.module_s(dr, dc) == func_final_color_s(v, sym.level, sym.mask as int, dr, dc));
        assert(fmt_idx_s(side, dr, dc) == -1);
        assert(ver_idx_s(side, dr, dc) == -1);
    }
    assert forall|dr: int, dc: int| 0 <= dr < 7 && 0 <= dc < 7 implies #[trigger] sym.module_s(
        dr,
        sym.side - 7 + dc,
    ) == (imax(iabs(dr - 3), iabs(dc - 3)) != 2) by {
        let c2 = sym.side - 7 + dc;
        assert(reserved_s(v, dr, c2));
        assert(sym.module_s(dr, c2) == func_final_color_s(v, sym.level, sym.mask as int, dr, c2));
        assert(fmt_idx_s(side, dr, c2) == -1);
        assert(ver_idx_s(side, dr, c2) == -1);
    }
    assert forall|dr: int, dc: int| 0 <= dr < 7 && 0 <= dc < 7 implies #[trigger] sym.module_s(
        sym.side - 7 + dr,
        dc,
    ) == (imax(iabs(dr - 3), iabs(dc - 3)) != 2) by {
        let r2 = sym.side - 7 + dr;
        assert(reserved_s(v, r2, dc));
        assert(sym.module_s(r2, dc) == func_final_color_s(v, sym.level, sym.mask as int, r2, dc));
        assert(fmt_idx_s(side, r2, dc) == -1);
        assert(ver_idx_s(side, r2, dc) == -1);
    }
    assert forall|i: int| 8 <= i < sym.side - 8 && !in_align_s(v, 6, i) implies
        #[trigger] sym.module_s(6, i) == (i % 2 == 0) by {
        assert(reserved_s(v, 6, i));
        assert(sym.module_s(6, i) == func_final_color_s(v, sym.level, sym.mask as int, 6, i));
        assert(fmt_idx_s(side, 6, i) == -1);
        assert(ver_idx_s(side, 6, i) == -1);
        assert((6 + i) % 2 == i % 2);
    }
    assert forall|i: int| 8 <= i < sym.side - 8 && !in_align_s(v, i, 6) implies
        #[trigger] sym.module_s(i, 6) == (i % 2 == 0) by {
        assert(reserved_s(v, i, 6));
        assert(sym.module_s(i, 6) == func_final_color_s(v, sym.level, sym.mask as int, i, 6));
        assert(fmt_idx_s(side, i, 6) == -1);
        assert(ver_idx_s(side, i, 6) == -1);
        assert((i + 6) % 2 == i % 2);
    }
    assert forall|r2: int, c2: int|
        0 <= r2 < sym.side && 0 <= c2 < sym.side && in_align_s(v, r2, c2)
        implies #[trigger] sym.module_s(r2, c2) == align_color_s(v, r2, c2) by {
        let last = 4 * (v as int) + 10;
        let ar = align_near_s(v, r2);
        let ac = align_near_s(v, c2);
        assert(is_align_coord_s(v, ar) && r2 - 2 <= ar <= r2 + 2);
        assert(is_align_coord_s(v, ac) && c2 - 2 <= ac <= c2 + 2);
        lemma_align_coord_gap(v, ar);
        lemma_align_coord_gap(v, ac);
        assert(!in_finder_zone_s(side, r2, c2));
        assert(fmt_idx_s(side, r2, c2) == -1);
        assert(ver_idx_s(side, r2, c2) == -1);
        assert(reserved_s(v, r2, c2));
        assert(sym.module_s(r2, c2) == func_final_color_s(v, sym.level, sym.mask as int, r2, c2));
    }
    if v >= 7 {
        assert forall|r2: int, c2: int|
            0 <= r2 <= 5 && sym.side - 11 <= c2 <= sym.side - 9 implies #[trigger] sym.module_s(
            r2,
            c2,
        ) == crate::codec::bit_of(ver18_s(v), (3 * r2 + c2 - (sym.side - 11)) as u32) by {
            assert(reserved_s(v, r2, c2));
            assert(sym.module_s(r2, c2) == func_final_color_s(v, sym.level, sym.mask as int, r2, c2));
            assert(fmt_idx_s(side, r2, c2) == -1);
            assert(ver_idx_s(side, r2, c2) == 3 * r2 + (c2 - (side - 11)));
        }
    }
}


/// The symbol's mask minimizes the penalty over all eight candidates, with
/// ties broken toward the lowest mask id.
pub open spec fn mask_optimal_s(sym: QrSymbol, bits: Seq<bool>) -> bool {
    &&& forall|m2: int|
        0 <= m2 < 8 ==> penalty_s(
            symbol_grid_s(sym.version, sym.level, sym.mask as int, bits),
            side_s(sym.version),
        ) <= #[trigger] penalty_s(
            symbol_grid_s(sym.version, sym.level, m2, bits),
            side_s(sym.version),
        )
    &&& forall|m2: int|
        0 <= m2 < sym.mask ==> penalty_s(
            symbol_grid_s(sym.version, sym.level, sym.mask as int, bits),
            side_s(sym.version),
        ) < #[trigger] penalty_s(
            symbol_grid_s(sym.version, sym.level, m2, bits),
            side_s(sym.version),
        )
}

/// The smallest sufficient version is unique.
pub proof fn lemma_min_version_unique(p: Seq<u8>, l: EcLevel, v1: usize, v2: usize)
    requires
        1 <= v1,
        fits_auto_s(p, v1, l),
        forall|v3: usize| 1 <= v3 < v1 ==> !fits_auto_s(p, v3, l),
        1 <= v2,
        fits_auto_s(p, v2, l),
        forall|v3: usize| 1 <= v3 < v2 ==> !fits_auto_s(p, v3, l),
    ensures
        v1 == v2,
{
    if v1 < v2 {
        assert(!fits_auto_s(p, v1, l));
    }
    if v2 < v1 {
        assert(!fits_auto_s(p, v2, l));
    }
}

/// Determinism: two well-formed symbols of one version and level whose
/// modules are pinned to the same codeword bits, each mask-optimal with
/// ties toward the lowest id, are identical, mask included.
pub proof fn lemma_encode_deterministic(s1: QrSymbol, s2: QrSymbol, l: EcLevel, bits: Seq<bool>)
    requires
        s1.wf(),
        s2.wf(),
        s1.version == s2.version,
        s1.level == l,
        s2.level == l,
        s1.modules@ == symbol_grid_s(s1.version, l, s1.mask as int, bits),
        s2.modules@ == symbol_grid_s(s2.version, l, s2.mask as int, bits),
        mask_optimal_s(s1, bits),
        mask_optimal_s(s2, bits),
    ensures
        s1.mask == s2.mask,
        s1.modules@ == s2.modules@,
{
    let v = s1.version;
    if s1.mask < s2.mask {
        assert(penalty_s(symbol_grid_s(v, l, s2.mask as int, bits), side_s(v)) < penalty_s(
            symbol_grid_s(v, l, s1.mask as int, bits),
            side_s(v),
        ));
        assert(penalty_s(symbol_grid_s(v, l, s1.mask as int, bits), side_s(v)) <= penalty_s(
            symbol_grid_s(v, l, s2.mask as int, bits),
            side_s(v),
        ));
    }
    if s2.mask < s1.mask {
        assert(penalty_s(symbol_grid_s(v, l, s1.mask as int, bits), side_s(v)) < penalty_s(
            symbol_grid_s(v, l, s2.mask as int, bits),
            side_s(v),
        ));
        assert(penalty_s(symbol_grid_s(v, l, s2.mask as int, bits), side_s(v)) <= penalty_s(
            symbol_grid_s(v, l, s1.mask as int, bits),
            side_s(v),
        ));
    }
}

} // verus!
