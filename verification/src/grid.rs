use crate::codec::bit_of;
use crate::tables::{is_align_coord, is_align_coord_s, lemma_align_coord_min, side_s};
use crate::types::{level_bits, level_bits_s, EcLevel};
use vstd::pervasive::VecAdditionalExecFns;
use vstd::prelude::*;

verus! {

/// One cell of the symbol grid while it is being built: not yet assigned,
/// part of a function pattern, or a data module.
#[derive(Clone, Copy, PartialEq, Eq, Structural, Debug)]
pub enum Module {
    Free,
    Func(bool),
    Data(bool),
}

pub open spec fn iabs(x: int) -> int {
    if x < 0 {
        -x
    } else {
        x
    }
}

pub open spec fn imax(x: int, y: int) -> int {
    if x < y {
        y
    } else {
        x
    }
}

/// The three 8-by-8 corner zones that hold a finder pattern and its
/// separator.
pub open spec fn in_finder_zone_s(side: int, r: int, c: int) -> bool {
    (r < 8 && c < 8) || (r < 8 && c >= side - 8) || (r >= side - 8 && c < 8)
}

/// Color inside a finder zone: concentric dark ring, light ring, dark core;
/// the separator ring around the 7-by-7 box stays light.
pub open spec fn finder_color_s(side: int, r: int, c: int) -> bool {
    let rr = if r < 8 {
        r
    } else {
        r - (side - 7)
    };
    let cc = if c < 8 {
        c
    } else {
        c - (side - 7)
    };
    if 0 <= rr < 7 && 0 <= cc < 7 {
        imax(iabs(rr - 3), iabs(cc - 3)) != 2
    } else {
        false
    }
}

/// The alignment center coordinate within distance 2 of axis position `x`,
/// or -1 when there is none; centers are more than 4 apart, so at most one
/// candidate matches.
pub open spec fn align_near_s(v: usize, x: int) -> int {
    if is_align_coord_s(v, x - 2) {
        x - 2
    } else if is_align_coord_s(v, x - 1) {
        x - 1
    } else if is_align_coord_s(v, x) {
        x
    } else if is_align_coord_s(v, x + 1) {
        x + 1
    } else if is_align_coord_s(v, x + 2) {
        x + 2
    } else {
        -1
    }
}

/// Whether cell (r, c) lies in a 5-by-5 alignment pattern of version `v`;
/// the three centers that would collide with finder corners are left out.
pub open spec fn in_align_s(v: usize, r: int, c: int) -> bool {
    let last = 4 * v + 10;
    let ar = align_near_s(v, r);
    let ac = align_near_s(v, c);
    v >= 2 && ar >= 0 && ac >= 0 && !(ar == 6 && ac == 6) && !(ar == 6 && ac == last) && !(ar
        == last && ac == 6)
}

/// Color inside an alignment pattern: dark border, light ring, dark center.
pub open spec fn align_color_s(v: usize, r: int, c: int) -> bool {
    imax(iabs(r - align_near_s(v, r)), iabs(c - align_near_s(v, c))) != 1
}

/// The single always-dark module above the lower-left finder zone.
pub open spec fn is_dark_module_s(side: int, r: int, c: int) -> bool {
    r == side - 8 && c == 8
}

/// The strips beside the finder zones that are reserved for the two copies
/// of the format information.
pub open spec fn in_format_area_s(side: int, r: int, c: int) -> bool {
    (r == 8 && (c <= 8 || c >= side - 8)) || (c == 8 && (r <= 8 || r >= side - 7))
}

/// The two 6-by-3 blocks that hold the version information for version 7 up.
pub open spec fn in_version_area_s(v: usize, side: int, r: int, c: int) -> bool {
    v >= 7 && ((r <= 5 && side - 11 <= c <= side - 9) || (c <= 5 && side - 11 <= r <= side - 9))
}

/// Whether cell (r, c) belongs to a function pattern or a reserved
/// information area of version `v`.
pub open spec fn reserved_s(v: usize, r: int, c: int) -> bool {
    let side = side_s(v);
    in_finder_zone_s(side, r, c) || in_align_s(v, r, c) || r == 6 || c == 6 || is_dark_module_s(
        side,
        r,
        c,
    ) || in_format_area_s(side, r, c) || in_version_area_s(v, side, r, c)
}

/// Color of a reserved cell before the format and version information are
/// written: finder and alignment rings, alternating timing cells, the dark
/// module; the information areas start out light.
pub open spec fn base_color_s(v: usize, r: int, c: int) -> bool {
    let side = side_s(v);
    if in_finder_zone_s(side, r, c) {
        finder_color_s(side, r, c)
    } else if in_align_s(v, r, c) {
        align_color_s(v, r, c)
    } else if r == 6 || c == 6 {
        (r + c) % 2 == 0
    } else if is_dark_module_s(side, r, c) {
        true
    } else {
        false
    }
}

/// State of cell (r, c) after the function patterns are placed and before
/// any data module is written.
pub open spec fn cell0_s(v: usize, r: int, c: int) -> Module {
    if reserved_s(v, r, c) {
        Module::Func(base_color_s(v, r, c))
    } else {
        Module::Free
    }
}

/// Executable alignment-center search, mirroring `align_near_s`.
#[verifier::rlimit(100)]
pub fn align_near(v: usize, x: usize) -> (res: (bool, usize))
    requires
        1 <= v <= 40,
        x <= 200,
    ensures
        res.0 <==> align_near_s(v, x as int) >= 0,
        res.0 ==> res.1 == align_near_s(v, x as int),
{
    proof {
        if x < 2 && is_align_coord_s(v, x - 2) {
            lemma_align_coord_min(v, x - 2);
        }
        if x < 1 && is_align_coord_s(v, x - 1) {
            lemma_align_coord_min(v, x - 1);
        }
    }
    if x >= 2 && is_align_coord(v, x - 2) {
        (true, x - 2)
    } else if x >= 1 && is_align_coord(v, x - 1) {
        (true, x - 1)
    } else if is_align_coord(v, x) {
        (true, x)
    } else if is_align_coord(v, x + 1) {
        (true, x + 1)
    } else if is_align_coord(v, x + 2) {
        (true, x + 2)
    } else {
        (false, 0)
    }
}

/// Executable copy of `cell0_s`.
pub fn cell0(v: usize, r: usize, c: usize) -> (m: Module)
    requires
        1 <= v <= 40,
        r < side_s(v),
        c < side_s(v),
    ensures
        m == cell0_s(v, r as int, c as int),
{
    let side: usize = 4 * v + 17;
    let in_fz = (r < 8 && c < 8) || (r < 8 && c >= side - 8) || (r >= side - 8 && c < 8);
    if in_fz {
        let rr: usize = if r < 8 {
            r
        } else if r >= side - 7 {
            r - (side - 7)
        } else {
            7
        };
        let cc: usize = if c < 8 {
            c
        } else if c >= side - 7 {
            c - (side - 7)
        } else {
            7
        };
        if rr < 7 && cc < 7 {
            let dr: usize = if rr < 3 {
                3 - rr
            } else {
                rr - 3
            };
            let dc: usize = if cc < 3 {
                3 - cc
            } else {
                cc - 3
            };
            let d: usize = if dr < dc {
                dc
            } else {
                dr
            };
            return Module::Func(d != 2);
        }
        return Module::Func(false);
    }
    let (ar_ok, ar) = align_near(v, r);
    let (ac_ok, ac) = align_near(v, c);
    let last: usize = 4 * v + 10;
    let in_al = v >= 2 && ar_ok && ac_ok && !(ar == 6 && ac == 6) && !(ar == 6 && ac == last) && !(
    ar == last && ac == 6);
    if in_al {
        let dr: usize = if r < ar {
            ar - r
        } else {
            r - ar
        };
        let dc: usize = if c < ac {
            ac - c
        } else {
            c - ac
        };
        let d: usize = if dr < dc {
            dc
        } else {
            dr
        };
        return Module::Func(d != 1);
    }
    if r == 6 || c == 6 {
        return Module::Func((r + c) % 2 == 0);
    }
    if r == side - 8 && c == 8 {
        return Module::Func(true);
    }
    let in_fmt = (r == 8 && (c <= 8 || c >= side - 8)) || (c == 8 && (r <= 8 || r >= side - 7));
    if in_fmt {
        return Module::Func(false);
    }
    let in_ver = v >= 7 && ((r <= 5 && side - 11 <= c && c <= side - 9) || (c <= 5 && side - 11
        <= r && r <= side - 9));
    if in_ver {
        return Module::Func(false);
    }
    Module::Free
}

/// The module grid of one symbol, row-major.
pub struct Grid {
    pub side: usize,
    pub cells: Vec<Module>,
}

impl Grid {
    pub open spec fn wf(self) -> bool {
        self.cells.len() == self.side * self.side && self.side <= 177
    }

    /// Cell in row `r`, column `c`.
    pub open spec fn at_s(self, r: int, c: int) -> Module {
        self.cells@[r * self.side + c]
    }
}

pub proof fn lemma_rc_index(side: int, r: int, c: int)
    requires
        0 <= r < side,
        0 <= c < side,
    ensures
        0 <= r * side + c < side * side,
{
    assert(r * side + c < side * side && 0 <= r * side) by (nonlinear_arith)
        requires
            0 <= r < side,
            0 <= c < side,
    ;
}

pub proof fn lemma_rc_inj(side: int, r1: int, c1: int, r2: int, c2: int)
    requires
        0 <= r1 < side,
        0 <= c1 < side,
        0 <= r2 < side,
        0 <= c2 < side,
        r1 * side + c1 == r2 * side + c2,
    ensures
        r1 == r2 && c1 == c2,
{
    assert(r1 == r2 && c1 == c2) by (nonlinear_arith)
        requires
            0 <= r1 < side,
            0 <= c1 < side,
            0 <= r2 < side,
            0 <= c2 < side,
            r1 * side + c1 == r2 * side + c2,
    ;
}

impl Grid {
    /// Reads cell (r, c).
    pub fn get(&self, r: usize, c: usize) -> (m: Module)
        requires
            self.wf(),
            r < self.side,
            c < self.side,
        ensures
            m == self.at_s(r as int, c as int),
    {
        proof {
            lemma_rc_index(self.side as int, r as int, c as int);
        }
        self.cells[r * self.side + c]
    }

    /// Writes cell (r, c) and leaves every other cell unchanged.
    pub fn put(&mut self, r: usize, c: usize, m: Module)
        requires
            old(self).wf(),
            r < old(self).side,
            c < old(self).side,
        ensures
            final(self).wf(),
            final(self).side == old(self).side,
            final(self).at_s(r as int, c as int) == m,
            forall|r2: int, c2: int|
                0 <= r2 < old(self).side && 0 <= c2 < old(self).side && !(r2 == r as int && c2
                    == c as int) ==> final(self).at_s(r2, c2) == old(self).at_s(r2, c2),
    {
        proof {
            lemma_rc_index(self.side as int, r as int, c as int);
        }
        self.cells.set(r * self.side + c, m);
        proof {
            assert forall|r2: int, c2: int|
                0 <= r2 < self.side && 0 <= c2 < self.side && !(r2 == r as int && c2
                    == c as int) implies self.at_s(r2, c2) == old(self).at_s(r2, c2) by {
                lemma_rc_index(self.side as int, r2, c2);
                if r2 * self.side + c2 == r as int * self.side + c as int {
                    lemma_rc_inj(self.side as int, r2, c2, r as int, c as int);
                }
            }
        }
    }
}

pub proof fn lemma_div_in_range(k: int, side: int)
    requires
        0 < side,
        0 <= k < side * side,
    ensures
        0 <= k / side < side,
        k == (k / side) * side + (k % side),
        0 <= k % side < side,
{
    assert(0 <= k / side < side) by (nonlinear_arith)
        requires
            0 < side,
            0 <= k < side * side,
    ;
    assert(k == (k / side) * side + (k % side) && 0 <= k % side < side) by (nonlinear_arith)
        requires
            0 < side,
            0 <= k,
    ;
}

/// Builds the grid of version `v` with every function pattern and reserved
/// area placed and every remaining cell still free.
pub fn build_base(v: usize) -> (g: Grid)
    requires
        1 <= v <= 40,
    ensures
        g.wf(),
        g.side == side_s(v),
        forall|r: int, c: int|
            0 <= r < g.side && 0 <= c < g.side ==> g.at_s(r, c) == cell0_s(v, r, c),
{
    let side: usize = 4 * v + 17;
    let mut cells: Vec<Module> = Vec::new();
    let mut r: usize = 0;
    while r < side
        invariant
            r <= side <= 177,
            1 <= v <= 40,
            side == side_s(v),
            cells@.len() == r * side,
            forall|r2: int, c2: int|
                0 <= r2 < r && 0 <= c2 < side ==> cells@[r2 * side + c2] == cell0_s(v, r2, c2),
        decreases side - r,
    {
        let mut c: usize = 0;
        while c < side
            invariant
                c <= side <= 177,
                r < side,
                1 <= v <= 40,
                side == side_s(v),
                cells@.len() == r * side + c,
                forall|r2: int, c2: int|
                    0 <= r2 < r && 0 <= c2 < side ==> cells@[r2 * side + c2] == cell0_s(v, r2, c2),
                forall|c2: int|
                    0 <= c2 < c ==> cells@[r as int * side + c2] == cell0_s(v, r as int, c2),
            decreases side - c,
        {
            proof {
                lemma_rc_index(side as int, r as int, c as int);
            }
            cells.push(cell0(v, r, c));
            proof {
                assert forall|r2: int, c2: int|
                    0 <= r2 < r && 0 <= c2 < side implies cells@[r2 * side + c2] == cell0_s(
                    v,
                    r2,
                    c2,
                ) by {
                    lemma_rc_index(side as int, r2, c2);
                    assert(r2 * side + c2 < r as int * side) by (nonlinear_arith)
                        requires
                            0 <= r2 < r,
                            0 <= c2 < side,
                    ;
                }
            }
            c += 1;
        }
        proof {
            assert((r + 1) * side == r * side + side) by (nonlinear_arith);
        }
        r += 1;
    }
    let g = Grid { side, cells };
    proof {
        assert(side * side == (side as int) * (side as int));
        assert forall|r2: int, c2: int|
            0 <= r2 < g.side && 0 <= c2 < g.side implies g.at_s(r2, c2) == cell0_s(v, r2, c2) by {
            lemma_rc_index(side as int, r2, c2);
        }
    }
    g
}

/// Holds when the step from `before` to `after` left cell (r, c) alone
/// unless it was free, in which case it now carries a data module.
pub open spec fn data_filled_s(before: Grid, after: Grid, r: int, c: int) -> bool {
    match before.at_s(r, c) {
        Module::Free => after.at_s(r, c) is Data,
        _ => after.at_s(r, c) == before.at_s(r, c),
    }
}

/// Like `data_filled_s`, but the free cell may also still be free.
pub open spec fn part_filled_s(before: Grid, after: Grid, r: int, c: int) -> bool {
    match before.at_s(r, c) {
        Module::Free => after.at_s(r, c) == before.at_s(r, c) || after.at_s(r, c) is Data,
        _ => after.at_s(r, c) == before.at_s(r, c),
    }
}

/// Bit `idx` of the flooded stream; positions past its end are light.
pub open spec fn bit_at_s(bits: Seq<bool>, idx: int) -> bool {
    if 0 <= idx < bits.len() {
        bits[idx]
    } else {
        false
    }
}

/// Right column of zig-zag pair `p`: pairs step left by two from the right
/// edge and jump over the timing column.
pub open spec fn zz_colr_s(side: int, p: int) -> int {
    if side - 1 - 2 * p > 6 {
        side - 1 - 2 * p
    } else {
        side - 2 - 2 * p
    }
}

/// Row visited at traversal position `pos`: even pairs walk upward, odd
/// pairs downward.
pub open spec fn zz_cell_r_s(side: int, pos: int) -> int {
    let p = pos / (2 * side);
    let step = (pos % (2 * side)) / 2;
    if p % 2 == 0 {
        side - 1 - step
    } else {
        step
    }
}

/// Column visited at traversal position `pos`: the right column of the
/// pair first, then its left neighbour.
pub open spec fn zz_cell_c_s(side: int, pos: int) -> int {
    let p = pos / (2 * side);
    zz_colr_s(side, p) - (pos % (2 * side)) % 2
}

/// How many of the first `bound` traversal positions of version `v` land
/// on a non-reserved cell: the index of the data bit that position `bound`
/// receives.
pub open spec fn zz_count_s(v: usize, bound: int) -> int
    decreases bound,
{
    if bound <= 0 {
        0
    } else {
        zz_count_s(v, bound - 1) + (if !reserved_s(
            v,
            zz_cell_r_s(side_s(v), bound - 1),
            zz_cell_c_s(side_s(v), bound - 1),
        ) {
            1int
        } else {
            0int
        })
    }
}

/// One step of the zig-zag free-cell count.
pub proof fn lemma_zz_count_unfold(v: usize, pos: int)
    requires
        0 <= pos,
    ensures
        zz_count_s(v, pos + 1) == zz_count_s(v, pos) + (if !reserved_s(
            v,
            zz_cell_r_s(side_s(v), pos),
            zz_cell_c_s(side_s(v), pos),
        ) {
            1int
        } else {
            0int
        }),
{
}

/// Traversal position at which the zig-zag walk visits cell (r, c); not
/// meaningful for the skipped timing column.
pub open spec fn zz_pos_s(side: int, r: int, c: int) -> int {
    let p = pair_of_s(side, c);
    let step = if p % 2 == 0 {
        side - 1 - r
    } else {
        r
    };
    let dx = if c == zz_colr_s(side, p) {
        0int
    } else {
        1int
    };
    p * 2 * side + 2 * step + dx
}

/// A non-reserved cell of version `v` carries, in `after`, exactly the
/// data bit whose index is the number of non-reserved cells the zig-zag
/// walk visits earlier.
pub open spec fn placed_cell_s(v: usize, after: Grid, bits: Seq<bool>, r: int, c: int) -> bool {
    !reserved_s(v, r, c) ==> after.at_s(r, c) == Module::Data(
        bit_at_s(bits, zz_count_s(v, zz_pos_s(side_s(v), r, c))),
    )
}

/// Fills every free cell with data bits, walking the canonical zig-zag
/// column pairs from the right edge leftward, skipping the timing column;
/// bits past the end of `bits` are written light. Function cells are left
/// untouched, no free cell survives, and the bit each free cell receives is
/// pinned by its position in the traversal.
pub fn place_data(g: &mut Grid, bits: &Vec<bool>, v: Ghost<usize>)
    requires
        1 <= v@ <= 40,
        old(g).wf(),
        old(g).side == side_s(v@),
        forall|r: int, c: int|
            0 <= r < old(g).side && 0 <= c < old(g).side ==> old(g).at_s(r, c) == cell0_s(
                v@,
                r,
                c,
            ),
    ensures
        final(g).wf(),
        final(g).side == old(g).side,
        forall|r: int, c: int|
            0 <= r < old(g).side && 0 <= c < old(g).side ==> #[trigger] data_filled_s(
                *old(g),
                *final(g),
                r,
                c,
            ),
        forall|r: int, c: int|
            0 <= r < old(g).side && 0 <= c < old(g).side ==> #[trigger] placed_cell_s(
                v@,
                *final(g),
                bits@,
                r,
                c,
            ),
{
    let side = g.side;
    let npairs: usize = (side - 1) / 2;
    let mut idx: usize = 0;
    let mut pos: usize = 0;
    let mut p: usize = 0;
    proof {
        assert(0 * 2 * (side as int) == 0) by (nonlinear_arith);
        assert(0 <= (side as int) * (side as int)) by (nonlinear_arith);
    }
    while p < npairs
        invariant
            p <= npairs,
            npairs == (side - 1) / 2,
            21 <= side <= 177,
            side % 2 == 1,
            g.wf(),
            g.side == side == old(g).side,
            pos == p * 2 * side,
            pos <= side * side,
            idx <= pos,
            idx == zz_count_s(v@, pos as int),
            1 <= v@ <= 40,
            side == side_s(v@),
            forall|r: int, c: int|
                0 <= r < side && 0 <= c < side ==> old(g).at_s(r, c) == cell0_s(v@, r, c),
            forall|r: int, c: int|
                0 <= r < side && 0 <= c < side ==> #[trigger] part_filled_s(*old(g), *g, r, c),
            forall|r: int, c: int|
                0 <= r < side && 0 <= c < side && c != 6 && pair_of_s(side as int, c) < p
                    ==> #[trigger] placed_cell_s(v@, *g, bits@, r, c),
            forall|r: int, c: int|
                0 <= r < side && 0 <= c < side && c != 6 && #[trigger] zz_pos_s(side as int, r, c)
                    >= pos ==> g.at_s(r, c) == old(g).at_s(r, c),
        decreases npairs - p,
    {
        let colr: usize = if side - 1 - 2 * p > 6 {
            side - 1 - 2 * p
        } else {
            side - 2 - 2 * p
        };
        assert(colr >= 1);
        assert(colr == zz_colr_s(side as int, p as int));
        proof {
            assert((p + 1) * 2 * side <= side * side) by (nonlinear_arith)
                requires
                    p + 1 <= (side - 1) / 2,
                    side % 2 == 1,
                    21 <= side,
            ;
            assert(p * 2 * side + 2 * side == (p + 1) * 2 * side) by (nonlinear_arith);
        }
        let upward = p % 2 == 0;
        let mut step: usize = 0;
        while step < side
            invariant
                step <= side,
                p < npairs,
                npairs == (side - 1) / 2,
                21 <= side <= 177,
                side % 2 == 1,
                colr == zz_colr_s(side as int, p as int),
                1 <= colr < side,
                upward == (p % 2 == 0),
                g.wf(),
                g.side == side == old(g).side,
                pos == p * 2 * side + 2 * step,
                pos + 2 * (side - step) <= side * side,
                idx <= pos,
                idx == zz_count_s(v@, pos as int),
                1 <= v@ <= 40,
                side == side_s(v@),
                forall|r: int, c: int|
                    0 <= r < side && 0 <= c < side ==> old(g).at_s(r, c) == cell0_s(v@, r, c),
                forall|r: int, c: int|
                    0 <= r < side && 0 <= c < side ==> #[trigger] part_filled_s(*old(g), *g, r, c),
                forall|r: int, c: int|
                    0 <= r < side && 0 <= c < side && c != 6 && pair_of_s(side as int, c) < p
                        ==> #[trigger] placed_cell_s(v@, *g, bits@, r, c),
                forall|r: int, c: int|
                    0 <= r < side && colr - 1 <= c <= colr && (if upward {
                        r > side - 1 - step
                    } else {
                        r < step
                    }) ==> #[trigger] placed_cell_s(v@, *g, bits@, r, c),
                forall|r: int, c: int|
                    0 <= r < side && 0 <= c < side && c != 6 && #[trigger] zz_pos_s(
                        side as int,
                        r,
                        c,
                    ) >= pos ==> g.at_s(r, c) == old(g).at_s(r, c),
            decreases side - step,
        {
            let y: usize = if upward {
                side - 1 - step
            } else {
                step
            };
            let mut dx: usize = 0;
            while dx < 2
                invariant
                    dx <= 2,
                    y < side,
                    y == (if upward {
                        side - 1 - (step as int)
                    } else {
                        step as int
                    }),
                    step < side,
                    p < npairs,
                    npairs == (side - 1) / 2,
                    21 <= side <= 177,
                    side % 2 == 1,
                    colr == zz_colr_s(side as int, p as int),
                    1 <= colr < side,
                    upward == (p % 2 == 0),
                    g.wf(),
                    g.side == side == old(g).side,
                    pos == p * 2 * side + 2 * step + dx,
                    pos + 2 * (side - step) - dx <= side * side,
                    idx <= pos,
                    idx == zz_count_s(v@, pos as int),
                    1 <= v@ <= 40,
                    side == side_s(v@),
                    forall|r: int, c: int|
                        0 <= r < side && 0 <= c < side ==> old(g).at_s(r, c) == cell0_s(v@, r, c),
                    forall|r: int, c: int|
                        0 <= r < side && 0 <= c < side ==> #[trigger] part_filled_s(
                            *old(g),
                            *g,
                            r,
                            c,
                        ),
                    forall|r: int, c: int|
                        0 <= r < side && 0 <= c < side && c != 6 && pair_of_s(side as int, c) < p
                            ==> #[trigger] placed_cell_s(v@, *g, bits@, r, c),
                    forall|r: int, c: int|
                        0 <= r < side && colr - 1 <= c <= colr && (if upward {
                            r > side - 1 - step
                        } else {
                            r < step
                        }) ==> #[trigger] placed_cell_s(v@, *g, bits@, r, c),
                    forall|c: int|
                        colr - dx < c <= colr ==> #[trigger] placed_cell_s(
                            v@,
                            *g,
                            bits@,
                            y as int,
                            c,
                        ),
                    forall|r: int, c: int|
                        0 <= r < side && 0 <= c < side && c != 6 && #[trigger] zz_pos_s(
                            side as int,
                            r,
                            c,
                        ) >= pos ==> g.at_s(r, c) == old(g).at_s(r, c),
                decreases 2 - dx,
            {
                let cx: usize = colr - dx;
                proof {
                    assert(cx != 6);
                    assert(pair_of_s(side as int, cx as int) == p) by (nonlinear_arith)
                        requires
                            0 <= p,
                            21 <= side,
                            side % 2 == 1,
                            colr == zz_colr_s(side as int, p as int),
                            colr == (if side - 1 - 2 * (p as int) > 6 {
                                side - 1 - 2 * (p as int)
                            } else {
                                side - 2 - 2 * (p as int)
                            }),
                            cx == colr - dx,
                            dx < 2,
                            1 <= colr,
                            pair_of_s(side as int, cx as int) == (if cx >= 7 {
                                (side - 1 - (cx as int)) / 2
                            } else {
                                (side - 2 - (cx as int)) / 2
                            }),
                    ;
                    assert(zz_pos_s(side as int, y as int, cx as int) == pos);
                    assert((pos as int) / (2 * (side as int)) == p && (pos as int) % (2 * (
                    side as int)) == 2 * step + dx) by (nonlinear_arith)
                        requires
                            pos == (p as int) * 2 * side + 2 * step + dx,
                            0 <= 2 * (step as int) + dx < 2 * (side as int),
                            0 <= p,
                            0 < side,
                    ;
                    assert(zz_cell_r_s(side as int, pos as int) == y);
                    assert(zz_cell_c_s(side as int, pos as int) == cx);
                    assert(g.at_s(y as int, cx as int) == old(g).at_s(y as int, cx as int));
                    assert(old(g).at_s(y as int, cx as int) == cell0_s(v@, y as int, cx as int));
                    assert((old(g).at_s(y as int, cx as int) is Free) == !reserved_s(
                        v@,
                        y as int,
                        cx as int,
                    ));
                    lemma_zz_count_unfold(v@, pos as int);
                }
                let cur = g.get(y, cx);
                let ghost gpre = *g;
                match cur {
                    Module::Free => {
                        let b: bool = if idx < bits.len() {
                            bits[idx]
                        } else {
                            false
                        };
                        assert(b == bit_at_s(bits@, idx as int));
                        idx += 1;
                        g.put(y, cx, Module::Data(b));
                    },
                    _ => {},
                }
                proof {
                    assert(idx == zz_count_s(v@, pos + 1));
                    assert(placed_cell_s(v@, *g, bits@, y as int, cx as int));
                    assert forall|r: int, c: int|
                        0 <= r < side && 0 <= c < side && !(r == y as int && c == cx as int)
                        implies g.at_s(r, c) == gpre.at_s(r, c) by {}
                    assert forall|r: int, c: int|
                        0 <= r < side && 0 <= c < side implies #[trigger] part_filled_s(
                        *old(g),
                        *g,
                        r,
                        c,
                    ) by {
                        assert(part_filled_s(*old(g), gpre, r, c));
                        if !(r == y as int && c == cx as int) {
                            assert(g.at_s(r, c) == gpre.at_s(r, c));
                        }
                    }
                    assert forall|r: int, c: int|
                        0 <= r < side && 0 <= c < side && c != 6 && pair_of_s(side as int, c) < p
                        implies #[trigger] placed_cell_s(v@, *g, bits@, r, c) by {
                        assert(placed_cell_s(v@, gpre, bits@, r, c));
                        if !(r == y as int && c == cx as int) {
                            assert(g.at_s(r, c) == gpre.at_s(r, c));
                        }
                    }
                    assert forall|r: int, c: int|
                        0 <= r < side && colr - 1 <= c <= colr && (if upward {
                            r > side - 1 - step
                        } else {
                            r < step
                        }) implies #[trigger] placed_cell_s(v@, *g, bits@, r, c) by {
                        assert(placed_cell_s(v@, gpre, bits@, r, c));
                        if !(r == y as int && c == cx as int) {
                            assert(g.at_s(r, c) == gpre.at_s(r, c));
                        }
                    }
                    assert forall|c: int|
                        colr - (dx + 1) < c <= colr implies #[trigger] placed_cell_s(
                        v@,
                        *g,
                        bits@,
                        y as int,
                        c,
                    ) by {
                        if c != cx as int {
                            assert(placed_cell_s(v@, gpre, bits@, y as int, c));
                            assert(g.at_s(y as int, c) == gpre.at_s(y as int, c));
                        }
                    }
                    assert forall|r: int, c: int|
                        0 <= r < side && 0 <= c < side && c != 6 && #[trigger] zz_pos_s(
                        side as int,
                        r,
                        c,
                    ) >= pos + 1 implies g.at_s(r, c) == old(g).at_s(r, c) by {
                        if r == y as int && c == cx as int {
                            assert(zz_pos_s(side as int, r, c) == pos);
                        } else {
                            assert(g.at_s(r, c) == gpre.at_s(r, c));
                        }
                    }
                }
                pos += 1;
                dx += 1;
            }
            proof {
                assert forall|r: int, c: int|
                    0 <= r < side && colr - 1 <= c <= colr && (if upward {
                        r > side - 1 - (step + 1)
                    } else {
                        r < step + 1
                    }) implies #[trigger] placed_cell_s(v@, *g, bits@, r, c) by {
                    if r == y as int {
                        assert(placed_cell_s(v@, *g, bits@, y as int, c));
                    }
                }
            }
            step += 1;
        }
        proof {
            assert forall|r: int, c: int|
                0 <= r < side && 0 <= c < side && c != 6 && pair_of_s(side as int, c) < p + 1
                implies #[trigger] placed_cell_s(v@, *g, bits@, r, c) by {
                if pair_of_s(side as int, c) == p {
                    assert(colr - 1 <= c <= colr) by (nonlinear_arith)
                        requires
                            pair_of_s(side as int, c) == p,
                            0 <= c < side,
                            c != 6,
                            side % 2 == 1,
                            21 <= side,
                            p < npairs,
                            npairs == (side - 1) / 2,
                            colr == (if side - 1 - 2 * p > 6 {
                                side - 1 - 2 * (p as int)
                            } else {
                                side - 2 - 2 * (p as int)
                            }),
                            pair_of_s(side as int, c) == (if c >= 7 {
                                (side - 1 - c) / 2
                            } else {
                                (side - 2 - c) / 2
                            }),
                    ;
                }
            }
            assert((p + 1) * 2 * side == p * 2 * side + 2 * side) by (nonlinear_arith);
            assert((p + 1) * 2 * side <= side * side) by (nonlinear_arith)
                requires
                    p + 1 <= (side - 1) / 2,
                    side % 2 == 1,
                    21 <= side,
            ;
        }
        p += 1;
    }
    proof {
        assert forall|r: int, c: int|
            0 <= r < side && 0 <= c < side implies #[trigger] placed_cell_s(
            v@,
            *g,
            bits@,
            r,
            c,
        ) by {
            assert(part_filled_s(*old(g), *g, r, c));
            if !reserved_s(v@, r, c) {
                assert(old(g).at_s(r, c) == cell0_s(v@, r, c));
                assert(old(g).at_s(r, c) is Free);
                assert(c != 6);
                assert(pair_of_s(side as int, c) < npairs) by (nonlinear_arith)
                    requires
                        0 <= c < side,
                        c != 6,
                        side % 2 == 1,
                        21 <= side,
                        npairs == (side - 1) / 2,
                        pair_of_s(side as int, c) == (if c >= 7 {
                            (side - 1 - c) / 2
                        } else {
                            (side - 2 - c) / 2
                        }),
                ;
                assert(placed_cell_s(v@, *g, bits@, r, c));
            }
        }
        assert forall|r: int, c: int|
            0 <= r < side && 0 <= c < side implies #[trigger] data_filled_s(*old(g), *g, r, c) by {
            assert(placed_cell_s(v@, *g, bits@, r, c));
            assert(part_filled_s(*old(g), *g, r, c));
            assert(old(g).at_s(r, c) == cell0_s(v@, r, c));
        }
    }
}

/// Index of the zig-zag column pair that visits column `c` (column 6 is
/// skipped by the traversal).
pub open spec fn pair_of_s(side: int, c: int) -> int {
    if c >= 7 {
        (side - 1 - c) / 2
    } else {
        (side - 2 - c) / 2
    }
}


/// The 15-bit format word: two level bits and three mask bits, their ten
/// BCH check bits, all XORed with the fixed format mask 0x5412.
pub open spec fn fmt15_s(l: EcLevel, m: u32) -> u32 {
    let d = (level_bits_s(l) << 3) | m;
    let x0 = d << 10;
    let x1 = if x0 & 0x4000 != 0 {
        x0 ^ (0x537u32 << 4)
    } else {
        x0
    };
    let x2 = if x1 & 0x2000 != 0 {
        x1 ^ (0x537u32 << 3)
    } else {
        x1
    };
    let x3 = if x2 & 0x1000 != 0 {
        x2 ^ (0x537u32 << 2)
    } else {
        x2
    };
    let x4 = if x3 & 0x800 != 0 {
        x3 ^ (0x537u32 << 1)
    } else {
        x3
    };
    let x5 = if x4 & 0x400 != 0 {
        x4 ^ 0x537
    } else {
        x4
    };
    ((d << 10) | x5) ^ 0x5412
}

/// Executable format word.
pub fn fmt15(l: EcLevel, m: u32) -> (r: u32)
    ensures
        r == fmt15_s(l, m),
{
    let d: u32 = (level_bits(l) << 3) | m;
    let x0: u32 = d << 10;
    let x1: u32 = if x0 & 0x4000 != 0 {
        x0 ^ (0x537u32 << 4)
    } else {
        x0
    };
    let x2: u32 = if x1 & 0x2000 != 0 {
        x1 ^ (0x537u32 << 3)
    } else {
        x1
    };
    let x3: u32 = if x2 & 0x1000 != 0 {
        x2 ^ (0x537u32 << 2)
    } else {
        x2
    };
    let x4: u32 = if x3 & 0x800 != 0 {
        x3 ^ (0x537u32 << 1)
    } else {
        x3
    };
    let x5: u32 = if x4 & 0x400 != 0 {
        x4 ^ 0x537
    } else {
        x4
    };
    ((d << 10) | x5) ^ 0x5412
}

/// The 18-bit version word for version 7 up: six version bits and their
/// twelve BCH check bits.
pub open spec fn ver18_s(v: usize) -> u32 {
    let d = v as u32;
    let x0 = d << 12;
    let x1 = if x0 & 0x20000 != 0 {
        x0 ^ (0x1f25u32 << 5)
    } else {
        x0
    };
    let x2 = if x1 & 0x10000 != 0 {
        x1 ^ (0x1f25u32 << 4)
    } else {
        x1
    };
    let x3 = if x2 & 0x8000 != 0 {
        x2 ^ (0x1f25u32 << 3)
    } else {
        x2
    };
    let x4 = if x3 & 0x4000 != 0 {
        x3 ^ (0x1f25u32 << 2)
    } else {
        x3
    };
    let x5 = if x4 & 0x2000 != 0 {
        x4 ^ (0x1f25u32 << 1)
    } else {
        x4
    };
    let x6 = if x5 & 0x1000 != 0 {
        x5 ^ 0x1f25
    } else {
        x5
    };
    ((v as u32) << 12) | x6
}

/// Executable version word.
pub fn ver18(v: usize) -> (r: u32)
    requires
        v <= 40,
    ensures
        r == ver18_s(v),
{
    let d: u32 = v as u32;
    let x0: u32 = d << 12;
    let x1: u32 = if x0 & 0x20000 != 0 {
        x0 ^ (0x1f25u32 << 5)
    } else {
        x0
    };
    let x2: u32 = if x1 & 0x10000 != 0 {
        x1 ^ (0x1f25u32 << 4)
    } else {
        x1
    };
    let x3: u32 = if x2 & 0x8000 != 0 {
        x2 ^ (0x1f25u32 << 3)
    } else {
        x2
    };
    let x4: u32 = if x3 & 0x4000 != 0 {
        x3 ^ (0x1f25u32 << 2)
    } else {
        x3
    };
    let x5: u32 = if x4 & 0x2000 != 0 {
        x4 ^ (0x1f25u32 << 1)
    } else {
        x4
    };
    let x6: u32 = if x5 & 0x1000 != 0 {
        x5 ^ 0x1f25
    } else {
        x5
    };
    (d << 12) | x6
}

/// Which bit of the format word cell (r, c) shows, or -1: the first copy
/// runs around the upper-left finder, the second along the lower-left and
/// upper-right edges.
pub open spec fn fmt_idx_s(side: int, r: int, c: int) -> int {
    if r == 8 {
        if c <= 5 {
            14 - c
        } else if c == 7 {
            8
        } else if c == 8 {
            7
        } else if c >= side - 8 {
            side - 1 - c
        } else {
            -1
        }
    } else if c == 8 {
        if r <= 5 {
            r
        } else if r == 7 {
            6
        } else if r >= side - 7 {
            r - side + 15
        } else {
            -1
        }
    } else {
        -1
    }
}

/// Which bit of the version word cell (r, c) shows, or -1; the two 6-by-3
/// blocks sit beside the upper-right and lower-left finder zones.
pub open spec fn ver_idx_s(side: int, r: int, c: int) -> int {
    if r <= 5 && side - 11 <= c <= side - 9 {
        3 * r + (c - (side - 11))
    } else if c <= 5 && side - 11 <= r <= side - 9 {
        3 * c + (r - (side - 11))
    } else {
        -1
    }
}

/// Final color of cell (r, c) of grid contents `g` once mask `m` is applied
/// to the data modules and the format and version words are written.
pub open spec fn final_cell_s(g: Grid, v: usize, l: EcLevel, m: int, r: int, c: int) -> bool {
    let side = side_s(v);
    match g.at_s(r, c) {
        Module::Data(b) => b != mask_bit_s(m, r, c),
        Module::Func(b) => {
            let fi = fmt_idx_s(side, r, c);
            let vi = ver_idx_s(side, r, c);
            if fi >= 0 {
                bit_of(fmt15_s(l, m as u32), fi as u32)
            } else if v >= 7 && vi >= 0 {
                bit_of(ver18_s(v), vi as u32)
            } else {
                b
            }
        },
        Module::Free => false,
    }
}

/// The whole finished module sequence, row-major.
pub open spec fn final_grid_s(g: Grid, v: usize, l: EcLevel, m: int) -> Seq<bool> {
    Seq::new((side_s(v) * side_s(v)) as nat, |k: int| final_cell_s(g, v, l, m, k / side_s(v), k % side_s(v)))
}

/// Data mask formula `m` of the standard at cell (r, c): a dark cell is
/// inverted where the formula holds.
pub open spec fn mask_bit_s(m: int, r: int, c: int) -> bool {
    if m == 0 {
        (r + c) % 2 == 0
    } else if m == 1 {
        r % 2 == 0
    } else if m == 2 {
        c % 3 == 0
    } else if m == 3 {
        (r + c) % 3 == 0
    } else if m == 4 {
        (r / 2 + c / 3) % 2 == 0
    } else if m == 5 {
        (r * c) % 2 + (r * c) % 3 == 0
    } else if m == 6 {
        ((r * c) % 2 + (r * c) % 3) % 2 == 0
    } else {
        ((r + c) % 2 + (r * c) % 3) % 2 == 0
    }
}

/// Executable mask formula.
pub fn mask_bit(m: usize, r: usize, c: usize) -> (res: bool)
    requires
        m < 8,
        r < 177,
        c < 177,
    ensures
        res == mask_bit_s(m as int, r as int, c as int),
{
    proof {
        assert(r * c <= 177 * 177) by (nonlinear_arith)
            requires
                r < 177,
                c < 177,
        ;
    }
    if m == 0 {
        (r + c) % 2 == 0
    } else if m == 1 {
        r % 2 == 0
    } else if m == 2 {
        c % 3 == 0
    } else if m == 3 {
        (r + c) % 3 == 0
    } else if m == 4 {
        (r / 2 + c / 3) % 2 == 0
    } else if m == 5 {
        (r * c) % 2 + (r * c) % 3 == 0
    } else if m == 6 {
        ((r * c) % 2 + (r * c) % 3) % 2 == 0
    } else {
        ((r + c) % 2 + (r * c) % 3) % 2 == 0
    }
}

/// Renders the filled grid into its final colors under mask `m`: data
/// modules are masked, the format and version words are written into their
/// reserved cells, every other function cell keeps its color.
pub fn finalize_grid(g: &Grid, v: usize, l: EcLevel, m: usize) -> (out: Vec<bool>)
    requires
        g.wf(),
        1 <= v <= 40,
        g.side == side_s(v),
        m < 8,
    ensures
        out@ == final_grid_s(*g, v, l, m as int),
{
    let side = g.side;
    let fword = fmt15(l, m as u32);
    let vword = ver18(v);
    let mut out: Vec<bool> = Vec::new();
    let mut r: usize = 0;
    while r < side
        invariant
            r <= side <= 177,
            1 <= v <= 40,
            m < 8,
            g.wf(),
            g.side == side == side_s(v),
            fword == fmt15_s(l, m as u32),
            vword == ver18_s(v),
            out@.len() == r * side,
            forall|r2: int, c2: int|
                0 <= r2 < r && 0 <= c2 < side ==> out@[r2 * side + c2] == final_cell_s(
                    *g,
                    v,
                    l,
                    m as int,
                    r2,
                    c2,
                ),
        decreases side - r,
    {
        let mut c: usize = 0;
        while c < side
            invariant
                c <= side <= 177,
                r < side,
                1 <= v <= 40,
                m < 8,
                g.wf(),
                g.side == side == side_s(v),
                fword == fmt15_s(l, m as u32),
                vword == ver18_s(v),
                out@.len() == r * side + c,
                forall|r2: int, c2: int|
                    0 <= r2 < r && 0 <= c2 < side ==> out@[r2 * side + c2] == final_cell_s(
                        *g,
                        v,
                        l,
                        m as int,
                        r2,
                        c2,
                    ),
                forall|c2: int|
                    0 <= c2 < c ==> out@[r as int * side + c2] == final_cell_s(
                        *g,
                        v,
                        l,
                        m as int,
                        r as int,
                        c2,
                    ),
            decreases side - c,
        {
            proof {
                lemma_rc_index(side as int, r as int, c as int);
            }
            let val: bool = match g.get(r, c) {
                Module::Data(b) => b != mask_bit(m, r, c),
                Module::Func(b) => {
                    let mut fi: i32 = -1;
                    if r == 8 {
                        if c <= 5 {
                            fi = 14 - (c as i32);
                        } else if c == 7 {
                            fi = 8;
                        } else if c == 8 {
                            fi = 7;
                        } else if c >= side - 8 {
                            fi = (side as i32) - 1 - (c as i32);
                        }
                    } else if c == 8 {
                        if r <= 5 {
                            fi = r as i32;
                        } else if r == 7 {
                            fi = 6;
                        } else if r >= side - 7 {
                            fi = (r as i32) - (side as i32) + 15;
                        }
                    }
                    let mut vi: i32 = -1;
                    if r <= 5 && side - 11 <= c && c <= side - 9 {
                        vi = 3 * (r as i32) + ((c as i32) - ((side as i32) - 11));
                    } else if c <= 5 && side - 11 <= r && r <= side - 9 {
                        vi = 3 * (c as i32) + ((r as i32) - ((side as i32) - 11));
                    }
                    assert(fi == fmt_idx_s(side as int, r as int, c as int));
                    assert(vi == ver_idx_s(side as int, r as int, c as int));
                    if fi >= 0 {
                        (fword >> (fi as u32)) & 1 == 1
                    } else if v >= 7 && vi >= 0 {
                        (vword >> (vi as u32)) & 1 == 1
                    } else {
                        b
                    }
                },
                Module::Free => false,
            };
            out.push(val);
            proof {
                assert forall|r2: int, c2: int|
                    0 <= r2 < r && 0 <= c2 < side implies out@[r2 * side + c2] == final_cell_s(
                    *g,
                    v,
                    l,
                    m as int,
                    r2,
                    c2,
                ) by {
                    lemma_rc_index(side as int, r2, c2);
                    assert(r2 * side + c2 < r as int * side) by (nonlinear_arith)
                        requires
                            0 <= r2 < r,
                            0 <= c2 < side,
                    ;
                }
            }
            c += 1;
        }
        proof {
            assert((r + 1) * side == r * side + side) by (nonlinear_arith);
        }
        r += 1;
    }
    proof {
        assert(out@.len() == side * side) by (nonlinear_arith)
            requires
                out@.len() == (side as int) * (side as int),
        ;
        assert forall|k: int| 0 <= k < side * side implies out@[k] == final_grid_s(
            *g,
            v,
            l,
            m as int,
        )[k] by {
            lemma_div_in_range(k, side as int);
        }
        assert(out@ =~= final_grid_s(*g, v, l, m as int));
    }
    out
}

} // verus!
