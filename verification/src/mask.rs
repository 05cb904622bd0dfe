use crate::grid::{final_grid_s, finalize_grid, iabs, lemma_rc_index, Grid};
use crate::tables::side_s;
use crate::types::EcLevel;
use vstd::prelude::*;

verus! {

/// Color of cell (r, c) of a finished module sequence.
pub open spec fn gb_s(g: Seq<bool>, side: int, r: int, c: int) -> bool {
    g[r * side + c]
}

/// Cell `b` of line `a`: row `a` when `h` holds, else column `a`.
pub open spec fn line_s(g: Seq<bool>, side: int, h: bool, a: int, b: int) -> bool {
    if h {
        gb_s(g, side, a, b)
    } else {
        gb_s(g, side, b, a)
    }
}

/// Executable line read.
pub fn line_at(g: &Vec<bool>, side: usize, h: bool, a: usize, b: usize) -> (r: bool)
    requires
        g@.len() == side * side,
        a < side,
        b < side,
        side <= 177,
    ensures
        r == line_s(g@, side as int, h, a as int, b as int),
{
    proof {
        assert(side * side <= 31329) by (nonlinear_arith)
            requires
                side <= 177,
        ;
    }
    if h {
        proof {
            lemma_rc_index(side as int, a as int, b as int);
        }
        g[a * side + b]
    } else {
        proof {
            lemma_rc_index(side as int, b as int, a as int);
        }
        g[b * side + a]
    }
}

/// Start of a maximal run of at least five same-colored cells at position
/// `i` of a line.
pub open spec fn run5_s(g: Seq<bool>, side: int, h: bool, a: int, i: int) -> bool {
    let x = line_s(g, side, h, a, i);
    i + 5 <= side && line_s(g, side, h, a, i + 1) == x && line_s(g, side, h, a, i + 2) == x
        && line_s(g, side, h, a, i + 3) == x && line_s(g, side, h, a, i + 4) == x && (i == 0
        || line_s(g, side, h, a, i - 1) != x)
}

/// Six consecutive same-colored cells start at position `i`; each one
/// extends a run beyond five by one cell.
pub open spec fn run6_s(g: Seq<bool>, side: int, h: bool, a: int, i: int) -> bool {
    let x = line_s(g, side, h, a, i);
    i + 6 <= side && line_s(g, side, h, a, i + 1) == x && line_s(g, side, h, a, i + 2) == x
        && line_s(g, side, h, a, i + 3) == x && line_s(g, side, h, a, i + 4) == x && line_s(
        g,
        side,
        h,
        a,
        i + 5,
    ) == x
}

/// A finder-like 1:1:3:1:1 dark run with a four-cell light margin on one
/// side, starting at position `i` of a line.
pub open spec fn finder_like_s(g: Seq<bool>, side: int, h: bool, a: int, i: int) -> bool {
    i + 11 <= side && {
        let w0 = line_s(g, side, h, a, i);
        let w1 = line_s(g, side, h, a, i + 1);
        let w2 = line_s(g, side, h, a, i + 2);
        let w3 = line_s(g, side, h, a, i + 3);
        let w4 = line_s(g, side, h, a, i + 4);
        let w5 = line_s(g, side, h, a, i + 5);
        let w6 = line_s(g, side, h, a, i + 6);
        let w7 = line_s(g, side, h, a, i + 7);
        let w8 = line_s(g, side, h, a, i + 8);
        let w9 = line_s(g, side, h, a, i + 9);
        let w10 = line_s(g, side, h, a, i + 10);
        (w0 && !w1 && w2 && w3 && w4 && !w5 && w6 && !w7 && !w8 && !w9 && !w10) || (!w0 && !w1
            && !w2 && !w3 && w4 && !w5 && w6 && w7 && w8 && !w9 && w10)
    }
}

/// Penalty contributed at position `i` of a line: 3 where a long run
/// starts, 1 more per cell past five, 40 per finder-like pattern.
pub open spec fn pen_pos_s(g: Seq<bool>, side: int, h: bool, a: int, i: int) -> int {
    (if run5_s(g, side, h, a, i) {
        3int
    } else {
        0int
    }) + (if run6_s(g, side, h, a, i) {
        1int
    } else {
        0int
    }) + (if finder_like_s(g, side, h, a, i) {
        40int
    } else {
        0int
    })
}

pub open spec fn pen_line_from_s(g: Seq<bool>, side: int, h: bool, a: int, i: int) -> int
    decreases side - i,
{
    if i < 0 || i >= side {
        0
    } else {
        pen_pos_s(g, side, h, a, i) + pen_line_from_s(g, side, h, a, i + 1)
    }
}

pub open spec fn pen_dir_from_s(g: Seq<bool>, side: int, h: bool, a: int) -> int
    decreases side - a,
{
    if a < 0 || a >= side {
        0
    } else {
        pen_line_from_s(g, side, h, a, 0) + pen_dir_from_s(g, side, h, a + 1)
    }
}

/// A 2-by-2 block of uniform color with its corner at (r, c); each costs 3.
pub open spec fn blk_pos_s(g: Seq<bool>, side: int, r: int, c: int) -> int {
    let x = gb_s(g, side, r, c);
    if r + 1 < side && c + 1 < side && gb_s(g, side, r, c + 1) == x && gb_s(g, side, r + 1, c)
        == x && gb_s(g, side, r + 1, c + 1) == x {
        3
    } else {
        0
    }
}

pub open spec fn blk_row_from_s(g: Seq<bool>, side: int, r: int, c: int) -> int
    decreases side - c,
{
    if c < 0 || c >= side {
        0
    } else {
        blk_pos_s(g, side, r, c) + blk_row_from_s(g, side, r, c + 1)
    }
}

pub open spec fn blk_rows_from_s(g: Seq<bool>, side: int, r: int) -> int
    decreases side - r,
{
    if r < 0 || r >= side {
        0
    } else {
        blk_row_from_s(g, side, r, 0) + blk_rows_from_s(g, side, r + 1)
    }
}

pub open spec fn dark_row_from_s(g: Seq<bool>, side: int, r: int, c: int) -> int
    decreases side - c,
{
    if c < 0 || c >= side {
        0
    } else {
        (if gb_s(g, side, r, c) {
            1int
        } else {
            0int
        }) + dark_row_from_s(g, side, r, c + 1)
    }
}

pub open spec fn dark_rows_from_s(g: Seq<bool>, side: int, r: int) -> int
    decreases side - r,
{
    if r < 0 || r >= side {
        0
    } else {
        dark_row_from_s(g, side, r, 0) + dark_rows_from_s(g, side, r + 1)
    }
}

/// The total penalty score of a finished module sequence: long runs and
/// finder-like patterns along rows and columns, uniform 2-by-2 blocks, and
/// ten points per five percent that the dark share strays from one half.
pub open spec fn penalty_s(g: Seq<bool>, side: int) -> int {
    let tot = side * side;
    let d = dark_rows_from_s(g, side, 0);
    pen_dir_from_s(g, side, true, 0) + pen_dir_from_s(g, side, false, 0) + blk_rows_from_s(
        g,
        side,
        0,
    ) + 10 * ((iabs(2 * d - tot) * 10) / tot)
}

pub proof fn lemma_pen_line_bound(g: Seq<bool>, side: int, h: bool, a: int, i: int)
    requires
        0 <= i <= side,
    ensures
        0 <= pen_line_from_s(g, side, h, a, i) <= 44 * (side - i),
    decreases side - i,
{
    if i < side {
        lemma_pen_line_bound(g, side, h, a, i + 1);
    }
}

pub proof fn lemma_pen_dir_bound(g: Seq<bool>, side: int, h: bool, a: int)
    requires
        0 <= a <= side,
        side <= 177,
    ensures
        0 <= pen_dir_from_s(g, side, h, a) <= 7788 * (side - a),
    decreases side - a,
{
    if a < side {
        lemma_pen_line_bound(g, side, h, a, 0);
        lemma_pen_dir_bound(g, side, h, a + 1);
    }
}

pub proof fn lemma_blk_row_bound(g: Seq<bool>, side: int, r: int, c: int)
    requires
        0 <= c <= side,
    ensures
        0 <= blk_row_from_s(g, side, r, c) <= 3 * (side - c),
    decreases side - c,
{
    if c < side {
        lemma_blk_row_bound(g, side, r, c + 1);
    }
}

pub proof fn lemma_blk_rows_bound(g: Seq<bool>, side: int, r: int)
    requires
        0 <= r <= side,
        side <= 177,
    ensures
        0 <= blk_rows_from_s(g, side, r) <= 531 * (side - r),
    decreases side - r,
{
    if r < side {
        lemma_blk_row_bound(g, side, r, 0);
        lemma_blk_rows_bound(g, side, r + 1);
    }
}

pub proof fn lemma_dark_row_bound(g: Seq<bool>, side: int, r: int, c: int)
    requires
        0 <= c <= side,
    ensures
        0 <= dark_row_from_s(g, side, r, c) <= side - c,
    decreases side - c,
{
    if c < side {
        lemma_dark_row_bound(g, side, r, c + 1);
    }
}

pub proof fn lemma_dark_rows_bound(g: Seq<bool>, side: int, r: int)
    requires
        0 <= r <= side,
        side <= 177,
    ensures
        0 <= dark_rows_from_s(g, side, r) <= 177 * (side - r),
    decreases side - r,
{
    if r < side {
        lemma_dark_row_bound(g, side, r, 0);
        lemma_dark_rows_bound(g, side, r + 1);
    }
}

/// Executable penalty at one line position.
pub fn pen_pos(g: &Vec<bool>, side: usize, h: bool, a: usize, i: usize) -> (r: usize)
    requires
        g@.len() == side * side,
        a < side,
        i < side,
        side <= 177,
    ensures
        r == pen_pos_s(g@, side as int, h, a as int, i as int),
{
    let mut total: usize = 0;
    if i + 5 <= side {
        let x = line_at(g, side, h, a, i);
        let eq = line_at(g, side, h, a, i + 1) == x && line_at(g, side, h, a, i + 2) == x
            && line_at(g, side, h, a, i + 3) == x && line_at(g, side, h, a, i + 4) == x;
        let boundary = i == 0 || line_at(g, side, h, a, i - 1) != x;
        if eq && boundary {
            total += 3;
        }
        if i + 6 <= side && eq && line_at(g, side, h, a, i + 5) == x {
            total += 1;
        }
    }
    if i + 11 <= side {
        let w0 = line_at(g, side, h, a, i);
        let w1 = line_at(g, side, h, a, i + 1);
        let w2 = line_at(g, side, h, a, i + 2);
        let w3 = line_at(g, side, h, a, i + 3);
        let w4 = line_at(g, side, h, a, i + 4);
        let w5 = line_at(g, side, h, a, i + 5);
        let w6 = line_at(g, side, h, a, i + 6);
        let w7 = line_at(g, side, h, a, i + 7);
        let w8 = line_at(g, side, h, a, i + 8);
        let w9 = line_at(g, side, h, a, i + 9);
        let w10 = line_at(g, side, h, a, i + 10);
        let pa = w0 && !w1 && w2 && w3 && w4 && !w5 && w6 && !w7 && !w8 && !w9 && !w10;
        let pb = !w0 && !w1 && !w2 && !w3 && w4 && !w5 && w6 && w7 && w8 && !w9 && w10;
        if pa || pb {
            total += 40;
        }
    }
    total
}

/// Executable total penalty score.
pub fn penalty(g: &Vec<bool>, side: usize) -> (p: usize)
    requires
        g@.len() == side * side,
        21 <= side <= 177,
    ensures
        p == penalty_s(g@, side as int),
{
    let mut acc: usize = 0;
    let mut hi: usize = 0;
    while hi < 2
        invariant
            hi <= 2,
            21 <= side <= 177,
            g@.len() == side * side,
            acc == (if hi >= 1 {
                pen_dir_from_s(g@, side as int, true, 0)
            } else {
                0int
            }) + (if hi >= 2 {
                pen_dir_from_s(g@, side as int, false, 0)
            } else {
                0int
            }),
            acc <= 2 * 7788 * 177,
        decreases 2 - hi,
    {
        let h = hi == 0;
        let mut a: usize = 0;
        let ghost acc0 = acc as int;
        let mut dir_acc: usize = 0;
        while a < side
            invariant
                a <= side,
                21 <= side <= 177,
                g@.len() == side * side,
                dir_acc + pen_dir_from_s(g@, side as int, h, a as int) == pen_dir_from_s(
                    g@,
                    side as int,
                    h,
                    0,
                ),
                0 <= dir_acc <= 7788 * 177,
            decreases side - a,
        {
            let mut i: usize = 0;
            while i < side
                invariant
                    i <= side,
                    a < side,
                    21 <= side <= 177,
                    g@.len() == side * side,
                    dir_acc + pen_line_from_s(g@, side as int, h, a as int, i as int)
                        + pen_dir_from_s(g@, side as int, h, a as int + 1) == pen_dir_from_s(
                        g@,
                        side as int,
                        h,
                        0,
                    ),
                    0 <= dir_acc <= 7788 * 177,
                decreases side - i,
            {
                proof {
                    lemma_pen_line_bound(g@, side as int, h, a as int, i as int + 1);
                    lemma_pen_dir_bound(g@, side as int, h, a as int + 1);
                    lemma_pen_dir_bound(g@, side as int, h, 0);
                }
                let t = pen_pos(g, side, h, a, i);
                dir_acc += t;
                i += 1;
            }
            a += 1;
        }
        proof {
            lemma_pen_dir_bound(g@, side as int, true, 0);
            lemma_pen_dir_bound(g@, side as int, false, 0);
        }
        acc += dir_acc;
        hi += 1;
    }
    let mut blk: usize = 0;
    let mut r: usize = 0;
    while r < side
        invariant
            r <= side,
            21 <= side <= 177,
            g@.len() == side * side,
            blk + blk_rows_from_s(g@, side as int, r as int) == blk_rows_from_s(g@, side as int, 0),
            0 <= blk <= 531 * 177,
        decreases side - r,
    {
        let mut c: usize = 0;
        while c < side
            invariant
                c <= side,
                r < side,
                21 <= side <= 177,
                g@.len() == side * side,
                blk + blk_row_from_s(g@, side as int, r as int, c as int) + blk_rows_from_s(
                    g@,
                    side as int,
                    r as int + 1,
                ) == blk_rows_from_s(g@, side as int, 0),
                0 <= blk <= 531 * 177,
            decreases side - c,
        {
            proof {
                lemma_blk_row_bound(g@, side as int, r as int, c as int + 1);
                lemma_blk_rows_bound(g@, side as int, r as int + 1);
                lemma_blk_rows_bound(g@, side as int, 0);
            }
            let x = line_at(g, side, true, r, c);
            if r + 1 < side && c + 1 < side && line_at(g, side, true, r, c + 1) == x && line_at(
                g,
                side,
                true,
                r + 1,
                c,
            ) == x && line_at(g, side, true, r + 1, c + 1) == x {
                blk += 3;
            }
            c += 1;
        }
        r += 1;
    }
    let mut dark: usize = 0;
    let mut r2: usize = 0;
    while r2 < side
        invariant
            r2 <= side,
            21 <= side <= 177,
            g@.len() == side * side,
            dark + dark_rows_from_s(g@, side as int, r2 as int) == dark_rows_from_s(
                g@,
                side as int,
                0,
            ),
            0 <= dark <= 177 * 177,
        decreases side - r2,
    {
        let mut c2: usize = 0;
        while c2 < side
            invariant
                c2 <= side,
                r2 < side,
                21 <= side <= 177,
                g@.len() == side * side,
                dark + dark_row_from_s(g@, side as int, r2 as int, c2 as int) + dark_rows_from_s(
                    g@,
                    side as int,
                    r2 as int + 1,
                ) == dark_rows_from_s(g@, side as int, 0),
                0 <= dark <= 177 * 177,
            decreases side - c2,
        {
            proof {
                lemma_dark_row_bound(g@, side as int, r2 as int, c2 as int + 1);
                lemma_dark_rows_bound(g@, side as int, r2 as int + 1);
                lemma_dark_rows_bound(g@, side as int, 0);
            }
            if line_at(g, side, true, r2, c2) {
                dark += 1;
            }
            c2 += 1;
        }
        r2 += 1;
    }
    proof {
        assert(21 * 21 <= side * side <= 177 * 177) by (nonlinear_arith)
            requires
                21 <= side <= 177,
        ;
    }
    let tot: usize = side * side;
    let diff: usize = if 2 * dark >= tot {
        2 * dark - tot
    } else {
        tot - 2 * dark
    };
    let n4: usize = 10 * ((diff * 10) / tot);
    acc + blk + n4
}

/// Tries all eight mask patterns on the filled grid, scores each finished
/// candidate, and returns the mask with the least penalty together with its
/// finished module sequence; ties go to the lowest mask id. No other mask
/// scores strictly better.
pub fn select_mask(g: &Grid, v: usize, l: EcLevel) -> (r: (usize, Vec<bool>))
    requires
        g.wf(),
        1 <= v <= 40,
        g.side == side_s(v),
    ensures
        r.0 < 8,
        r.1@ == final_grid_s(*g, v, l, r.0 as int),
        forall|m2: int|
            0 <= m2 < 8 ==> penalty_s(final_grid_s(*g, v, l, r.0 as int), side_s(v))
                <= #[trigger] penalty_s(final_grid_s(*g, v, l, m2), side_s(v)),
        forall|m2: int|
            0 <= m2 < r.0 ==> penalty_s(final_grid_s(*g, v, l, r.0 as int), side_s(v))
                < #[trigger] penalty_s(final_grid_s(*g, v, l, m2), side_s(v)),
{
    let side = g.side;
    proof {
        assert(side * side == (side as int) * (side as int));
    }
    let best0 = finalize_grid(g, v, l, 0);
    let mut bestp = penalty(&best0, side);
    let mut best = best0;
    let mut bestm: usize = 0;
    let mut m: usize = 1;
    while m < 8
        invariant
            1 <= m <= 8,
            bestm < m,
            g.wf(),
            1 <= v <= 40,
            g.side == side == side_s(v),
            best@ == final_grid_s(*g, v, l, bestm as int),
            bestp == penalty_s(final_grid_s(*g, v, l, bestm as int), side_s(v)),
            forall|m2: int|
                0 <= m2 < m ==> penalty_s(final_grid_s(*g, v, l, bestm as int), side_s(v))
                    <= #[trigger] penalty_s(final_grid_s(*g, v, l, m2), side_s(v)),
            forall|m2: int|
                0 <= m2 < bestm ==> penalty_s(final_grid_s(*g, v, l, bestm as int), side_s(v))
                    < #[trigger] penalty_s(final_grid_s(*g, v, l, m2), side_s(v)),
        decreases 8 - m,
    {
        let trial = finalize_grid(g, v, l, m);
        let p = penalty(&trial, side);
        if p < bestp {
            bestp = p;
            best = trial;
            bestm = m;
        }
        m += 1;
    }
    (bestm, best)
}


/// The mask choice is a function of the filled grid alone: any two choices
/// that are optimal with ties broken toward the lowest mask id coincide.
pub proof fn lemma_mask_choice_unique(g: Grid, v: usize, l: EcLevel, m1: int, m2: int)
    requires
        0 <= m1 < 8,
        0 <= m2 < 8,
        forall|m3: int|
            0 <= m3 < 8 ==> penalty_s(final_grid_s(g, v, l, m1), side_s(v))
                <= #[trigger] penalty_s(final_grid_s(g, v, l, m3), side_s(v)),
        forall|m3: int|
            0 <= m3 < m1 ==> penalty_s(final_grid_s(g, v, l, m1), side_s(v))
                < #[trigger] penalty_s(final_grid_s(g, v, l, m3), side_s(v)),
        forall|m3: int|
            0 <= m3 < 8 ==> penalty_s(final_grid_s(g, v, l, m2), side_s(v))
                <= #[trigger] penalty_s(final_grid_s(g, v, l, m3), side_s(v)),
        forall|m3: int|
            0 <= m3 < m2 ==> penalty_s(final_grid_s(g, v, l, m2), side_s(v))
                < #[trigger] penalty_s(final_grid_s(g, v, l, m3), side_s(v)),
    ensures
        m1 == m2,
{
    if m1 < m2 {
        assert(penalty_s(final_grid_s(g, v, l, m2), side_s(v)) < penalty_s(
            final_grid_s(g, v, l, m1),
            side_s(v),
        ));
        assert(penalty_s(final_grid_s(g, v, l, m1), side_s(v)) <= penalty_s(
            final_grid_s(g, v, l, m2),
            side_s(v),
        ));
    }
    if m2 < m1 {
        assert(penalty_s(final_grid_s(g, v, l, m1), side_s(v)) < penalty_s(
            final_grid_s(g, v, l, m2),
            side_s(v),
        ));
        assert(penalty_s(final_grid_s(g, v, l, m2), side_s(v)) <= penalty_s(
            final_grid_s(g, v, l, m1),
            side_s(v),
        ));
    }
}

} // verus!
