use crate::encode::QrSymbol;
use crate::grid::lemma_div_in_range;
use crate::types::QrError;
use vstd::prelude::*;

verus! {

/// A vector rendering of a symbol: the square canvas size in pixels, the
/// two colors as RGBA, and one unit square per dark module, each given as
/// (x, y, width, height) in pixels.
#[derive(Debug)]
pub struct VectorImage {
    pub width: usize,
    pub height: usize,
    pub dark: (u8, u8, u8, u8),
    pub light: (u8, u8, u8, u8),
    pub rects: Vec<(usize, usize, usize, usize)>,
}

/// The unit squares of all dark modules from flat cell `k` on, row-major:
/// module (r, c) sits at ((margin + c) * unit, (margin + r) * unit).
pub open spec fn rects_from_s(g: Seq<bool>, side: int, unit: int, margin: int, k: int) -> Seq<
    (usize, usize, usize, usize),
>
    decreases side * side - k,
{
    if k < 0 || k >= side * side {
        Seq::empty()
    } else if g[k] {
        seq![
            (
                ((margin + k % side) * unit) as usize,
                ((margin + k / side) * unit) as usize,
                unit as usize,
                unit as usize,
            ),
        ] + rects_from_s(g, side, unit, margin, k + 1)
    } else {
        rects_from_s(g, side, unit, margin, k + 1)
    }
}

/// Renders a finished symbol as a vector image at `unit` pixels per module
/// with a quiet zone of `margin` modules on every side. The canvas is
/// exactly (side + 2 margin) * unit pixels square; a zero unit size is the
/// one rejected configuration.
pub fn render(
    sym: &QrSymbol,
    unit: usize,
    margin: usize,
    dark: (u8, u8, u8, u8),
    light: (u8, u8, u8, u8),
) -> (res: Result<VectorImage, QrError>)
    requires
        sym.wf(),
        (sym.side + 2 * (margin as int)) * (unit as int) <= usize::MAX,
    ensures
        match res {
            Ok(img) => {
                &&& unit >= 1
                &&& img.width == (sym.side + 2 * margin) * unit
                &&& img.height == img.width
                &&& img.dark == dark
                &&& img.light == light
                &&& img.rects@ == rects_from_s(
                    sym.modules@,
                    sym.side as int,
                    unit as int,
                    margin as int,
                    0,
                )
            },
            Err(e) => e == QrError::RenderConfigError && unit == 0,
        },
{
    if unit == 0 {
        return Err(QrError::RenderConfigError);
    }
    let side = sym.side;
    proof {
        assert(side + 2 * (margin as int) <= (side + 2 * (margin as int)) * (unit as int))
            by (nonlinear_arith)
            requires
                unit >= 1,
                side + 2 * (margin as int) >= 0,
        ;
        assert(side * side <= 31329) by (nonlinear_arith)
            requires
                side <= 177,
        ;
    }
    let span: usize = side + 2 * margin;
    let canvas: usize = span * unit;
    let tot: usize = side * side;
    let ghost gv = sym.modules@;
    let mut rects: Vec<(usize, usize, usize, usize)> = Vec::new();
    let mut k: usize = 0;
    while k < tot
        invariant
            k <= tot,
            tot == side * side,
            side == sym.side <= 177,
            1 <= unit,
            span == side + 2 * margin,
            (span as int) * (unit as int) <= usize::MAX,
            gv == sym.modules@,
            gv.len() == tot,
            rects@ + rects_from_s(gv, side as int, unit as int, margin as int, k as int)
                == rects_from_s(gv, side as int, unit as int, margin as int, 0),
        decreases tot - k,
    {
        if sym.modules[k] {
            let c: usize = k % side;
            let r: usize = k / side;
            proof {
                lemma_div_in_range(k as int, side as int);
                assert(margin + c <= span && margin + r <= span);
                assert((margin + c as int) * (unit as int) <= (span as int) * (unit as int)
                    && (margin + r as int) * (unit as int) <= (span as int) * (unit as int))
                    by (nonlinear_arith)
                    requires
                        margin + c <= span,
                        margin + r <= span,
                        unit >= 0,
                        margin + (c as int) >= 0,
                        margin + (r as int) >= 0,
                ;
            }
            let x: usize = (margin + c) * unit;
            let y: usize = (margin + r) * unit;
            let ghost pre = rects@;
            rects.push((x, y, unit, unit));
            proof {
                assert(pre + (seq![
                    (
                        ((margin + (k as int) % (side as int)) * unit) as usize,
                        ((margin + (k as int) / (side as int)) * unit) as usize,
                        unit as usize,
                        unit as usize,
                    ),
                ] + rects_from_s(gv, side as int, unit as int, margin as int, k + 1)) =~= rects@
                    + rects_from_s(gv, side as int, unit as int, margin as int, k + 1));
            }
        }
        k += 1;
    }
    proof {
        assert(rects_from_s(gv, side as int, unit as int, margin as int, tot as int)
            =~= Seq::<(usize, usize, usize, usize)>::empty());
        assert(rects@ + Seq::<(usize, usize, usize, usize)>::empty() =~= rects@);
    }
    Ok(
        VectorImage {
            width: canvas,
            height: canvas,
            dark,
            light,
            rects,
        },
    )
}

/// Flattens a pixel sequence into the RGBA byte order that raster and
/// clipboard consumers take: red, green, blue, alpha for each pixel in
/// turn.
pub fn rgba_bytes(pix: &Vec<(u8, u8, u8, u8)>) -> (r: Vec<u8>)
    requires
        4 * pix@.len() <= usize::MAX,
    ensures
        r@.len() == 4 * pix@.len(),
        forall|i: int|
            0 <= i < pix@.len() ==> r@[4 * i] == (#[trigger] pix@[i]).0 && r@[4 * i + 1]
                == pix@[i].1 && r@[4 * i + 2] == pix@[i].2 && r@[4 * i + 3] == pix@[i].3,
{
    let mut out: Vec<u8> = Vec::new();
    let mut i: usize = 0;
    while i < pix.len()
        invariant
            i <= pix@.len(),
            4 * pix@.len() <= usize::MAX,
            out@.len() == 4 * i,
            forall|j: int|
                0 <= j < i ==> out@[4 * j] == (#[trigger] pix@[j]).0 && out@[4 * j + 1]
                    == pix@[j].1 && out@[4 * j + 2] == pix@[j].2 && out@[4 * j + 3] == pix@[j].3,
        decreases pix@.len() - i,
    {
        let p = pix[i];
        out.push(p.0);
        out.push(p.1);
        out.push(p.2);
        out.push(p.3);
        i += 1;
    }
    out
}

} // verus!
