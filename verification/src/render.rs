//! The reconstructor: lays glyph bitmaps back onto a canvas following the
//! text layout, the inverse of the tile matcher.

use vstd::prelude::*;
use vstd::math::min;
use vstd::string::StrSliceExecFns;
use crate::arith::{
    lemma_cell_range, lemma_div_bound, lemma_div_mod_id, lemma_n_tiles_bounds,
    lemma_row_major_bound, lemma_row_major_inj, n_tiles,
};
use crate::atlas::GlyphBmpData;
use crate::grayimg::GrayImage;
use crate::AsciiArtError;

verus! {

/// The text with the row terminators removed: the flat character sequence.
pub open spec fn strip_row_terminators(s: Seq<char>) -> Seq<char>
    decreases s.len(),
{
    if s.len() == 0 {
        Seq::empty()
    } else {
        let rest = strip_row_terminators(s.drop_last());
        if s.last() == '\n' {
            rest
        } else {
            rest.push(s.last())
        }
    }
}

/// The number of glyph rows the canvas offers.
pub open spec fn grid_rows(gdata: &GlyphBmpData, canvas_h: nat) -> int {
    n_tiles(canvas_h, gdata.height as nat) as int
}

/// The number of glyph columns the canvas offers.
pub open spec fn grid_cols(gdata: &GlyphBmpData, canvas_w: nat) -> int {
    n_tiles(canvas_w, gdata.width as nat) as int
}

/// How many characters the rendering consumes: one per grid position, in
/// row-major order, until the grid or the text runs out.
pub open spec fn spec_consumed(gdata: &GlyphBmpData, size: (u32, u32), flat: Seq<char>) -> int {
    min(grid_rows(gdata, size.1 as nat) * grid_cols(gdata, size.0 as nat), flat.len() as int)
}

/// The first `upto` characters all have an atlas entry.
pub open spec fn all_known(gdata: &GlyphBmpData, flat: Seq<char>, upto: int) -> bool {
    forall|k: int| 0 <= k < upto ==> gdata.spec_contains(#[trigger] flat[k])
}

/// The value of one canvas pixel once the first `upto` characters are laid
/// out: the pixel's grid cell is `(py / cell_h, px / cell_w)`; if that cell
/// received a character, the pixel shows the character's bitmap, else it
/// keeps the black background.
pub open spec fn rendered_pixel_upto(
    gdata: &GlyphBmpData,
    flat: Seq<char>,
    cols: int,
    px: int,
    py: int,
    upto: int,
) -> u8 {
    let cw = gdata.width as int;
    let ch = gdata.height as int;
    let k = (py / ch) * cols + (px / cw);
    if 0 <= k < upto {
        gdata.bitmap_of(flat[k])[(py % ch) * cw + (px % cw)]
    } else {
        0u8
    }
}

/// The value of one canvas pixel of the finished rendering.
pub open spec fn rendered_pixel(
    gdata: &GlyphBmpData,
    flat: Seq<char>,
    cols: int,
    px: int,
    py: int,
) -> u8 {
    rendered_pixel_upto(gdata, flat, cols, px, py, flat.len() as int)
}

/// Collects the characters of the text, dropping row terminators.
#[verifier::loop_isolation(false)]
fn flat_chars(string: &str) -> (r: Vec<char>)
    ensures
        r@ == strip_row_terminators(string@),
{
    let n = string.unicode_len();
    let mut out: Vec<char> = Vec::new();
    let mut i: usize = 0;
    while i < n
        invariant
            i <= n,
            out@ == strip_row_terminators(string@.take(i as int)),
        decreases n - i,
    {
        let c = string.get_char(i);
        if c != '\n' {
            out.push(c);
        }
        proof {
            assert(string@.take(i as int + 1).drop_last() =~= string@.take(i as int));
        }
        i = i + 1;
    }
    proof {
        assert(string@.take(n as int) =~= string@);
    }
    out
}

/// Reconstructs a grayscale image from text: a black canvas of exactly
/// `size` is allocated; the text's characters (row terminators stripped)
/// are paired in order with the grid positions, row-major with the cell
/// stride; each character's bitmap is laid onto the canvas at its position,
/// clipped to the canvas. Fails with `UnknownGlyph` exactly when a consumed
/// character has no atlas entry; spare characters beyond the grid, and spare
/// grid cells beyond the text, are left alone.
#[verifier::loop_isolation(false)]
pub fn string_to_grayimg(string: &str, gdata: &GlyphBmpData, size: (u32, u32)) -> (r: Result<
    GrayImage,
    AsciiArtError,
>)
    requires
        gdata.wf(),
        gdata.width >= 1,
        gdata.height >= 1,
        (size.0 as nat) * (size.1 as nat) <= usize::MAX as nat,
    ensures
        ({
            let flat = strip_row_terminators(string@);
            let cols = grid_cols(gdata, size.0 as nat);
            let ncons = spec_consumed(gdata, size, flat);
            match r {
                Ok(img) => {
                    &&& all_known(gdata, flat, ncons)
                    &&& img.wf()
                    &&& img.width == size.0
                    &&& img.height == size.1
                    &&& forall|px: int, py: int|
                        0 <= px < size.0 && 0 <= py < size.1 ==> #[trigger] img.pixels@[py * (
                        size.0 as int) + px] == rendered_pixel(gdata, flat, cols, px, py)
                },
                Err(e) => e == AsciiArtError::UnknownGlyph && !all_known(gdata, flat, ncons),
            }
        }),
{
    let (iwidth, iheight) = size;
    let fwidth = gdata.width;
    let fheight = gdata.height;
    let flat = flat_chars(string);
    let ghost gflat = flat@;
    let ghost rows = grid_rows(gdata, iheight as nat);
    let ghost cols = grid_cols(gdata, iwidth as nat);
    proof {
        lemma_n_tiles_bounds(iwidth as nat, gdata.width as nat);
        lemma_n_tiles_bounds(iheight as nat, gdata.height as nat);
    }
    let mut ret_img = GrayImage::new(iwidth, iheight);
    proof {
        assert forall|px: int, py: int| 0 <= px < iwidth && 0 <= py < iheight implies #[trigger]
            ret_img.pixels@[py * (iwidth as int) + px] == rendered_pixel_upto(
            gdata,
            gflat,
            cols,
            px,
            py,
            0,
        ) by {
            lemma_row_major_bound(py, px, iwidth as int, iheight as int);
        }
    }
    let mut k: usize = 0;
    let mut y: u64 = 0;
    let ghost mut ry: int = 0;
    while y < iheight as u64
        invariant
            0 <= ry <= rows,
            y as int == ry * (fheight as int),
            k as int == ry * cols,
            k <= gflat.len(),
            all_known(gdata, gflat, k as int),
            ret_img.wf(),
            ret_img.width == iwidth,
            ret_img.height == iheight,
            forall|px: int, py: int|
                0 <= px < iwidth && 0 <= py < iheight ==> #[trigger] ret_img.pixels@[py * (
                iwidth as int) + px] == rendered_pixel_upto(gdata, gflat, cols, px, py, k as int),
        decreases iheight as int + fheight as int - y as int,
    {
        proof {
            if ry >= rows {
                vstd::arithmetic::mul::lemma_mul_inequality(rows, ry, fheight as int);
            }
        }
        let mut x: u64 = 0;
        let ghost mut cx: int = 0;
        while x < iwidth as u64
            invariant
                ry < rows,
                y as int == ry * (fheight as int),
                0 <= cx <= cols,
                x as int == cx * (fwidth as int),
                k as int == ry * cols + cx,
                k <= gflat.len(),
                all_known(gdata, gflat, k as int),
                ret_img.wf(),
                ret_img.width == iwidth,
                ret_img.height == iheight,
                forall|px: int, py: int|
                    0 <= px < iwidth && 0 <= py < iheight ==> #[trigger] ret_img.pixels@[py * (
                    iwidth as int) + px] == rendered_pixel_upto(
                        gdata,
                        gflat,
                        cols,
                        px,
                        py,
                        k as int,
                    ),
            decreases iwidth as int + fwidth as int - x as int,
        {
            proof {
                if cx >= cols {
                    vstd::arithmetic::mul::lemma_mul_inequality(cols, cx, fwidth as int);
                }
                lemma_row_major_bound(ry, cx, cols, rows);
                vstd::arithmetic::mul::lemma_mul_inequality(ry, rows - 1, cols);
                assert((rows - 1) * cols + cols == rows * cols) by (nonlinear_arith);
            }
            if k == flat.len() {
                proof {
                    lemma_consumed_is_k(gdata, gflat, iwidth, iheight, k as int);
                }
                return Ok(ret_img);
            }
            let ch = flat[k];
            match gdata.lookup(ch) {
                None => {
                    proof {
                        assert(!all_known(gdata, gflat, k as int + 1));
                        assert(spec_consumed(gdata, (iwidth, iheight), gflat) >= k as int + 1);
                    }
                    return Err(AsciiArtError::UnknownGlyph);
                },
                Some(idx) => {
                    let ghost prev = ret_img.pixels@;
                    ret_img.overlay(&gdata.data[idx].1, fwidth, fheight, x as u32, y as u32);
                    proof {
                        lemma_overlay_step(
                            gdata,
                            gflat,
                            prev,
                            ret_img.pixels@,
                            iwidth,
                            iheight,
                            rows,
                            cols,
                            ry,
                            cx,
                            k as int,
                            idx as int,
                        );
                        assert((cx + 1) * (fwidth as int) == cx * (fwidth as int) + fwidth)
                            by (nonlinear_arith);
                        cx = cx + 1;
                    }
                    k = k + 1;
                    x = x + fwidth as u64;
                },
            }
        }
        proof {
            if cx < cols {
                vstd::arithmetic::mul::lemma_mul_inequality(cx, cols - 1, fwidth as int);
            }
            assert(cx == cols);
            assert(ry * cols + cols == (ry + 1) * cols) by (nonlinear_arith);
            assert((ry + 1) * (fheight as int) == ry * (fheight as int) + fheight)
                by (nonlinear_arith);
            ry = ry + 1;
        }
        y = y + fheight as u64;
    }
    proof {
        if ry < rows {
            vstd::arithmetic::mul::lemma_mul_inequality(ry, rows - 1, fheight as int);
        }
        assert(ry == rows);
        lemma_consumed_is_k(gdata, gflat, iwidth, iheight, k as int);
    }
    Ok(ret_img)
}

/// When rendering stops at `upto` characters — the text ran out, or every
/// grid cell is filled — the consumed count is `upto`, and a pixel's final
/// value is its value at `upto`.
proof fn lemma_consumed_is_k(
    gdata: &GlyphBmpData,
    flat: Seq<char>,
    iwidth: u32,
    iheight: u32,
    upto: int,
)
    requires
        gdata.width >= 1,
        gdata.height >= 1,
        0 <= upto <= flat.len(),
        upto == flat.len() || upto == grid_rows(gdata, iheight as nat) * grid_cols(
            gdata,
            iwidth as nat,
        ),
        upto <= grid_rows(gdata, iheight as nat) * grid_cols(gdata, iwidth as nat),
    ensures
        spec_consumed(gdata, (iwidth, iheight), flat) == upto,
        forall|px: int, py: int|
            0 <= px < iwidth && 0 <= py < iheight ==> rendered_pixel_upto(
                gdata,
                flat,
                grid_cols(gdata, iwidth as nat),
                px,
                py,
                upto,
            ) == #[trigger] rendered_pixel(
                gdata,
                flat,
                grid_cols(gdata, iwidth as nat),
                px,
                py,
            ),
{
    let rows = grid_rows(gdata, iheight as nat);
    let cols = grid_cols(gdata, iwidth as nat);
    let cw = gdata.width as int;
    let ch = gdata.height as int;
    lemma_n_tiles_bounds(iwidth as nat, gdata.width as nat);
    lemma_n_tiles_bounds(iheight as nat, gdata.height as nat);
    assert forall|px: int, py: int| 0 <= px < iwidth && 0 <= py < iheight implies
        rendered_pixel_upto(gdata, flat, cols, px, py, upto) == #[trigger] rendered_pixel(
        gdata,
        flat,
        cols,
        px,
        py,
    ) by {
        assert(cw * cols == cols * cw) by (nonlinear_arith);
        assert(ch * rows == rows * ch) by (nonlinear_arith);
        lemma_div_bound(px, cw, cols);
        lemma_div_bound(py, ch, rows);
        lemma_row_major_bound(py / ch, px / cw, cols, rows);
    }
}

/// Laying one character's bitmap onto the canvas advances the pixel formula
/// by one cell: the covered rectangle now shows that bitmap, every other
/// pixel keeps its earlier value.
proof fn lemma_overlay_step(
    gdata: &GlyphBmpData,
    flat: Seq<char>,
    prev: Seq<u8>,
    cur: Seq<u8>,
    iwidth: u32,
    iheight: u32,
    rows: int,
    cols: int,
    ry: int,
    cx: int,
    k: int,
    idx: int,
)
    requires
        gdata.wf(),
        gdata.width >= 1,
        gdata.height >= 1,
        rows == grid_rows(gdata, iheight as nat),
        cols == grid_cols(gdata, iwidth as nat),
        0 <= ry < rows,
        0 <= cx < cols,
        k == ry * cols + cx,
        0 <= k < flat.len(),
        0 <= idx < gdata.data@.len(),
        idx == gdata.index_of(flat[k]),
        forall|px: int, py: int|
            0 <= px < iwidth && 0 <= py < iheight ==> #[trigger] prev[py * (iwidth as int) + px]
                == rendered_pixel_upto(gdata, flat, cols, px, py, k),
        forall|px: int, py: int|
            0 <= px < iwidth && 0 <= py < iheight ==> #[trigger] cur[py * (iwidth as int) + px]
                == (if cx * (gdata.width as int) <= px < cx * (gdata.width as int) + gdata.width
                && ry * (gdata.height as int) <= py < ry * (gdata.height as int) + gdata.height {
                gdata.data@[idx].1@[(py - ry * (gdata.height as int)) * (gdata.width as int) + (px
                    - cx * (gdata.width as int))]
            } else {
                prev[py * (iwidth as int) + px]
            }),
    ensures
        forall|px: int, py: int|
            0 <= px < iwidth && 0 <= py < iheight ==> #[trigger] cur[py * (iwidth as int) + px]
                == rendered_pixel_upto(gdata, flat, cols, px, py, k + 1),
{
    let cw = gdata.width as int;
    let ch = gdata.height as int;
    let x = cx * cw;
    let y = ry * ch;
    lemma_n_tiles_bounds(iwidth as nat, gdata.width as nat);
    lemma_n_tiles_bounds(iheight as nat, gdata.height as nat);
    assert forall|px: int, py: int| 0 <= px < iwidth && 0 <= py < iheight implies #[trigger]
        cur[py * (iwidth as int) + px] == rendered_pixel_upto(gdata, flat, cols, px, py, k + 1) by {
        assert(cw * cols == cols * cw) by (nonlinear_arith);
        assert(ch * rows == rows * ch) by (nonlinear_arith);
        lemma_cell_range(px, cw);
        lemma_cell_range(py, ch);
        lemma_div_bound(px, cw, cols);
        lemma_div_bound(py, ch, rows);
        let pcx = px / cw;
        let pry = py / ch;
        let kk = pry * cols + pcx;
        assert((cx + 1) * cw == cx * cw + cw) by (nonlinear_arith);
        assert((ry + 1) * ch == ry * ch + ch) by (nonlinear_arith);
        if x <= px < x + cw && y <= py < y + ch {
            lemma_div_mod_id(cx, px - x, cw);
            lemma_div_mod_id(ry, py - y, ch);
            assert(kk == k);
        } else {
            if kk == k {
                lemma_row_major_inj(cols, pry, pcx, ry, cx);
                assert((pcx) * cw == x);
            }
            assert(kk != k);
        }
    }
}

} // verus!
