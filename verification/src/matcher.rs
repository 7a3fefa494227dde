//! The tile matcher: partitions a grayscale image into cell-sized tiles and
//! maps each tile to the atlas glyph with the least L1 pixel distance,
//! breaking ties towards the lower code point.

use vstd::prelude::*;
use vstd::math::min;
use crate::arith::{
    lemma_div_mod_id, lemma_n_tiles_bounds, lemma_row_major_bound, lemma_step_count, n_tiles,
};
use crate::atlas::GlyphBmpData;
use crate::grayimg::GrayImage;

verus! {

/// The absolute difference of two pixel values.
pub open spec fn abs_diff(a: u8, b: u8) -> nat {
    if a >= b {
        (a - b) as nat
    } else {
        (b - a) as nat
    }
}

/// The sum of absolute pixel differences over the first `n` positions.
pub open spec fn l1_upto(a: Seq<u8>, b: Seq<u8>, n: int) -> nat
    decreases n,
{
    if n <= 0 {
        0
    } else {
        l1_upto(a, b, n - 1) + abs_diff(a[n - 1], b[n - 1])
    }
}

/// The L1 distance of two buffers, pairing position `i` with position `i`
/// and stopping at the shorter one (a cropped edge tile is compared over
/// its own byte count only).
pub open spec fn l1(a: Seq<u8>, b: Seq<u8>) -> nat {
    l1_upto(a, b, min(a.len() as int, b.len() as int))
}

/// The position of the entry whose bitmap is nearest to `tile` among the
/// first `n` entries; on equal distance the earlier entry wins.
pub open spec fn best_upto(data: Seq<(char, Vec<u8>)>, tile: Seq<u8>, n: int) -> int
    decreases n,
{
    if n <= 1 {
        0
    } else {
        let b = best_upto(data, tile, n - 1);
        if l1(data[n - 1].1@, tile) < l1(data[b].1@, tile) {
            n - 1
        } else {
            b
        }
    }
}

/// The position of the nearest entry of the whole atlas.
pub open spec fn spec_best_idx(data: Seq<(char, Vec<u8>)>, tile: Seq<u8>) -> int {
    best_upto(data, tile, data.len() as int)
}

/// The character the matcher selects for `tile`.
pub open spec fn match_char(gdata: &GlyphBmpData, tile: Seq<u8>) -> char {
    gdata.data@[spec_best_idx(gdata.data@, tile)].0
}

/// The nearest entry is nearest, and is the first among equally near ones.
pub proof fn lemma_best_upto_props(data: Seq<(char, Vec<u8>)>, tile: Seq<u8>, n: int)
    requires
        1 <= n <= data.len(),
    ensures
        0 <= best_upto(data, tile, n) < n,
        forall|k: int|
            0 <= k < n ==> l1(data[best_upto(data, tile, n)].1@, tile) <= l1(
                (#[trigger] data[k]).1@,
                tile,
            ),
        forall|k: int|
            0 <= k < best_upto(data, tile, n) ==> l1((#[trigger] data[k]).1@, tile) > l1(
                data[best_upto(data, tile, n)].1@,
                tile,
            ),
    decreases n,
{
    if n > 1 {
        lemma_best_upto_props(data, tile, n - 1);
    }
}

/// The tile of the grid cell in tile row `ry` and tile column `cx`.
pub open spec fn tile_at(img: &GrayImage, gdata: &GlyphBmpData, ry: int, cx: int) -> Seq<u8> {
    img.spec_crop(
        cx * (gdata.width as int),
        ry * (gdata.height as int),
        gdata.width as int,
        gdata.height as int,
    )
}

/// The matcher's whole output: row-major tile rows, each row of matched
/// characters closed by a newline.
pub open spec fn convert_spec(img: &GrayImage, gdata: &GlyphBmpData) -> Seq<char> {
    let rows = n_tiles(img.height as nat, gdata.height as nat) as int;
    let cols = n_tiles(img.width as nat, gdata.width as nat) as int;
    Seq::new(
        (rows * (cols + 1)) as nat,
        |i: int|
            {
                let ry = i / (cols + 1);
                let c = i % (cols + 1);
                if c == cols {
                    '\n'
                } else {
                    match_char(gdata, tile_at(img, gdata, ry, c))
                }
            },
    )
}

/// Reads one position of the matcher's output: within a row a matched
/// character, at the row's end a newline.
pub proof fn lemma_convert_spec_index(img: &GrayImage, gdata: &GlyphBmpData, ry: int, cx: int)
    requires
        gdata.width >= 1,
        gdata.height >= 1,
        0 <= ry < n_tiles(img.height as nat, gdata.height as nat),
        0 <= cx <= n_tiles(img.width as nat, gdata.width as nat),
    ensures
        ({
            let cols = n_tiles(img.width as nat, gdata.width as nat) as int;
            let k = ry * (cols + 1) + cx;
            &&& 0 <= k < convert_spec(img, gdata).len()
            &&& (cx < cols ==> convert_spec(img, gdata)[k] == match_char(
                gdata,
                tile_at(img, gdata, ry, cx),
            ))
            &&& (cx == cols ==> convert_spec(img, gdata)[k] == '\n')
        }),
{
    let rows = n_tiles(img.height as nat, gdata.height as nat) as int;
    let cols = n_tiles(img.width as nat, gdata.width as nat) as int;
    lemma_row_major_bound(ry, cx, cols + 1, rows);
    lemma_div_mod_id(ry, cx, cols + 1);
}

/// Relies on String::push: appends the one character at the end.
#[verifier::external_body]
fn push_char(s: &mut String, c: char)
    ensures
        final(s)@ == old(s)@.push(c),
{
    s.push(c);
}

/// The L1 distance of two buffers over the shorter length.
#[verifier::loop_isolation(false)]
fn l1_dist(a: &Vec<u8>, b: &Vec<u8>) -> (r: u64)
    requires
        min(a@.len() as int, b@.len() as int) * 255 <= u64::MAX as int,
    ensures
        r as nat == l1(a@, b@),
{
    let n: usize = if a.len() <= b.len() {
        a.len()
    } else {
        b.len()
    };
    let mut sum: u64 = 0;
    let mut i: usize = 0;
    while i < n
        invariant
            i <= n,
            sum as nat == l1_upto(a@, b@, i as int),
            sum <= 255 * i,
        decreases n - i,
    {
        let av = a[i];
        let bv = b[i];
        let d: u8 = if av >= bv {
            av - bv
        } else {
            bv - av
        };
        sum = sum + (d as u64);
        i = i + 1;
    }
    sum
}

/// Converts a grayscale image to text: the image is walked top-to-bottom in
/// tile rows and left-to-right within a row; each tile (cropped at the image
/// edges) is matched to the nearest glyph; each tile row is closed by a
/// newline. The result is exactly `convert_spec`, a function of the image
/// and atlas alone.
#[verifier::loop_isolation(false)]
pub fn convert_grayimg_to_string(img_dat: &GrayImage, gdata: &GlyphBmpData) -> (ret: String)
    requires
        img_dat.wf(),
        gdata.wf(),
        gdata.width >= 1,
        gdata.height >= 1,
        (gdata.width as nat) * (gdata.height as nat) * 255 <= u64::MAX as nat,
    ensures
        ret@ == convert_spec(img_dat, gdata),
{
    let c_width = gdata.width;
    let c_height = gdata.height;
    let iw = img_dat.width;
    let ih = img_dat.height;
    let ghost rows = n_tiles(ih as nat, c_height as nat) as int;
    let ghost cols = n_tiles(iw as nat, c_width as nat) as int;
    let ghost target = convert_spec(img_dat, gdata);
    proof {
        lemma_n_tiles_bounds(ih as nat, c_height as nat);
        lemma_n_tiles_bounds(iw as nat, c_width as nat);
    }
    let mut ret = String::new();
    let mut y: u64 = 0;
    let ghost mut ry: int = 0;
    proof {
        assert(ret@ =~= target.take(0));
    }
    while y < ih as u64
        invariant
            0 <= ry <= rows,
            y as int == ry * (c_height as int),
            ret@ == target.take(ry * (cols + 1)),
        decreases ih as int + c_height as int - y as int,
    {
        proof {
            if ry >= rows {
                vstd::arithmetic::mul::lemma_mul_inequality(rows, ry, c_height as int);
            }
        }
        let mut x: u64 = 0;
        let ghost mut cx: int = 0;
        while x < iw as u64
            invariant
                ry < rows,
                y as int == ry * (c_height as int),
                0 <= cx <= cols,
                x as int == cx * (c_width as int),
                ret@ == target.take(ry * (cols + 1) + cx),
            decreases iw as int + c_width as int - x as int,
        {
            proof {
                if cx >= cols {
                    vstd::arithmetic::mul::lemma_mul_inequality(cols, cx, c_width as int);
                }
            }
            let tile = img_dat.crop_tile(x as u32, y as u32, c_width, c_height);
            let mut best_i: usize = 0;
            let mut best_d: u64 = l1_dist(&gdata.data[0].1, &tile);
            let mut gi: usize = 1;
            while gi < gdata.data.len()
                invariant
                    1 <= gi <= gdata.data@.len(),
                    0 <= best_i < gi,
                    best_i as int == best_upto(gdata.data@, tile@, gi as int),
                    best_d as nat == l1(gdata.data@[best_i as int].1@, tile@),
                decreases gdata.data@.len() - gi,
            {
                let d = l1_dist(&gdata.data[gi].1, &tile);
                if d < best_d {
                    best_d = d;
                    best_i = gi;
                }
                gi = gi + 1;
            }
            push_char(&mut ret, gdata.data[best_i].0);
            proof {
                let k = ry * (cols + 1) + cx;
                lemma_convert_spec_index(img_dat, gdata, ry, cx);
                assert(tile@ == tile_at(img_dat, gdata, ry, cx));
                assert(target[k] == gdata.data@[best_i as int].0);
                assert(target.take(k + 1) =~= target.take(k).push(target[k]));
                assert((cx + 1) * (c_width as int) == cx * (c_width as int) + c_width)
                    by (nonlinear_arith);
                cx = cx + 1;
            }
            x = x + c_width as u64;
        }
        proof {
            if cx < cols {
                vstd::arithmetic::mul::lemma_mul_inequality(cx, cols - 1, c_width as int);
            }
            assert(cx == cols);
        }
        push_char(&mut ret, '\n');
        proof {
            let k = ry * (cols + 1) + cols;
            lemma_convert_spec_index(img_dat, gdata, ry, cols);
            assert(target.take(k + 1) =~= target.take(k).push(target[k]));
            assert(ry * (cols + 1) + (cols + 1) == (ry + 1) * (cols + 1)) by (nonlinear_arith);
            assert((ry + 1) * (c_height as int) == ry * (c_height as int) + c_height)
                by (nonlinear_arith);
            ry = ry + 1;
        }
        y = y + c_height as u64;
    }
    proof {
        if ry < rows {
            vstd::arithmetic::mul::lemma_mul_inequality(ry, rows - 1, c_height as int);
        }
        assert(ry == rows);
        assert(target.take(target.len() as int) =~= target);
    }
    ret
}

/// Determinism law: the matcher's output is a function of the image and the
/// atlas alone, so two runs over the same input are identical.
pub proof fn lemma_matcher_deterministic(
    img: &GrayImage,
    gdata: &GlyphBmpData,
    r1: Seq<char>,
    r2: Seq<char>,
)
    requires
        r1 == convert_spec(img, gdata),
        r2 == convert_spec(img, gdata),
    ensures
        r1 == r2,
{
}

/// Tie-break stability law: when two entries hold identical bitmaps, the
/// matcher never selects the later one, whatever the tile; since entries
/// ascend by code point, the selected character is never the higher twin.
pub proof fn lemma_tie_break_stability(gdata: &GlyphBmpData, tile: Seq<u8>, i: int, j: int)
    requires
        gdata.wf(),
        0 <= i < j < gdata.data@.len(),
        gdata.data@[i].1@ == gdata.data@[j].1@,
    ensures
        spec_best_idx(gdata.data@, tile) != j,
        match_char(gdata, tile) != gdata.data@[j].0,
{
    let data = gdata.data@;
    let n = data.len() as int;
    lemma_best_upto_props(data, tile, n);
    let b = best_upto(data, tile, n);
    if b == j {
        assert(l1(data[i].1@, tile) > l1(data[b].1@, tile));
        assert(l1(data[i].1@, tile) == l1(data[j].1@, tile));
    }
    if b < j {
        assert(data[b].0 < data[j].0);
    } else {
        assert(data[j].0 < data[b].0);
    }
}

/// Degenerate atlas law: an atlas of exactly one character matches every
/// tile to that character, whatever the tile holds.
pub proof fn lemma_degenerate_atlas(gdata: &GlyphBmpData, tile: Seq<u8>)
    requires
        gdata.wf(),
        gdata.data@.len() == 1,
    ensures
        match_char(gdata, tile) == gdata.data@[0].0,
{
}

/// The all-background tile of one cell.
pub open spec fn white_tile(gdata: &GlyphBmpData) -> Seq<u8> {
    Seq::new(gdata.cell_area(), |i: int| 255u8)
}

/// Round-trip-on-uniform-input law: over an all-white image whose dimensions
/// are exact multiples of the cell size, every tile equals the all-255 cell,
/// so every matched character is the one whose glyph is nearest to the
/// all-background cell — the glyph of minimum total ink.
pub proof fn lemma_uniform_white_match(img: &GrayImage, gdata: &GlyphBmpData, tr: int, tc: int)
    requires
        img.wf(),
        gdata.wf(),
        gdata.width >= 1,
        gdata.height >= 1,
        tr >= 0,
        tc >= 0,
        img.width as int == tc * (gdata.width as int),
        img.height as int == tr * (gdata.height as int),
        forall|i: int| 0 <= i < img.pixels@.len() ==> img.pixels@[i] == 255u8,
    ensures
        n_tiles(img.height as nat, gdata.height as nat) == tr,
        n_tiles(img.width as nat, gdata.width as nat) == tc,
        forall|ry: int, cx: int|
            0 <= ry < tr && 0 <= cx < tc ==> #[trigger] convert_spec(img, gdata)[ry * (tc + 1)
                + cx] == match_char(gdata, white_tile(gdata)),
        forall|k: int|
            0 <= k < gdata.data@.len() ==> l1(
                gdata.data@[spec_best_idx(gdata.data@, white_tile(gdata))].1@,
                white_tile(gdata),
            ) <= l1((#[trigger] gdata.data@[k]).1@, white_tile(gdata)),
{
    let cw = gdata.width as int;
    let ch = gdata.height as int;
    assert((tc - 1) * cw == tc * cw - cw) by (nonlinear_arith);
    assert((tr - 1) * ch == tr * ch - ch) by (nonlinear_arith);
    if tc == 0 {
        lemma_n_tiles_bounds(img.width as nat, gdata.width as nat);
    } else {
        lemma_step_count(img.width as nat, gdata.width as nat, tc);
    }
    if tr == 0 {
        lemma_n_tiles_bounds(img.height as nat, gdata.height as nat);
    } else {
        lemma_step_count(img.height as nat, gdata.height as nat, tr);
    }
    assert forall|ry: int, cx: int| 0 <= ry < tr && 0 <= cx < tc implies tile_at(
        img,
        gdata,
        ry,
        cx,
    ) == white_tile(gdata) by {
        lemma_white_tile_at(img, gdata, tr, tc, ry, cx);
    }
    assert forall|ry: int, cx: int| 0 <= ry < tr && 0 <= cx < tc implies #[trigger] convert_spec(
        img,
        gdata,
    )[ry * (tc + 1) + cx] == match_char(gdata, white_tile(gdata)) by {
        lemma_convert_spec_index(img, gdata, ry, cx);
    }
    lemma_best_upto_props(gdata.data@, white_tile(gdata), gdata.data@.len() as int);
}

/// Every tile of an all-white image with exact-multiple dimensions is the
/// all-background cell.
proof fn lemma_white_tile_at(
    img: &GrayImage,
    gdata: &GlyphBmpData,
    tr: int,
    tc: int,
    ry: int,
    cx: int,
)
    requires
        img.wf(),
        gdata.width >= 1,
        gdata.height >= 1,
        0 <= ry < tr,
        0 <= cx < tc,
        img.width as int == tc * (gdata.width as int),
        img.height as int == tr * (gdata.height as int),
        forall|i: int| 0 <= i < img.pixels@.len() ==> img.pixels@[i] == 255u8,
    ensures
        tile_at(img, gdata, ry, cx) == white_tile(gdata),
{
    let cw = gdata.width as int;
    let ch = gdata.height as int;
    let w = img.width as int;
    let h = img.height as int;
    let x = cx * cw;
    let y = ry * ch;
    vstd::arithmetic::mul::lemma_mul_inequality(cx + 1, tc, cw);
    vstd::arithmetic::mul::lemma_mul_inequality(ry + 1, tr, ch);
    assert((cx + 1) * cw == cx * cw + cw) by (nonlinear_arith);
    assert((ry + 1) * ch == ry * ch + ch) by (nonlinear_arith);
    vstd::arithmetic::mul::lemma_mul_nonnegative(cx, cw);
    vstd::arithmetic::mul::lemma_mul_nonnegative(ry, ch);
    let t = tile_at(img, gdata, ry, cx);
    assert(t.len() == (cw * ch) as nat);
    assert forall|i: int| 0 <= i < t.len() implies t[i] == 255u8 by {
        crate::arith::lemma_div_bound(i, cw, ch);
        let row = y + i / cw;
        let col = x + i % cw;
        lemma_row_major_bound(row, col, w, h);
    }
    assert(t =~= white_tile(gdata));
}

} // verus!
