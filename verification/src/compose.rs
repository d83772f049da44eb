use vstd::prelude::*;
use vstd::arithmetic::div_mod::lemma_fundamental_div_mod;
use vstd::arithmetic::div_mod::lemma_fundamental_div_mod_converse;

use crate::bitmap::Bitmap;

verus! {

/// Canvas width in pixels.
pub const CANVAS_W: usize = 550;

/// Canvas height in pixels.
pub const CANVAS_H: usize = 180;

/// Horizontal gap between adjacent glyph bounding boxes.
pub const SPACING: usize = 20;

/// Bytes in the canvas buffer: four per pixel.
pub const CANVAS_BYTES: usize = 4 * 550 * 180;

/// Channel `c` of the canvas buffer at `(x, y)`.
pub open spec fn pix(s: Seq<u8>, x: int, y: int, c: int) -> u8 {
    s[4 * (y * 550 + x) + c]
}

/// Source-over blending of one channel onto an opaque destination:
/// rounded fixed-point `(src * alpha + dst * (255 - alpha)) / 255`.
pub open spec fn blend_val(dst: int, src: int, alpha: int) -> int {
    (src * alpha + dst * (255 - alpha) + 127) / 255
}

/// Widths of a row of glyphs.
pub open spec fn widths(imgs: Seq<Bitmap>) -> Seq<int> {
    imgs.map_values(|b: Bitmap| b.width as int)
}

/// Width taken by the first `i` glyphs, with the gap after each.
pub open spec fn prefix_width(ws: Seq<int>, i: int) -> int
    decreases i,
{
    if i <= 0 {
        0
    } else {
        prefix_width(ws, i - 1) + ws[i - 1] + 20
    }
}

/// Total width of the row: the glyph widths plus one gap between
/// each adjacent pair.
pub open spec fn row_width(ws: Seq<int>) -> int {
    if ws.len() == 0 {
        0
    } else {
        prefix_width(ws, ws.len() - 1) + ws[ws.len() - 1]
    }
}

/// Left edge of the row: the row is centered on the canvas.
pub open spec fn start_x(ws: Seq<int>) -> int {
    (550 - row_width(ws)) / 2
}

/// Left edge of glyph `i`.
pub open spec fn glyph_x(ws: Seq<int>, i: int) -> int {
    start_x(ws) + prefix_width(ws, i)
}

/// Top edge of a glyph of height `h`: each glyph is centered vertically
/// on its own.
pub open spec fn glyph_y(h: int) -> int {
    (180 - h) / 2
}

/// Does the footprint of glyph `i` of the row cover canvas point `(x, y)`?
pub open spec fn covers(imgs: Seq<Bitmap>, i: int, x: int, y: int) -> bool {
    glyph_x(widths(imgs), i) <= x < glyph_x(widths(imgs), i) + imgs[i].width
        && glyph_y(imgs[i].height as int) <= y < glyph_y(imgs[i].height as int) + imgs[i].height
}

/// Red, green and blue at canvas point `(x, y)` after the first `k` glyphs
/// of the row have been laid over the white background.
pub open spec fn composed_rgb(imgs: Seq<Bitmap>, k: int, x: int, y: int) -> (int, int, int)
    decreases k,
{
    if k <= 0 {
        (255int, 255int, 255int)
    } else {
        let prev = composed_rgb(imgs, k - 1, x, y);
        if covers(imgs, k - 1, x, y) {
            let b = imgs[k - 1];
            let sx = x - glyph_x(widths(imgs), k - 1);
            let sy = y - glyph_y(b.height as int);
            let al = b.channel(sx, sy, 3) as int;
            (
                blend_val(prev.0, b.channel(sx, sy, 0) as int, al),
                blend_val(prev.1, b.channel(sx, sy, 1) as int, al),
                blend_val(prev.2, b.channel(sx, sy, 2) as int, al),
            )
        } else {
            prev
        }
    }
}

/// The finished canvas: RGB as composed over white, alpha fully opaque.
pub open spec fn compose_pixels(imgs: Seq<Bitmap>) -> Seq<u8> {
    Seq::new(
        4 * 550 * 180,
        |n: int|
            {
                let p = n / 4;
                let c = n % 4;
                let x = p % 550;
                let y = p / 550;
                if c == 0 {
                    composed_rgb(imgs, imgs.len() as int, x, y).0 as u8
                } else if c == 1 {
                    composed_rgb(imgs, imgs.len() as int, x, y).1 as u8
                } else if c == 2 {
                    composed_rgb(imgs, imgs.len() as int, x, y).2 as u8
                } else {
                    255u8
                }
            },
    )
}

/// The glyphs of the catalog picked out by a list of indices, in order.
pub open spec fn selected(imgs: Seq<Bitmap>, idxs: Seq<usize>) -> Seq<Bitmap> {
    Seq::new(idxs.len(), |k: int| imgs[idxs[k] as int])
}

/// A canvas point outside every glyph's footprint keeps the opaque white
/// background.
pub proof fn lemma_background_white(imgs: Seq<Bitmap>, k: int, x: int, y: int)
    requires
        0 <= k <= imgs.len(),
        forall|i: int| 0 <= i < imgs.len() ==> !covers(imgs, i, x, y),
    ensures
        composed_rgb(imgs, k, x, y) == (255int, 255int, 255int),
    decreases k,
{
    if k > 0 {
        lemma_background_white(imgs, k - 1, x, y);
    }
}

/// On the finished canvas, a point outside every glyph's footprint is
/// opaque white.
pub proof fn lemma_canvas_background(imgs: Seq<Bitmap>, x: int, y: int, c: int)
    requires
        0 <= x < 550,
        0 <= y < 180,
        0 <= c < 4,
        forall|i: int| 0 <= i < imgs.len() ==> !covers(imgs, i, x, y),
    ensures
        pix(compose_pixels(imgs), x, y, c) == 255u8,
{
    lemma_background_white(imgs, imgs.len() as int, x, y);
    lemma_pix_index(x, y, c);
}

/// A single glyph of width `w` has its left edge at `(550 - w) / 2`.
pub proof fn lemma_single_glyph_centered(b: Bitmap)
    ensures
        glyph_x(widths(seq![b]), 0) == (550 - b.width as int) / 2,
{
    let ws = widths(seq![b]);
    assert(ws.len() == 1);
    assert(ws[0] == b.width as int);
    assert(prefix_width(ws, 0) == 0);
    assert(row_width(ws) == b.width as int);
}

/// The blended value of a channel stays a byte.
proof fn lemma_blend_val_bound(dst: int, src: int, alpha: int)
    requires
        0 <= dst <= 255,
        0 <= src <= 255,
        0 <= alpha <= 255,
    ensures
        0 <= blend_val(dst, src, alpha) <= 255,
{
    assert(0 <= src * alpha + dst * (255 - alpha) + 127 <= 255 * 255 + 127) by (nonlinear_arith)
        requires
            0 <= dst <= 255,
            0 <= src <= 255,
            0 <= alpha <= 255,
    ;
}

/// Each byte of the canvas belongs to exactly one channel of one pixel.
proof fn lemma_pix_index(x: int, y: int, c: int)
    requires
        0 <= x < 550,
        0 <= y < 180,
        0 <= c < 4,
    ensures
        0 <= 4 * (y * 550 + x) + c < 4 * 550 * 180,
        (4 * (y * 550 + x) + c) % 4 == c,
        (4 * (y * 550 + x) + c) / 4 == y * 550 + x,
        (y * 550 + x) % 550 == x,
        (y * 550 + x) / 550 == y,
{
    let n = 4 * (y * 550 + x) + c;
    assert(n % 4 == c && n / 4 == y * 550 + x) by (nonlinear_arith)
        requires
            0 <= c < 4,
            n == 4 * (y * 550 + x) + c,
            0 <= y * 550 + x,
    ;
    assert((y * 550 + x) % 550 == x && (y * 550 + x) / 550 == y) by (nonlinear_arith)
        requires
            0 <= x < 550,
            0 <= y,
    ;
}

/// Bounds on the width taken by a prefix of the row.
proof fn lemma_prefix_width_bounds(ws: Seq<int>, i: int)
    requires
        0 <= i <= ws.len(),
        forall|k: int| 0 <= k < ws.len() ==> 0 <= #[trigger] ws[k] < 0x1_0000_0000,
    ensures
        0 <= prefix_width(ws, i) <= i * 0x1_0000_0014,
    decreases i,
{
    if i > 0 {
        lemma_prefix_width_bounds(ws, i - 1);
    }
}

/// Blends one channel: `(src * alpha + dst * (255 - alpha) + 127) / 255`.
fn blend_one(dst: u8, src: u8, alpha: u8) -> (r: u8)
    ensures
        r as int == blend_val(dst as int, src as int, alpha as int),
{
    proof {
        lemma_blend_val_bound(dst as int, src as int, alpha as int);
        assert(src as u32 * alpha as u32 + dst as u32 * (255 - alpha as u32) + 127 <= 255 * 255
            + 127) by (nonlinear_arith)
            requires
                dst < 256,
                src < 256,
                alpha < 256,
        ;
    }
    let num: u32 = src as u32 * (alpha as u32) + dst as u32 * (255 - alpha as u32) + 127;
    (num / 255) as u8
}

/// Reads channel `c` of canvas pixel `(x, y)`.
fn get_px(canvas: &Vec<u8>, x: usize, y: usize, c: usize) -> (r: u8)
    requires
        canvas@.len() == 4 * 550 * 180,
        x < 550,
        y < 180,
        c < 4,
    ensures
        r == pix(canvas@, x as int, y as int, c as int),
{
    proof {
        lemma_pix_index(x as int, y as int, c as int);
    }
    canvas[4 * (y * 550 + x) + c]
}

/// Overwrites canvas pixel `(x, y)` with an opaque color.
fn put_px(canvas: &mut Vec<u8>, x: usize, y: usize, r: u8, g: u8, b: u8)
    requires
        old(canvas)@.len() == 4 * 550 * 180,
        x < 550,
        y < 180,
    ensures
        final(canvas)@.len() == 4 * 550 * 180,
        forall|px: int, py: int, pc: int|
            0 <= px < 550 && 0 <= py < 180 && 0 <= pc < 4 ==> pix(final(canvas)@, px, py, pc) == (
            if px == x && py == y {
                if pc == 0 {
                    r
                } else if pc == 1 {
                    g
                } else if pc == 2 {
                    b
                } else {
                    255u8
                }
            } else {
                pix(old(canvas)@, px, py, pc)
            }),
{
    proof {
        lemma_pix_index(x as int, y as int, 0);
    }
    let base: usize = 4 * (y * 550 + x);
    canvas[base] = r;
    canvas[base + 1] = g;
    canvas[base + 2] = b;
    canvas[base + 3] = 255;
    proof {
        assert forall|px: int, py: int, pc: int|
            0 <= px < 550 && 0 <= py < 180 && 0 <= pc < 4 implies pix(final(canvas)@, px, py, pc)
            == (if px == x && py == y {
            if pc == 0 {
                r
            } else if pc == 1 {
                g
            } else if pc == 2 {
                b
            } else {
                255u8
            }
        } else {
            pix(old(canvas)@, px, py, pc)
        }) by {
            lemma_pix_index(px, py, pc);
            lemma_pix_index(x as int, y as int, pc);
        }
    }
}

/// Draws one glyph with its top-left corner at `(gx, gy)`, source-over
/// blended and clipped to the canvas.
fn blit(canvas: &mut Vec<u8>, img: &Bitmap, gx: i128, gy: i128)
    requires
        old(canvas)@.len() == 4 * 550 * 180,
        img.wf(),
        -0x10_0000_0000_0000_0000_0000_0000 <= gx <= 0x10_0000_0000_0000_0000_0000_0000,
        -0x10_0000_0000_0000_0000_0000_0000 <= gy <= 0x10_0000_0000_0000_0000_0000_0000,
    ensures
        final(canvas)@.len() == 4 * 550 * 180,
        forall|px: int, py: int, pc: int|
            0 <= px < 550 && 0 <= py < 180 && 0 <= pc < 4 ==> pix(final(canvas)@, px, py, pc)
                == blit_pix(old(canvas)@, *img, gx as int, gy as int, px, py, pc),
{
    let w = img.width as i128;
    let h = img.height as i128;
    let x0: i128 = if gx < 0 {
        0
    } else if gx > 550 {
        550
    } else {
        gx
    };
    let x1: i128 = if gx + w < 0 {
        0
    } else if gx + w > 550 {
        550
    } else {
        gx + w
    };
    let y0: i128 = if gy < 0 {
        0
    } else if gy > 180 {
        180
    } else {
        gy
    };
    let y1: i128 = if gy + h < 0 {
        0
    } else if gy + h > 180 {
        180
    } else {
        gy + h
    };
    let mut y: i128 = y0;
    while y < y1
        invariant
            canvas@.len() == 4 * 550 * 180,
            img.wf(),
            w == img.width as int,
            h == img.height as int,
            -0x10_0000_0000_0000_0000_0000_0000 <= gx <= 0x10_0000_0000_0000_0000_0000_0000,
            -0x10_0000_0000_0000_0000_0000_0000 <= gy <= 0x10_0000_0000_0000_0000_0000_0000,
            0 <= x0 <= 550,
            0 <= x1 <= 550,
            0 <= y0 <= 180,
            0 <= y1 <= 180,
            y0 <= y,
            y <= y1 || y == y0,
            forall|qx: int, qy: int|
                0 <= qx < 550 && 0 <= qy < 180 && in_rect(*img, gx as int, gy as int, qx, qy)
                    ==> x0 <= qx < x1 && y0 <= qy < y1,
            forall|qx: int, qy: int| x0 <= qx < x1 && y0 <= qy < y1
                ==> in_rect(*img, gx as int, gy as int, qx, qy),
            forall|px: int, py: int, pc: int|
                0 <= px < 550 && 0 <= py < 180 && 0 <= pc < 4 ==> pix(canvas@, px, py, pc) == (
                if x0 <= px < x1 && y0 <= py < y1 && py < y {
                    blit_pix(old(canvas)@, *img, gx as int, gy as int, px, py, pc)
                } else {
                    pix(old(canvas)@, px, py, pc)
                }),
        decreases y1 - y,
    {
        let mut x: i128 = x0;
        while x < x1
            invariant
                canvas@.len() == 4 * 550 * 180,
                img.wf(),
                w == img.width as int,
                h == img.height as int,
                -0x10_0000_0000_0000_0000_0000_0000 <= gx <= 0x10_0000_0000_0000_0000_0000_0000,
                -0x10_0000_0000_0000_0000_0000_0000 <= gy <= 0x10_0000_0000_0000_0000_0000_0000,
                0 <= x0 <= 550,
                0 <= x1 <= 550,
                0 <= y0 <= 180,
                0 <= y1 <= 180,
                y0 <= y < y1,
                x0 <= x,
                x <= x1 || x == x0,
                forall|qx: int, qy: int| x0 <= qx < x1 && y0 <= qy < y1
                    ==> in_rect(*img, gx as int, gy as int, qx, qy),
                forall|px: int, py: int, pc: int|
                    0 <= px < 550 && 0 <= py < 180 && 0 <= pc < 4 ==> pix(canvas@, px, py, pc)
                        == (if x0 <= px < x1 && y0 <= py < y1 && (py < y || (py == y && px < x)) {
                        blit_pix(old(canvas)@, *img, gx as int, gy as int, px, py, pc)
                    } else {
                        pix(old(canvas)@, px, py, pc)
                    }),
            decreases x1 - x,
        {
            proof {
                assert(in_rect(*img, gx as int, gy as int, x as int, y as int));
                assert(0 <= x - gx < img.width as int);
                assert(0 <= y - gy < img.height as int);
            }
            let sx: usize = (x - gx) as usize;
            let sy: usize = (y - gy) as usize;
            let xu: usize = x as usize;
            let yu: usize = y as usize;
            let sr = img.channel_at(sx, sy, 0);
            let sg = img.channel_at(sx, sy, 1);
            let sb = img.channel_at(sx, sy, 2);
            let sa = img.channel_at(sx, sy, 3);
            let dr = get_px(canvas, xu, yu, 0);
            let dg = get_px(canvas, xu, yu, 1);
            let db = get_px(canvas, xu, yu, 2);
            let nr = blend_one(dr, sr, sa);
            let ng = blend_one(dg, sg, sa);
            let nb = blend_one(db, sb, sa);
            let ghost before = canvas@;
            put_px(canvas, xu, yu, nr, ng, nb);
            proof {
                assert(in_rect(*img, gx as int, gy as int, x as int, y as int));
                assert(pix(before, x as int, y as int, 0) == pix(
                    old(canvas)@,
                    x as int,
                    y as int,
                    0,
                ));
                assert(pix(before, x as int, y as int, 1) == pix(
                    old(canvas)@,
                    x as int,
                    y as int,
                    1,
                ));
                assert(pix(before, x as int, y as int, 2) == pix(
                    old(canvas)@,
                    x as int,
                    y as int,
                    2,
                ));
            }
            x = x + 1;
        }
        y = y + 1;
    }
}

/// Centering past the canvas edge: the floor of `(c - v) / 2`, for `v`
/// larger than `c`, computed from the nonnegative difference.
proof fn lemma_neg_half(v: int, c: int, q: int)
    requires
        v > c,
        q == (v - (c - 1)) / 2,
    ensures
        (c - v) / 2 == -q,
{
    let b = v - c;
    lemma_fundamental_div_mod(b + 1, 2);
    let r = (b + 1) % 2;
    assert(b + 1 == 2 * q + r);
    assert(c - v == (-q) * 2 + (1 - r)) by (nonlinear_arith)
        requires
            b == v - c,
            b + 1 == 2 * q + r,
    ;
    lemma_fundamental_div_mod_converse(c - v, 2, -q, 1 - r);
}

/// Is canvas point `(x, y)` inside a glyph placed at `(gx, gy)`?
pub open spec fn in_rect(img: Bitmap, gx: int, gy: int, x: int, y: int) -> bool {
    gx <= x < gx + img.width && gy <= y < gy + img.height
}

/// One glyph laid over a canvas: blended inside its footprint, untouched
/// outside.
pub open spec fn blit_pix(
    before: Seq<u8>,
    img: Bitmap,
    gx: int,
    gy: int,
    x: int,
    y: int,
    c: int,
) -> u8 {
    if in_rect(img, gx, gy, x, y) {
        if c == 3 {
            255u8
        } else {
            blend_val(
                pix(before, x, y, c) as int,
                img.channel(x - gx, y - gy, c) as int,
                img.channel(x - gx, y - gy, 3) as int,
            ) as u8
        }
    } else {
        pix(before, x, y, c)
    }
}

/// The PNG byte stream that the image backend produces for an RGBA buffer
/// of the given dimensions.
pub uninterp spec fn png_bytes_of(width: int, height: int, rgba: Seq<u8>) -> Seq<u8>;

/// Relies on the png crate (Encoder::write_header, Writer::write_image_data,
/// Writer::finish) to serialize an RGBA buffer, eight bits per channel, as
/// a PNG byte stream; the stream depends on the arguments alone. On every
/// admitted input the calls succeed: the dimensions are nonzero, eight-bit
/// RGBA is a valid format, the buffer length equals exactly what the
/// encoder checks for, sequence validation is off by default, and writing
/// into a byte vector cannot fail.
#[verifier::external_body]
pub(crate) fn encode_png(width: u32, height: u32, rgba: &Vec<u8>) -> (r: Option<Vec<u8>>)
    requires
        rgba@.len() == 4 * (width as int) * (height as int),
        width >= 1,
        height >= 1,
    ensures
        r is Some,
        r matches Some(b) ==> b@ == png_bytes_of(width as int, height as int, rgba@),
{
    let mut out: Vec<u8> = Vec::new();
    let mut enc = png::Encoder::new(&mut out, width, height);
    enc.set_color(png::ColorType::Rgba);
    enc.set_depth(png::BitDepth::Eight);
    let mut writer = match enc.write_header() {
        Ok(w) => w,
        Err(_) => return None,
    };
    if writer.write_image_data(rgba.as_slice()).is_err() {
        return None;
    }
    if writer.finish().is_err() {
        return None;
    }
    Some(out)
}

/// Lays the picked glyphs over a fresh white canvas, left to right in
/// order with a fixed gap, the row centered horizontally and each glyph
/// centered vertically on its own, with source-over blending and clipping.
pub fn compose(imgs: &Vec<Bitmap>, idxs: &Vec<usize>) -> (r: Vec<u8>)
    requires
        forall|i: int| 0 <= i < imgs@.len() ==> (#[trigger] imgs@[i]).wf(),
        forall|k: int| 0 <= k < idxs@.len() ==> (#[trigger] idxs@[k] as int) < imgs@.len(),
    ensures
        r@.len() == 4 * 550 * 180,
        r@ == compose_pixels(selected(imgs@, idxs@)),
{
    let ghost sel = selected(imgs@, idxs@);
    let ghost ws = widths(sel);
    let m: usize = idxs.len();
    proof {
        assert(sel.len() == m && ws.len() == m);
        assert forall|k: int| 0 <= k < m implies 0 <= #[trigger] ws[k] < 0x1_0000_0000 by {
            assert(sel[k] == imgs@[idxs@[k] as int]);
            assert(ws[k] == sel[k].width as int);
        }
    }
    // total width of the row
    let mut p: i128 = 0;
    let mut t: usize = 0;
    while t < m
        invariant
            t <= m,
            m == idxs@.len(),
            sel == selected(imgs@, idxs@),
            ws == widths(sel),
            forall|i: int| 0 <= i < imgs@.len() ==> (#[trigger] imgs@[i]).wf(),
            forall|k: int| 0 <= k < idxs@.len() ==> (#[trigger] idxs@[k] as int) < imgs@.len(),
            forall|k: int| 0 <= k < m ==> 0 <= #[trigger] ws[k] < 0x1_0000_0000,
            p as int == prefix_width(ws, t as int),
        decreases m - t,
    {
        proof {
            lemma_prefix_width_bounds(ws, t as int);
            assert(sel[t as int] == imgs@[idxs@[t as int] as int]);
            assert(ws[t as int] == sel[t as int].width as int);
        }
        let wdt = imgs[idxs[t]].width;
        p = p + wdt as i128 + 20;
        t += 1;
    }
    proof {
        lemma_prefix_width_bounds(ws, m as int);
        if m > 0 {
            lemma_prefix_width_bounds(ws, m as int - 1);
            assert(prefix_width(ws, m as int) == prefix_width(ws, m as int - 1) + ws[m as int - 1]
                + 20);
            assert(p >= 20);
        }
    }
    let total: i128 = if m == 0 {
        0
    } else {
        p - 20
    };
    proof {
        assert(total as int == row_width(ws));
        assert(0 <= total as int <= (m as int) * 0x1_0000_0014);
    }
    let start: i128 = if total <= 550 {
        (550 - total) / 2
    } else {
        0 - ((total - 549) / 2)
    };
    proof {
        if total > 550 {
            lemma_neg_half(total as int, 550, ((total - 549) / 2) as int);
        }
        assert(start as int == start_x(ws));
        assert(-0x8_0000_0000_0000_0000_0000_0000 <= start <= 551);
    }
    // fresh opaque white canvas
    let mut canvas: Vec<u8> = Vec::new();
    let mut n: usize = 0;
    while n < CANVAS_BYTES
        invariant
            canvas@.len() == n,
            n <= 4 * 550 * 180,
            forall|j: int| 0 <= j < n ==> canvas@[j] == 255u8,
        decreases 4 * 550 * 180 - n,
    {
        canvas.push(255u8);
        n += 1;
    }
    proof {
        assert forall|px: int, py: int, pc: int|
            0 <= px < 550 && 0 <= py < 180 && 0 <= pc < 4 implies pix(canvas@, px, py, pc)
            == 255u8 by {
            lemma_pix_index(px, py, pc);
        }
    }
    // place the glyphs
    let mut x: i128 = start;
    let mut g: usize = 0;
    while g < m
        invariant
            g <= m,
            m == idxs@.len(),
            sel == selected(imgs@, idxs@),
            ws == widths(sel),
            forall|i: int| 0 <= i < imgs@.len() ==> (#[trigger] imgs@[i]).wf(),
            forall|k: int| 0 <= k < idxs@.len() ==> (#[trigger] idxs@[k] as int) < imgs@.len(),
            forall|k: int| 0 <= k < m ==> 0 <= #[trigger] ws[k] < 0x1_0000_0000,
            canvas@.len() == 4 * 550 * 180,
            x as int == glyph_x(ws, g as int),
            -0x8_0000_0000_0000_0000_0000_0000 <= start <= 551,
            start as int == start_x(ws),
            forall|px: int, py: int|
                0 <= px < 550 && 0 <= py < 180 ==> pix(canvas@, px, py, 0) as int == composed_rgb(
                    sel,
                    g as int,
                    px,
                    py,
                ).0 && pix(canvas@, px, py, 1) as int == composed_rgb(sel, g as int, px, py).1
                    && pix(canvas@, px, py, 2) as int == composed_rgb(sel, g as int, px, py).2
                    && pix(canvas@, px, py, 3) == 255u8,
        decreases m - g,
    {
        proof {
            lemma_prefix_width_bounds(ws, g as int);
            assert(sel[g as int] == imgs@[idxs@[g as int] as int]);
            assert(ws[g as int] == sel[g as int].width as int);
        }
        let idx = idxs[g];
        let img = &imgs[idx];
        let hh = img.height as i128;
        let gy: i128 = if hh <= 180 {
            (180 - hh) / 2
        } else {
            0 - ((hh - 179) / 2)
        };
        proof {
            if hh > 180 {
                lemma_neg_half(hh as int, 180, ((hh - 179) / 2) as int);
            }
            assert(gy as int == glyph_y(img.height as int));
        }
        let ghost before = canvas@;
        blit(&mut canvas, img, x, gy);
        proof {
            assert forall|px: int, py: int|
                0 <= px < 550 && 0 <= py < 180 implies pix(canvas@, px, py, 0) as int
                == composed_rgb(sel, g + 1, px, py).0 && pix(canvas@, px, py, 1) as int
                == composed_rgb(sel, g + 1, px, py).1 && pix(canvas@, px, py, 2) as int
                == composed_rgb(sel, g + 1, px, py).2 && pix(canvas@, px, py, 3) == 255u8 by {
                let prev = composed_rgb(sel, g as int, px, py);
                assert(pix(before, px, py, 0) as int == prev.0);
                assert(pix(before, px, py, 1) as int == prev.1);
                assert(pix(before, px, py, 2) as int == prev.2);
                assert(pix(before, px, py, 3) == 255u8);
                assert(covers(sel, g as int, px, py) <==> in_rect(
                    *img,
                    x as int,
                    gy as int,
                    px,
                    py,
                ));
                if covers(sel, g as int, px, py) {
                    let sx = px - (x as int);
                    let sy = py - (gy as int);
                    let al = img.channel(sx, sy, 3) as int;
                    lemma_blend_val_bound(prev.0, img.channel(sx, sy, 0) as int, al);
                    lemma_blend_val_bound(prev.1, img.channel(sx, sy, 1) as int, al);
                    lemma_blend_val_bound(prev.2, img.channel(sx, sy, 2) as int, al);
                }
            }
        }
        x = x + img.width as i128 + 20;
        proof {
            lemma_prefix_width_bounds(ws, g as int + 1);
            assert(prefix_width(ws, g as int + 1) == prefix_width(ws, g as int) + ws[g as int]
                + 20);
            assert(x as int == glyph_x(ws, g as int + 1));
        }
        g += 1;
    }
    proof {
        let out = compose_pixels(sel);
        assert(canvas@.len() == out.len());
        assert forall|j: int| 0 <= j < canvas@.len() implies canvas@[j] == out[j] by {
            let pp = j / 4;
            let cc = j % 4;
            let xx = pp % 550;
            let yy = pp / 550;
            lemma_fundamental_div_mod(j, 4);
            lemma_fundamental_div_mod(pp, 550);
            assert(0 <= cc < 4 && 0 <= xx < 550 && 0 <= yy < 180);
            lemma_pix_index(xx, yy, cc);
            assert(j == 4 * (yy * 550 + xx) + cc);
            assert(canvas@[j] == pix(canvas@, xx, yy, cc));
        }
        assert(canvas@ =~= out);
    }
    canvas
}

} // verus!
