//! Turning PNG artwork into the TGA textures that the Wii U menu expects.
//!
//! The console loads textures of fixed sizes, each an uncompressed truecolor TGA 2.0 file whose
//! rows run from the bottom up.

use image::imageops::FilterType;
use vstd::prelude::*;

use crate::error::{Error, Result};
use crate::text::text_join;
use crate::util::{append_bytes, append_zeros, zeros};

verus! {

/// A texture that a title carries in `meta/`.
#[derive(Clone, Copy, Debug, PartialEq, Eq, Structural)]
pub enum BootTexture {
    /// The title's icon, 128 by 128.
    Icon,
    /// The boot screen of the TV, 1280 by 720.
    BootTv,
    /// The boot screen of the GamePad, 854 by 480.
    BootDrc,
    /// The logo shown during boot, 170 by 42.
    BootLogo,
}

/// Width of a texture.
pub open spec fn width_of(t: BootTexture) -> int {
    match t {
        BootTexture::Icon => 128,
        BootTexture::BootTv => 1280,
        BootTexture::BootDrc => 854,
        BootTexture::BootLogo => 170,
    }
}

/// Height of a texture.
pub open spec fn height_of(t: BootTexture) -> int {
    match t {
        BootTexture::Icon => 128,
        BootTexture::BootTv => 720,
        BootTexture::BootDrc => 480,
        BootTexture::BootLogo => 42,
    }
}

/// Bytes per pixel of a texture: four where it has an alpha channel, three otherwise.
pub open spec fn depth_of(t: BootTexture) -> int {
    match t {
        BootTexture::Icon | BootTexture::BootLogo => 4,
        BootTexture::BootTv | BootTexture::BootDrc => 3,
    }
}

impl BootTexture {
    /// Width and height in pixels.
    pub fn dims(self) -> (r: (u32, u32))
        ensures
            r.0 == width_of(self),
            r.1 == height_of(self),
    {
        match self {
            BootTexture::Icon => (128, 128),
            BootTexture::BootTv => (1280, 720),
            BootTexture::BootDrc => (854, 480),
            BootTexture::BootLogo => (170, 42),
        }
    }

    /// Bits per pixel: 32 (BGRA) with an alpha channel, 24 (BGR) without.
    pub fn bpp(self) -> (r: u8)
        ensures
            r == depth_of(self) * 8,
    {
        match self {
            BootTexture::Icon | BootTexture::BootLogo => 32,
            BootTexture::BootTv | BootTexture::BootDrc => 24,
        }
    }

    /// The texture's file name in `meta/`.
    pub fn filename(self) -> (r: &'static str)
        ensures
            match self {
                BootTexture::Icon => r@ == "iconTex.tga"@,
                BootTexture::BootTv => r@ == "bootTvTex.tga"@,
                BootTexture::BootDrc => r@ == "bootDrcTex.tga"@,
                BootTexture::BootLogo => r@ == "bootLogoTex.tga"@,
            },
    {
        match self {
            BootTexture::Icon => "iconTex.tga",
            BootTexture::BootTv => "bootTvTex.tga",
            BootTexture::BootDrc => "bootDrcTex.tga",
            BootTexture::BootLogo => "bootLogoTex.tga",
        }
    }
}

/// The signature at the end of a TGA 2.0 file: `TRUEVISION-XFILE.` and a NUL.
const TGA_FOOTER_SIGNATURE: [u8; 18] = [
    0x54, 0x52, 0x55, 0x45, 0x56, 0x49, 0x53, 0x49, 0x4f, 0x4e, 0x2d, 0x58, 0x46, 0x49, 0x4c, 0x45,
    0x2e, 0x00,
];

/// The signature at the end of a TGA 2.0 file.
pub open spec fn footer() -> Seq<u8> {
    seq![
        0x54u8, 0x52u8, 0x55u8, 0x45u8, 0x56u8, 0x49u8, 0x53u8, 0x49u8, 0x4fu8, 0x4eu8, 0x2du8,
        0x58u8, 0x46u8, 0x49u8, 0x4cu8, 0x45u8, 0x2eu8, 0x00u8,
    ]
}

/// A 16-bit number, low byte first.
pub open spec fn le16(n: int) -> Seq<u8> {
    seq![(n % 256) as u8, (n / 256) as u8]
}

/// A pixel as the texture holds it: blue, green, red, and alpha where there is room for it.
pub open spec fn pixel(rgba: Seq<u8>, at: int, depth: int) -> Seq<u8> {
    if depth == 4 {
        seq![rgba[at + 2], rgba[at + 1], rgba[at], rgba[at + 3]]
    } else {
        seq![rgba[at + 2], rgba[at + 1], rgba[at]]
    }
}

/// The first `x` pixels of row `y`.
pub open spec fn row(rgba: Seq<u8>, width: int, y: int, depth: int, x: int) -> Seq<u8>
    decreases x,
{
    if x <= 0 {
        Seq::empty()
    } else {
        row(rgba, width, y, depth, x - 1) + pixel(rgba, (y * width + (x - 1)) * 4, depth)
    }
}

/// The lowest `n` rows, from the bottom up.
pub open spec fn rows(rgba: Seq<u8>, width: int, height: int, depth: int, n: int) -> Seq<u8>
    decreases n,
{
    if n <= 0 {
        Seq::empty()
    } else {
        rows(rgba, width, height, depth, n - 1) + row(rgba, width, height - n, depth, width)
    }
}

/// The header of a texture's file: truecolor without compression, the origin at the bottom left,
/// eight alpha bits where there is an alpha channel.
pub open spec fn tga_header(t: BootTexture) -> Seq<u8> {
    seq![0u8, 0u8, 2u8] + zeros(5) + le16(0) + le16(0) + le16(width_of(t)) + le16(height_of(t))
        + seq![
        (depth_of(t) * 8) as u8,
        if depth_of(t) == 4 {
            0x08u8
        } else {
            0x00u8
        },
    ]
}

/// A texture's file.
pub open spec fn tga_bytes(rgba: Seq<u8>, t: BootTexture) -> Seq<u8> {
    tga_header(t) + rows(rgba, width_of(t), height_of(t), depth_of(t), height_of(t)) + zeros(8)
        + footer()
}

proof fn lemma_pixel_inside(width: int, height: int, y: int, x: int)
    requires
        0 <= x < width,
        0 <= y < height,
    ensures
        0 <= (y * width + x) * 4,
        (y * width + x) * 4 + 4 <= width * height * 4,
        0 <= y * width <= width * height,
{
    assert(y * width + width <= width * height) by (nonlinear_arith)
        requires
            0 <= y < height,
            0 < width,
    ;
    assert(0 <= y * width) by (nonlinear_arith)
        requires
            0 <= y,
            0 < width,
    ;
}

/// Encode the pixels of a texture, four bytes each (red, green, blue, alpha) from the top left.
pub fn encode_tga(rgba: &[u8], tex: BootTexture) -> (out: Vec<u8>)
    requires
        rgba@.len() == width_of(tex) * height_of(tex) * 4,
    ensures
        out@ == tga_bytes(rgba@, tex),
{
    let (width, height) = tex.dims();
    let bpp: u8 = tex.bpp();
    let ghost depth = depth_of(tex);
    let mut out: Vec<u8> = Vec::new();
    out.push(0);
    out.push(0);
    out.push(2);
    append_zeros(&mut out, 9);
    out.push((width % 256) as u8);
    out.push((width / 256) as u8);
    out.push((height % 256) as u8);
    out.push((height / 256) as u8);
    out.push(bpp);
    out.push(
        if bpp == 32 {
            0x08
        } else {
            0x00
        },
    );
    assert(out@ =~= tga_header(tex));
    let ghost head = out@;
    let mut n: u32 = 0;
    assert(head + rows(rgba@, width as int, height as int, depth, 0) =~= head);
    while n < height
        invariant
            n <= height,
            0 < width <= 1280,
            0 < height <= 720,
            rgba@.len() == width * height * 4,
            depth == 3 || depth == 4,
            bpp == depth * 8,
            out@ == head + rows(rgba@, width as int, height as int, depth, n as int),
        decreases height - n,
    {
        let y: u32 = height - n - 1;
        let ghost before = out@;
        let mut x: u32 = 0;
        assert(before + row(rgba@, width as int, y as int, depth, 0) =~= before);
        while x < width
            invariant
                x <= width,
                y < height,
                0 < width <= 1280,
                0 < height <= 720,
                rgba@.len() == width * height * 4,
                depth == 3 || depth == 4,
                bpp == depth * 8,
                out@ == before + row(rgba@, width as int, y as int, depth, x as int),
            decreases width - x,
        {
            proof {
                lemma_pixel_inside(width as int, height as int, y as int, x as int);
                assert(width * height <= 1280 * 720) by (nonlinear_arith)
                    requires
                        0 <= width <= 1280,
                        0 <= height <= 720,
                ;
            }
            let at: usize = ((y * width + x) * 4) as usize;
            let ghost sofar = out@;
            out.push(rgba[at + 2]);
            out.push(rgba[at + 1]);
            out.push(rgba[at]);
            if bpp == 32 {
                out.push(rgba[at + 3]);
            }
            assert(out@ =~= sofar + pixel(rgba@, at as int, depth));
            x += 1;
            assert(out@ =~= before + row(rgba@, width as int, y as int, depth, x as int));
        }
        n += 1;
        assert(out@ =~= head + rows(rgba@, width as int, height as int, depth, n as int));
    }
    append_zeros(&mut out, 8);
    let tail: &[u8] = TGA_FOOTER_SIGNATURE.as_slice();
    assert(tail@ =~= footer());
    append_bytes(&mut out, tail);
    assert(out@ =~= tga_bytes(rgba@, tex));
    out
}

/// What `image::load_from_memory` and `DynamicImage::to_rgba8` make of a picture: its width, its
/// height and its pixels, four bytes each; none for bytes that cannot be decoded.
pub uninterp spec fn picture_of(png: Seq<u8>) -> Option<(u32, u32, Seq<u8>)>;

/// Whether `rgba` can be a picture brought to the given size: it has that size, and a picture
/// that already had it is left as it is.
pub open spec fn brought_to(png: Seq<u8>, width: u32, height: u32, rgba: Seq<u8>) -> bool {
    &&& rgba.len() == width * height * 4
    &&& picture_of(png) matches Some((w, h, pixels))
    &&& w == width && h == height ==> rgba == pixels
}

/// `image::load_from_memory`, `DynamicImage::resize_exact` with the Lanczos filter and
/// `DynamicImage::to_rgba8`: the pixels of a picture brought to the given size, four bytes each.
/// What cannot be decoded is refused, nothing else. A picture of that very size is copied. Which
/// pixels come out of scaling is not stated: the filter's kernel is made of sines in floating
/// point, whose last digits differ between machines.
#[verifier::external_body]
fn scaled_pixels(png: &[u8], width: u32, height: u32) -> (r: core::result::Result<Vec<u8>, String>)
    requires
        0 < width <= 1280,
        0 < height <= 720,
    ensures
        r is Ok <==> picture_of(png@) is Some,
        r matches Ok(rgba) ==> brought_to(png@, width, height, rgba@),
{
    let img = image::load_from_memory(png).map_err(|e| e.to_string())?;
    Ok(img.resize_exact(width, height, FilterType::Lanczos3).to_rgba8().into_raw())
}

/// Whether `tga` can be a picture as a texture's file.
pub open spec fn texture_made(png: Seq<u8>, tex: BootTexture, tga: Seq<u8>) -> bool {
    exists|rgba: Seq<u8>|
        brought_to(png, width_of(tex) as u32, height_of(tex) as u32, rgba) && tga
            == #[trigger] tga_bytes(rgba, tex)
}

/// Decode a PNG, bring it to the size of a texture and encode it as the texture's file.
pub fn png_to_tga(png_bytes: &[u8], tex: BootTexture) -> (r: Result<Vec<u8>>)
    ensures
        match r {
            Ok(tga) => picture_of(png_bytes@) is Some && texture_made(png_bytes@, tex, tga@),
            Err(e) => picture_of(png_bytes@) is None && e is Other,
        },
{
    let (width, height) = tex.dims();
    match scaled_pixels(png_bytes, width, height) {
        Ok(rgba) => Ok(encode_tga(rgba.as_slice(), tex)),
        Err(report) => Err(
            Error::Other(text_join("failed to decode PNG: ", report.as_str())),
        ),
    }
}

proof fn lemma_row_len(rgba: Seq<u8>, width: int, y: int, depth: int, x: int)
    requires
        0 <= x,
        depth == 3 || depth == 4,
    ensures
        row(rgba, width, y, depth, x).len() == x * depth,
    decreases x,
{
    if x > 0 {
        lemma_row_len(rgba, width, y, depth, x - 1);
        assert((x - 1) * depth + depth == x * depth) by (nonlinear_arith);
    }
}

proof fn lemma_rows_len(rgba: Seq<u8>, width: int, height: int, depth: int, n: int)
    requires
        0 <= n,
        0 <= width,
        depth == 3 || depth == 4,
    ensures
        rows(rgba, width, height, depth, n).len() == n * (width * depth),
    decreases n,
{
    if n > 0 {
        lemma_rows_len(rgba, width, height, depth, n - 1);
        lemma_row_len(rgba, width, height - n, depth, width);
        assert((n - 1) * (width * depth) + width * depth == n * (width * depth))
            by (nonlinear_arith);
    } else {
        assert(n * (width * depth) == 0) by (nonlinear_arith)
            requires
                n == 0,
        ;
    }
}

/// A texture's file is a header of 18 bytes, the pixels and a footer of 26 bytes.
pub proof fn law_texture_size(rgba: Seq<u8>, t: BootTexture)
    ensures
        tga_bytes(rgba, t).len() == 18 + width_of(t) * height_of(t) * depth_of(t) + 26,
        tga_bytes(rgba, t).subrange(0, 18) == tga_header(t),
        tga_bytes(rgba, t).subrange(
            tga_bytes(rgba, t).len() - 18,
            tga_bytes(rgba, t).len() as int,
        ) == footer(),
{
    let (w, h, d) = (width_of(t), height_of(t), depth_of(t));
    lemma_rows_len(rgba, w, h, d, h);
    assert(h * (w * d) == w * h * d) by (nonlinear_arith);
    let all = tga_bytes(rgba, t);
    assert(all.subrange(0, 18) =~= tga_header(t));
    assert(all.subrange(all.len() - 18, all.len() as int) =~= footer());
}

proof fn lemma_row_at(rgba: Seq<u8>, width: int, y: int, depth: int, n: int, x: int, c: int)
    requires
        0 <= x < n,
        depth == 3 || depth == 4,
        0 <= c < depth,
    ensures
        row(rgba, width, y, depth, n)[x * depth + c] == pixel(
            rgba,
            (y * width + x) * 4,
            depth,
        )[c],
    decreases n,
{
    let front = row(rgba, width, y, depth, n - 1);
    lemma_row_len(rgba, width, y, depth, n - 1);
    assert(0 <= x * depth) by (nonlinear_arith)
        requires
            0 <= x,
            0 < depth,
    ;
    if x < n - 1 {
        assert(x * depth + depth <= (n - 1) * depth) by (nonlinear_arith)
            requires
                x + 1 <= n - 1,
                0 < depth,
        ;
        lemma_row_at(rgba, width, y, depth, n - 1, x, c);
    }
}

proof fn lemma_rows_at(rgba: Seq<u8>, width: int, height: int, depth: int, n: int, m: int, r: int)
    requires
        0 <= m < n,
        0 < width,
        depth == 3 || depth == 4,
        0 <= r < width * depth,
    ensures
        rows(rgba, width, height, depth, n)[m * (width * depth) + r] == row(
            rgba,
            width,
            height - 1 - m,
            depth,
            width,
        )[r],
        0 <= m * (width * depth),
        m * (width * depth) + width * depth <= n * (width * depth),
    decreases n,
{
    let line = width * depth;
    lemma_rows_len(rgba, width, height, depth, n - 1);
    lemma_row_len(rgba, width, height - n, depth, width);
    assert(0 <= m * line) by (nonlinear_arith)
        requires
            0 <= m,
            0 < line,
    ;
    assert(m * line + line <= n * line) by (nonlinear_arith)
        requires
            m + 1 <= n,
            0 < line,
    ;
    if m < n - 1 {
        assert(m * line + line <= (n - 1) * line) by (nonlinear_arith)
            requires
                m + 1 <= n - 1,
                0 < line,
        ;
        lemma_rows_at(rgba, width, height, depth, n - 1, m, r);
    }
}

/// Every pixel of a picture stands in the file, the lowest row first and each row from the left:
/// its blue, its green and its red byte, and its alpha byte where the texture has an alpha
/// channel.
pub proof fn law_pixels_stand_from_the_bottom_up(rgba: Seq<u8>, t: BootTexture, x: int, y: int)
    requires
        ({
            let (w, h, d) = match t {
                BootTexture::Icon => (128int, 128int, 4int),
                BootTexture::BootTv => (1280, 720, 3),
                BootTexture::BootDrc => (854, 480, 3),
                BootTexture::BootLogo => (170, 42, 4),
            };
            &&& rgba.len() == w * h * 4
            &&& 0 <= x < w
            &&& 0 <= y < h
        }),
    ensures
        ({
            let (w, h, d) = match t {
                BootTexture::Icon => (128int, 128int, 4int),
                BootTexture::BootTv => (1280, 720, 3),
                BootTexture::BootDrc => (854, 480, 3),
                BootTexture::BootLogo => (170, 42, 4),
            };
            let at = 18 + (h - 1 - y) * (w * d) + x * d;
            let from = (y * w + x) * 4;
            &&& tga_bytes(rgba, t).len() == 18 + w * h * d + 26
            &&& tga_bytes(rgba, t)[at] == rgba[from + 2]
            &&& tga_bytes(rgba, t)[at + 1] == rgba[from + 1]
            &&& tga_bytes(rgba, t)[at + 2] == rgba[from]
            &&& d == 4 ==> tga_bytes(rgba, t)[at + 3] == rgba[from + 3]
        }),
{
    let (w, h, d) = (width_of(t), height_of(t), depth_of(t));
    law_texture_size(rgba, t);
    let m = h - 1 - y;
    assert(0 <= x * d && x * d + d <= w * d) by (nonlinear_arith)
        requires
            0 <= x < w,
            0 < d,
    ;
    lemma_row_at(rgba, w, y, d, w, x, 0);
    lemma_row_at(rgba, w, y, d, w, x, 1);
    lemma_row_at(rgba, w, y, d, w, x, 2);
    lemma_rows_at(rgba, w, h, d, h, m, x * d);
    lemma_rows_at(rgba, w, h, d, h, m, x * d + 1);
    lemma_rows_at(rgba, w, h, d, h, m, x * d + 2);
    lemma_rows_len(rgba, w, h, d, h);
    if d == 4 {
        lemma_row_at(rgba, w, y, d, w, x, 3);
        lemma_rows_at(rgba, w, h, d, h, m, x * d + 3);
    }
    let body = rows(rgba, w, h, d, h);
    let all = tga_bytes(rgba, t);
    assert(all =~= tga_header(t) + body + (zeros(8) + footer()));
    assert(forall|k: int| 0 <= k < body.len() ==> all[18 + k] == body[k]);
    assert(all[18 + (m * (w * d) + x * d)] == body[m * (w * d) + x * d]);
    assert(all[18 + (m * (w * d) + (x * d + 1))] == body[m * (w * d) + (x * d + 1)]);
    assert(all[18 + (m * (w * d) + (x * d + 2))] == body[m * (w * d) + (x * d + 2)]);
    if d == 4 {
        assert(all[18 + (m * (w * d) + (x * d + 3))] == body[m * (w * d) + (x * d + 3)]);
    }
}

/// The header says that the file holds an uncompressed truecolor picture, how large it is and how
/// many bits a pixel has, eight of them alpha where there is an alpha channel.
pub proof fn law_header_describes_the_picture(rgba: Seq<u8>, t: BootTexture)
    ensures
        ({
            let (w, h, d) = match t {
                BootTexture::Icon => (128int, 128int, 4int),
                BootTexture::BootTv => (1280, 720, 3),
                BootTexture::BootDrc => (854, 480, 3),
                BootTexture::BootLogo => (170, 42, 4),
            };
            let head = tga_bytes(rgba, t).subrange(0, 18);
            &&& tga_bytes(rgba, t).len() >= 18
            &&& head[0] == 0 && head[1] == 0 && head[2] == 2
            &&& forall|k: int| 3 <= k < 12 ==> #[trigger] head[k] == 0
            &&& head[12] + head[13] * 256 == w
            &&& head[14] + head[15] * 256 == h
            &&& head[16] == d * 8
            &&& head[17] == if d == 4 {
                8int
            } else {
                0
            }
        }),
{
    law_texture_size(rgba, t);
    let head = tga_header(t);
    assert(head.len() == 18);
}

/// The file ends with eight zeros and the text `TRUEVISION-XFILE.` with a NUL behind it.
pub proof fn law_footer_is_that_of_tga(rgba: Seq<u8>, t: BootTexture)
    ensures
        ({
            let all = tga_bytes(rgba, t);
            let n = all.len() as int;
            &&& n >= 44
            &&& forall|k: int| n - 26 <= k < n - 18 ==> #[trigger] all[k] == 0
            &&& all.subrange(n - 18, n) == seq![
                'T' as u8,
                'R' as u8,
                'U' as u8,
                'E' as u8,
                'V' as u8,
                'I' as u8,
                'S' as u8,
                'I' as u8,
                'O' as u8,
                'N' as u8,
                '-' as u8,
                'X' as u8,
                'F' as u8,
                'I' as u8,
                'L' as u8,
                'E' as u8,
                '.' as u8,
                0u8,
            ]
        }),
{
    law_texture_size(rgba, t);
    let all = tga_bytes(rgba, t);
    let n = all.len() as int;
    let (w, h, d) = (width_of(t), height_of(t), depth_of(t));
    lemma_rows_len(rgba, w, h, d, h);
    assert(all =~= tga_header(t) + rows(rgba, w, h, d, h) + (zeros(8) + footer()));
    assert(forall|k: int| n - 26 <= k < n ==> all[k] == (zeros(8) + footer())[k - (n - 26)]);
    assert(all.subrange(n - 18, n) =~= footer());
}

/// A picture that already has the size of its texture is encoded as it is.
pub proof fn law_fitting_picture_is_kept(png: Seq<u8>, t: BootTexture, tga: Seq<u8>, pixels: Seq<u8>)
    requires
        texture_made(png, t, tga),
        picture_of(png) == Some((width_of(t) as u32, height_of(t) as u32, pixels)),
    ensures
        tga == tga_bytes(pixels, t),
        pixels.len() == width_of(t) * height_of(t) * 4,
{
}

} // verus!
