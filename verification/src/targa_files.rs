//! Targa files byte by byte: which of them are read, and which byte of the
//! file becomes which byte of the image.
use crate::models::LoadedView;
use crate::raster::{lemma_join_pixels_at, lemma_join_pixels_len, lemma_pixel_row};
use crate::tga::{
    is_complete_tga, lemma_tga_size, lemma_upright_len, listed, stored_at, tga_header, tga_image, tga_size, tga_stored,
    upright, TgaHeader,
};
use crate::text::decimal;
use vstd::arithmetic::div_mod::lemma_fundamental_div_mod_converse;
use vstd::prelude::*;

verus! {

/// An image has the width and the height that bytes 12 to 15 of the file
/// say, low byte first; and one, three or four samples of 8 bits per pixel,
/// as byte 16 says. This holds of every file that is read, run-length
/// encoded or not.
pub proof fn law_targa_dimensions(data: Seq<u8>)
    requires
        tga_image(data) is Ok,
    ensures
        ({
            let image = tga_image(data)->Ok_0;
            &&& data.len() >= 18
            &&& image.width % 256 == data[12] && image.width / 256 == data[13]
            &&& image.height % 256 == data[14] && image.height / 256 == data[15]
            &&& image.bit_depth == 8
            &&& data[16] == 8 && image.color_type == 0 || data[16] == 24 && image.color_type == 2 || data[16] == 32
                && image.color_type == 6
            &&& 8 * image.stride == image.width * data[16]
            &&& image.orig_idat_size == data.len()
        }),
{
    let image = tga_image(data)->Ok_0;
    let w = image.width as int;
    assert(8 * (w * 1) == w * 8 && 8 * (w * 3) == w * 24 && 8 * (w * 4) == w * 32);
}

/// Which uncompressed files are read: those with a whole header and no color
/// map, with a size that is not 0 in either direction, with 8, 24 or 32 bits
/// per pixel, and with all pixels behind the header and the name. Nothing else
/// in the file matters.
pub proof fn law_targa_files_that_are_read(data: Seq<u8>)
    requires
        data.len() >= 18 ==> data[2] == 2 || data[2] == 3,
    ensures
        is_complete_tga(data),
        tga_image(data) is Ok <==> {
            let w = data[12] + 256 * data[13];
            let h = data[14] + 256 * data[15];
            &&& data.len() >= 18
            &&& data[1] == 0
            &&& w > 0 && h > 0
            &&& data[16] == 8 || data[16] == 24 || data[16] == 32
            &&& data.len() >= 18 + data[0] + w * h * (data[16] as int / 8)
        },
{
    if let Ok(h) = tga_header(data) {
        lemma_tga_size(h);
        assert(h.channels == data[16] as int / 8);
        if let Ok(stored) = tga_stored(data, h) {
            lemma_listed_len(data, h);
        }
    }
}

/// The pixels of an uncompressed file have the bytes that the file says.
proof fn lemma_listed_len(data: Seq<u8>, h: TgaHeader)
    requires
        tga_header(data) == Ok::<TgaHeader, Seq<char>>(h),
        h.image_type == 2 || h.image_type == 3,
        tga_stored(data, h) is Ok,
    ensures
        tga_stored(data, h)->Ok_0.len() == tga_size(h),
{
    lemma_tga_size(h);
    let pixel = listed(data, h.start as int, h.channels as int);
    let n = (h.width * h.height) as nat;
    lemma_join_pixels_len(n, pixel, h.channels as nat);
}

/// Why a file is not read, and what the user is told: the first reason that
/// holds counts.
pub proof fn law_targa_files_that_are_refused(data: Seq<u8>)
    ensures
        ({
            let w = data[12] + 256 * data[13];
            let h = data[14] + 256 * data[15];
            let kind = data[2];
            if data.len() < 18 {
                tga_image(data) == Err::<LoadedView, Seq<char>>("TGA header too short"@)
            } else if data[1] != 0 {
                tga_image(data) == Err::<LoadedView, Seq<char>>("Color-mapped TGA is not supported"@)
            } else if w == 0 || h == 0 {
                tga_image(data) == Err::<LoadedView, Seq<char>>("Invalid TGA image dimensions"@)
            } else if data[16] != 8 && data[16] != 24 && data[16] != 32 {
                tga_image(data) == Err::<LoadedView, Seq<char>>(
                    "Unsupported TGA bits-per-pixel: "@ + decimal(data[16] as nat),
                )
            } else if kind != 2 && kind != 3 && kind != 10 && kind != 11 {
                tga_image(data) == Err::<LoadedView, Seq<char>>(
                    "Unsupported TGA image type code: "@ + decimal(kind as nat),
                )
            } else if kind <= 3 && data.len() < 18 + data[0] + w * h * (data[16] as int / 8) {
                tga_image(data) == Err::<LoadedView, Seq<char>>("Truncated TGA pixel data"@)
            } else {
                kind <= 3 ==> tga_image(data) is Ok
            }
        }),
{
    if let Ok(h) = tga_header(data) {
        assert(h.channels == data[16] as int / 8);
    }
}

/// Which byte of an uncompressed file is which byte of the image. The pixels
/// stand behind the header of 18 bytes and a name of as many bytes as byte 0
/// says. Rows come from the bottom up unless bit 5 of byte 17 says otherwise,
/// and pixels from the left unless bit 4 does; colors come as blue, green
/// and red, with alpha behind them.
pub proof fn law_targa_pixels(data: Seq<u8>, x: int, y: int)
    requires
        tga_image(data) is Ok,
        data[2] == 2 || data[2] == 3,
        0 <= x < tga_image(data)->Ok_0.width,
        0 <= y < tga_image(data)->Ok_0.height,
    ensures
        ({
            let image = tga_image(data)->Ok_0;
            let w = image.width as int;
            let h = image.height as int;
            let size = data[16] as int / 8;
            let row = if (data[17] as int / 32) % 2 == 1 { y } else { h - 1 - y };
            let column = if (data[17] as int / 16) % 2 == 1 { w - 1 - x } else { x };
            let from = 18 + data[0] + (row * w + column) * size;
            let to = (y * w + x) * size;
            &&& image.pixels.len() == w * h * size
            &&& size == 1 ==> image.pixels[to] == data[from]
            &&& size >= 3 ==> image.pixels[to] == data[from + 2] && image.pixels[to + 1] == data[from + 1]
                && image.pixels[to + 2] == data[from]
            &&& size == 4 ==> image.pixels[to + 3] == data[from + 3]
        }),
{
    let h = tga_header(data)->Ok_0;
    let c = h.channels as nat;
    let n = (h.width * h.height) as nat;
    let from = listed(data, h.start as int, h.channels as int);
    let stored = tga_stored(data, h)->Ok_0;
    let to = upright(stored, h);
    let p = y * h.width + x;
    let row = if h.is_top_down { y } else { h.height - 1 - y };
    let column = if h.is_right_to_left { h.width - 1 - x } else { x };
    let q = row * h.width + column;
    lemma_tga_size(h);
    lemma_listed_len(data, h);
    lemma_upright_len(stored, h);
    assert(0 <= p < n) by (nonlinear_arith)
        requires
            0 <= x < h.width,
            0 <= y < h.height,
            p == y * h.width + x,
            n == h.width * h.height,
    ;
    assert(0 <= q < n) by (nonlinear_arith)
        requires
            0 <= column < h.width,
            0 <= row < h.height,
            q == row * h.width + column,
            n == h.width * h.height,
    ;
    lemma_fundamental_div_mod_converse(p, h.width as int, y, x);
    assert(stored_at(h, p) == q);
    assert forall|k: int| 0 <= k < n implies (#[trigger] to(k)).len() == c by {
        lemma_place(h, k, stored.len() as int);
    }
    lemma_join_pixels_at(n, to, c, p);
    lemma_join_pixels_at(n, from, c, q);
    lemma_place(h, p, stored.len() as int);
    let image = tga_image(data)->Ok_0;
    assert(stored.len() - tga_size(h) == 0);
    assert(image.pixels =~= crate::raster::join_pixels(n, to));
    assert(to(p)[0] == stored[q * c] && from(q)[0] == stored[q * c + 0]);
    assert(image.pixels[p * c + 0] == to(p)[0]);
    if c >= 3 {
        assert(image.pixels[p * c + 1] == to(p)[1] && from(q)[1] == stored[q * c + 1]);
        assert(image.pixels[p * c + 2] == to(p)[2] && from(q)[2] == stored[q * c + 2]);
    }
    if c == 4 {
        assert(image.pixels[p * c + 3] == to(p)[3] && from(q)[3] == stored[q * c + 3]);
    }
}

proof fn lemma_place(h: TgaHeader, p: int, size: int)
    requires
        0 <= p < h.width * h.height,
        tga_size(h) <= size,
        h.channels >= 1,
    ensures
        0 <= stored_at(h, p) < h.width * h.height,
        0 <= stored_at(h, p) * h.channels,
        stored_at(h, p) * h.channels + h.channels <= size,
{
    lemma_pixel_row(p, h.width as int, h.height as int);
    let y = p / h.width as int;
    let x = p % h.width as int;
    let row = if h.is_top_down { y } else { h.height - 1 - y };
    let column = if h.is_right_to_left { h.width - 1 - x } else { x };
    let q = row * h.width + column;
    assert(0 <= q < h.width * h.height) by (nonlinear_arith)
        requires
            0 <= row < h.height,
            0 <= column < h.width,
            q == row * h.width + column,
    ;
    assert(0 <= q * h.channels && q * h.channels + h.channels <= h.width * h.height * h.channels) by (nonlinear_arith)
        requires
            0 <= q < h.width * h.height,
            h.channels >= 1,
    ;
}

}
