//! Targa images, uncompressed or run-length encoded.
use crate::models::{LoadedImage, LoadedView};
use crate::raster::{append_bytes, join_pixels, lemma_join_pixels_len, lemma_pixel_row};
use crate::text::{append_decimal, decimal};
use vstd::arithmetic::div_mod::lemma_fundamental_div_mod_converse;
use vstd::prelude::*;

verus! {

/// What the header of a Targa image says.
#[derive(Debug, Clone, Copy, PartialEq, Eq, Structural)]
pub struct TgaHeader {
    pub width: u32,
    pub height: u32,
    /// Bytes per pixel.
    pub channels: usize,
    pub color_type: u8,
    pub image_type: u8,
    /// Where the pixels start.
    pub start: usize,
    pub is_top_down: bool,
    pub is_right_to_left: bool,
}

/// A number in two bytes, lowest byte first.
pub open spec fn le_number(data: Seq<u8>, pos: int) -> int {
    data[pos] + data[pos + 1] * 256
}

pub open spec fn bpp_message(bpp: u8) -> Seq<char> {
    "Unsupported TGA bits-per-pixel: "@ + decimal(bpp as nat)
}

pub open spec fn image_type_message(image_type: u8) -> Seq<char> {
    "Unsupported TGA image type code: "@ + decimal(image_type as nat)
}

/// The header of a Targa image, or the message why it cannot be used.
pub open spec fn tga_header(data: Seq<u8>) -> Result<TgaHeader, Seq<char>> {
    if data.len() < 18 {
        Err("TGA header too short"@)
    } else if data[1] != 0 {
        Err("Color-mapped TGA is not supported"@)
    } else if le_number(data, 12) == 0 || le_number(data, 14) == 0 {
        Err("Invalid TGA image dimensions"@)
    } else if data[16] != 8 && data[16] != 24 && data[16] != 32 {
        Err(bpp_message(data[16]))
    } else {
        Ok(
            TgaHeader {
                width: le_number(data, 12) as u32,
                height: le_number(data, 14) as u32,
                channels: if data[16] == 8 { 1 } else if data[16] == 24 { 3 } else { 4 },
                color_type: if data[16] == 8 { 0 } else if data[16] == 24 { 2 } else { 6 },
                image_type: data[2],
                start: (18 + data[0]) as usize,
                is_top_down: data[17] / 32 % 2 == 1,
                is_right_to_left: data[17] / 16 % 2 == 1,
            },
        )
    }
}

/// The pixel at `at`, with its colors from blue, green, red to red, green,
/// blue.
pub open spec fn rgb_order(data: Seq<u8>, at: int, channels: int) -> Seq<u8> {
    if channels == 4 {
        seq![data[at + 2], data[at + 1], data[at], data[at + 3]]
    } else if channels == 3 {
        seq![data[at + 2], data[at + 1], data[at]]
    } else {
        seq![data[at]]
    }
}

/// The pixels that stand one after the other from `at` on.
pub open spec fn listed(data: Seq<u8>, at: int, channels: int) -> spec_fn(int) -> Seq<u8> {
    |p: int| rgb_order(data, at + p * channels, channels)
}

/// The pixel at `at` over and over.
pub open spec fn repeated(data: Seq<u8>, at: int, channels: int) -> spec_fn(int) -> Seq<u8> {
    |p: int| rgb_order(data, at, channels)
}

pub open spec fn put_before(s: Seq<u8>, rest: Result<Seq<u8>, Seq<char>>) -> Result<Seq<u8>, Seq<char>> {
    match rest {
        Ok(r) => Ok(s + r),
        Err(message) => Err(message),
    }
}

/// The pixels of a run-length encoded stream from `at` on, when `missing`
/// bytes are still to come. The stream ends with the data, or with the
/// packet that brings the last missing byte.
pub open spec fn run_length_pixels(data: Seq<u8>, at: int, missing: int, channels: int) -> Result<Seq<u8>, Seq<char>>
    decreases data.len() - at,
{
    if missing <= 0 || at < 0 || at >= data.len() || channels <= 0 {
        Ok(Seq::empty())
    } else {
        let n = (data[at] % 128 + 1) as nat;
        let size = n * channels;
        if data[at] >= 128 {
            if at + 1 + channels > data.len() {
                Err("Unexpected EOF in TGA RLE stream"@)
            } else {
                put_before(
                    join_pixels(n, repeated(data, at + 1, channels)),
                    run_length_pixels(data, at + 1 + channels, missing - size, channels),
                )
            }
        } else if at + 1 + size > data.len() || size <= 0 {
            Err("Unexpected EOF in TGA raw stream"@)
        } else {
            put_before(
                join_pixels(n, listed(data, at + 1, channels)),
                run_length_pixels(data, at + 1 + size, missing - size, channels),
            )
        }
    }
}

/// The number of bytes of all pixels.
pub open spec fn tga_size(h: TgaHeader) -> int {
    h.width * h.height * h.channels
}

/// The pixels in the order in which the file has them.
pub open spec fn tga_stored(data: Seq<u8>, h: TgaHeader) -> Result<Seq<u8>, Seq<char>> {
    if h.image_type == 2 || h.image_type == 3 {
        if data.len() < h.start + tga_size(h) {
            Err("Truncated TGA pixel data"@)
        } else {
            Ok(join_pixels((h.width * h.height) as nat, listed(data, h.start as int, h.channels as int)))
        }
    } else if h.image_type == 10 || h.image_type == 11 {
        run_length_pixels(data, h.start as int, tga_size(h), h.channels as int)
    } else {
        Err(image_type_message(h.image_type))
    }
}

/// Which pixel of the file is pixel `p`, counted row by row from the top
/// left.
pub open spec fn stored_at(h: TgaHeader, p: int) -> int {
    let y = p / h.width as int;
    let x = p % h.width as int;
    let row = if h.is_top_down { y } else { h.height - 1 - y };
    let column = if h.is_right_to_left { h.width - 1 - x } else { x };
    row * h.width + column
}

/// The pixels in rows from the top left.
pub open spec fn upright(stored: Seq<u8>, h: TgaHeader) -> spec_fn(int) -> Seq<u8> {
    |p: int| stored.subrange(stored_at(h, p) * h.channels, stored_at(h, p) * h.channels + h.channels)
}

/// The image of a Targa file, or the message why it cannot be read. Where a
/// last packet brings more pixels than the image has, zero bytes take their
/// place behind the image.
pub open spec fn tga_image(data: Seq<u8>) -> Result<LoadedView, Seq<char>> {
    match tga_header(data) {
        Err(message) => Err(message),
        Ok(h) => match tga_stored(data, h) {
            Err(message) => Err(message),
            Ok(stored) => Ok(
                LoadedView {
                    width: h.width,
                    height: h.height,
                    bit_depth: 8,
                    color_type: h.color_type,
                    stride: h.width * h.channels,
                    pixels: join_pixels((h.width * h.height) as nat, upright(stored, h)) + Seq::new(
                        (stored.len() - tga_size(h)) as nat,
                        |i: int| 0u8,
                    ),
                    orig_idat_size: data.len() as int,
                },
            ),
        },
    }
}

/// The file has all pixels that its header promises, or is refused.
pub open spec fn is_complete_tga(data: Seq<u8>) -> bool {
    tga_header(data) matches Ok(h) ==> tga_stored(data, h) matches Ok(stored) ==> stored.len() >= tga_size(h)
}

fn append_rgb(out: &mut Vec<u8>, data: &[u8], at: usize, channels: usize)
    requires
        channels == 1 || channels == 3 || channels == 4,
        at + channels <= data@.len(),
    ensures
        final(out)@ == old(out)@ + rgb_order(data@, at as int, channels as int),
{
    let len: usize = data.len();
    assert(at + channels <= len);
    if channels >= 3 {
        out.push(data[at + 2]);
        out.push(data[at + 1]);
        out.push(data[at]);
        if channels == 4 {
            out.push(data[at + 3]);
        }
    } else {
        out.push(data[at]);
    }
    assert(out@ =~= old(out)@ + rgb_order(data@, at as int, channels as int));
}

fn append_listed(out: &mut Vec<u8>, data: &[u8], at: usize, n: usize, channels: usize)
    requires
        channels == 1 || channels == 3 || channels == 4,
        at + n * channels <= data@.len(),
    ensures
        final(out)@ == old(out)@ + join_pixels(n as nat, listed(data@, at as int, channels as int)),
{
    let ghost pixel = listed(data@, at as int, channels as int);
    let len: usize = data.len();
    let mut p: usize = 0;
    let mut pos: usize = at;
    assert(out@ =~= old(out)@ + join_pixels(0, pixel));
    while p < n
        invariant
            p <= n,
            channels == 1 || channels == 3 || channels == 4,
            at + n * channels <= len,
            len == data@.len(),
            pos == at + p * channels,
            pixel == listed(data@, at as int, channels as int),
            out@ == old(out)@ + join_pixels(p as nat, pixel),
        decreases n - p,
    {
        proof {
            assert((p + 1) * channels <= n * channels && (p + 1) * channels == p * channels + channels)
                by (nonlinear_arith)
                requires
                    p < n,
            ;
        }
        append_rgb(out, data, pos, channels);
        proof {
            assert(pixel(p as int) == rgb_order(data@, at + p * channels, channels as int));
            assert(old(out)@ + join_pixels(p as nat, pixel) + pixel(p as int) =~= old(out)@ + join_pixels(
                (p + 1) as nat,
                pixel,
            ));
        }
        pos = pos + channels;
        p = p + 1;
    }
}

fn append_repeated(out: &mut Vec<u8>, data: &[u8], at: usize, n: usize, channels: usize)
    requires
        channels == 1 || channels == 3 || channels == 4,
        at + channels <= data@.len(),
    ensures
        final(out)@ == old(out)@ + join_pixels(n as nat, repeated(data@, at as int, channels as int)),
{
    let ghost pixel = repeated(data@, at as int, channels as int);
    let mut p: usize = 0;
    assert(out@ =~= old(out)@ + join_pixels(0, pixel));
    while p < n
        invariant
            p <= n,
            channels == 1 || channels == 3 || channels == 4,
            at + channels <= data@.len(),
            pixel == repeated(data@, at as int, channels as int),
            out@ == old(out)@ + join_pixels(p as nat, pixel),
        decreases n - p,
    {
        append_rgb(out, data, at, channels);
        proof {
            assert(pixel(p as int) == rgb_order(data@, at as int, channels as int));
            assert(old(out)@ + join_pixels(p as nat, pixel) + pixel(p as int) =~= old(out)@ + join_pixels(
                (p + 1) as nat,
                pixel,
            ));
        }
        p = p + 1;
    }
}

fn read_header(data: &[u8]) -> (r: Result<TgaHeader, String>)
    ensures
        match r {
            Ok(h) => tga_header(data@) == Ok::<TgaHeader, Seq<char>>(h),
            Err(text) => tga_header(data@) == Err::<TgaHeader, Seq<char>>(text@),
        },
{
    if data.len() < 18 {
        return Err("TGA header too short".to_string());
    }
    if data[1] != 0 {
        return Err("Color-mapped TGA is not supported".to_string());
    }
    let width: u32 = data[12] as u32 + data[13] as u32 * 256;
    let height: u32 = data[14] as u32 + data[15] as u32 * 256;
    if width == 0 || height == 0 {
        return Err("Invalid TGA image dimensions".to_string());
    }
    let bpp: u8 = data[16];
    if bpp != 8 && bpp != 24 && bpp != 32 {
        let mut text: String = "Unsupported TGA bits-per-pixel: ".to_string();
        append_decimal(&mut text, bpp as u128);
        return Err(text);
    }
    Ok(
        TgaHeader {
            width,
            height,
            channels: if bpp == 8 { 1 } else if bpp == 24 { 3 } else { 4 },
            color_type: if bpp == 8 { 0 } else if bpp == 24 { 2 } else { 6 },
            image_type: data[2],
            start: 18 + data[0] as usize,
            is_top_down: data[17] / 32 % 2 == 1,
            is_right_to_left: data[17] / 16 % 2 == 1,
        },
    )
}

fn read_run_length(data: &[u8], start: usize, size: u64, channels: usize) -> (r: Result<Vec<u8>, String>)
    requires
        channels == 1 || channels == 3 || channels == 4,
    ensures
        match r {
            Ok(out) => run_length_pixels(data@, start as int, size as int, channels as int) == Ok::<
                Seq<u8>,
                Seq<char>,
            >(out@),
            Err(text) => run_length_pixels(data@, start as int, size as int, channels as int) == Err::<
                Seq<u8>,
                Seq<char>,
            >(text@),
        },
{
    let ghost want = run_length_pixels(data@, start as int, size as int, channels as int);
    let len: usize = data.len();
    let mut out: Vec<u8> = Vec::new();
    let mut at: usize = start;
    proof {
        let rest = run_length_pixels(data@, start as int, size as int, channels as int);
        if let Ok(s) = rest {
            assert(out@ + s =~= s);
        }
    }
    while (out.len() as u64) < size && at < len
        invariant
            channels == 1 || channels == 3 || channels == 4,
            len == data@.len(),
            start <= at,
            want == run_length_pixels(data@, start as int, size as int, channels as int),
            want == put_before(
                out@,
                run_length_pixels(data@, at as int, size - out@.len(), channels as int),
            ),
        decreases len - at,
    {
        let n: usize = (data[at] % 128) as usize + 1;
        let ghost before = out@;
        let ghost missing = size - out@.len();
        if data[at] >= 128 {
            if channels > len - at - 1 {
                return Err("Unexpected EOF in TGA RLE stream".to_string());
            }
            append_repeated(&mut out, data, at + 1, n, channels);
            proof {
                let pixel = repeated(data@, at + 1, channels as int);
                lemma_join_pixels_len(n as nat, pixel, channels as nat);
                lemma_put_before(
                    before,
                    join_pixels(n as nat, pixel),
                    run_length_pixels(data@, at + 1 + channels, missing - n * channels, channels as int),
                );
            }
            at = at + 1 + channels;
        } else {
            let size_here: usize = n * channels;
            if size_here > len - at - 1 {
                return Err("Unexpected EOF in TGA raw stream".to_string());
            }
            append_listed(&mut out, data, at + 1, n, channels);
            proof {
                let pixel = listed(data@, at + 1, channels as int);
                lemma_join_pixels_len(n as nat, pixel, channels as nat);
                lemma_put_before(
                    before,
                    join_pixels(n as nat, pixel),
                    run_length_pixels(data@, at + 1 + n * channels, missing - n * channels, channels as int),
                );
            }
            at = at + 1 + size_here;
        }
    }
    assert(out@ + Seq::<u8>::empty() =~= out@);
    Ok(out)
}

proof fn lemma_put_before(a: Seq<u8>, b: Seq<u8>, rest: Result<Seq<u8>, Seq<char>>)
    ensures
        put_before(a, put_before(b, rest)) == put_before(a + b, rest),
{
    if let Ok(r) = rest {
        assert(a + (b + r) =~= (a + b) + r);
    }
}

fn read_stored(data: &[u8], h: &TgaHeader) -> (r: Result<Vec<u8>, String>)
    requires
        tga_header(data@) == Ok::<TgaHeader, Seq<char>>(*h),
    ensures
        match r {
            Ok(out) => tga_stored(data@, *h) == Ok::<Seq<u8>, Seq<char>>(out@),
            Err(text) => tga_stored(data@, *h) == Err::<Seq<u8>, Seq<char>>(text@),
        },
{
    let len: usize = data.len();
    proof {
        assert(h.width * h.height <= 65535 * 65535) by (nonlinear_arith)
            requires
                h.width <= 65535,
                h.height <= 65535,
        ;
        assert(h.width * h.height * h.channels <= 65535 * 65535 * 4) by (nonlinear_arith)
            requires
                h.width * h.height <= 65535 * 65535,
                h.channels <= 4,
        ;
    }
    let count: u64 = h.width as u64 * h.height as u64;
    let size: u64 = count * h.channels as u64;
    if h.image_type == 2 || h.image_type == 3 {
        if (len as u64) < h.start as u64 + size {
            return Err("Truncated TGA pixel data".to_string());
        }
        proof {
            assert(count <= size) by (nonlinear_arith)
                requires
                    size == count * h.channels,
                    h.channels >= 1,
            ;
        }
        let mut out: Vec<u8> = Vec::new();
        append_listed(&mut out, data, h.start, count as usize, h.channels);
        assert(out@ =~= join_pixels(count as nat, listed(data@, h.start as int, h.channels as int)));
        Ok(out)
    } else if h.image_type == 10 || h.image_type == 11 {
        read_run_length(data, h.start, size, h.channels)
    } else {
        let mut text: String = "Unsupported TGA image type code: ".to_string();
        append_decimal(&mut text, h.image_type as u128);
        Err(text)
    }
}

/// Whether `data` has all pixels that it promises, or is refused.
pub fn has_all_pixels(data: &[u8]) -> (r: bool)
    ensures
        r == is_complete_tga(data@),
{
    match read_header(data) {
        Ok(h) => match read_stored(data, &h) {
            Ok(stored) => {
                proof {
                    lemma_tga_size(h);
                }
                stored.len() as u64 >= h.width as u64 * h.height as u64 * h.channels as u64
            },
            Err(_) => true,
        },
        Err(_) => true,
    }
}

pub proof fn lemma_tga_size(h: TgaHeader)
    requires
        h.width <= 65535,
        h.height <= 65535,
        h.channels <= 4,
    ensures
        0 <= h.width * h.height <= 65535 * 65535,
        0 <= tga_size(h) <= 65535 * 65535 * 4,
{
    assert(0 <= h.width * h.height <= 65535 * 65535) by (nonlinear_arith)
        requires
            h.width <= 65535,
            h.height <= 65535,
    ;
    assert(0 <= h.width * h.height * h.channels <= 65535 * 65535 * 4) by (nonlinear_arith)
        requires
            0 <= h.width * h.height <= 65535 * 65535,
            h.channels <= 4,
    ;
}

/// The place of a pixel is within the image.
proof fn lemma_stored_at(h: TgaHeader, x: int, y: int, size: int)
    requires
        0 <= x < h.width,
        0 <= y < h.height,
        tga_size(h) <= size,
        h.channels >= 1,
    ensures
        ({
            let p = y * h.width + x;
            let row = if h.is_top_down { y } else { h.height - 1 - y };
            let column = if h.is_right_to_left { h.width - 1 - x } else { x };
            &&& stored_at(h, p) == row * h.width + column
            &&& 0 <= stored_at(h, p) < h.width * h.height
            &&& 0 <= stored_at(h, p) * h.channels
            &&& stored_at(h, p) * h.channels + h.channels <= size
        }),
{
    let p = y * h.width + x;
    lemma_fundamental_div_mod_converse(p, h.width as int, y, x);
    let row = if h.is_top_down { y } else { h.height - 1 - y };
    let column = if h.is_right_to_left { h.width - 1 - x } else { x };
    let q = row * h.width + column;
    assert(0 <= q < h.width * h.height) by (nonlinear_arith)
        requires
            0 <= row < h.height,
            0 <= column < h.width,
            q == row * h.width + column,
    ;
    assert(0 <= q * h.channels && q * h.channels + h.channels <= h.width * h.height * h.channels) by (nonlinear_arith)
        requires
            0 <= q < h.width * h.height,
            h.channels >= 1,
    ;
}

/// Puts the pixels into rows from the top left.
fn turn_upright(stored: &Vec<u8>, h: &TgaHeader) -> (out: Vec<u8>)
    requires
        h.width <= 65535,
        h.height <= 65535,
        1 <= h.channels <= 4,
        tga_size(*h) <= stored@.len(),
    ensures
        out@ == join_pixels((h.width * h.height) as nat, upright(stored@, *h)),
{
    let ghost pixel = upright(stored@, *h);
    let width: usize = h.width as usize;
    let height: usize = h.height as usize;
    let channels: usize = h.channels;
    let len: usize = stored.len();
    let mut out: Vec<u8> = Vec::new();
    let mut y: usize = 0;
    assert(out@ =~= join_pixels((0 * width) as nat, pixel));
    while y < height
        invariant
            y <= height,
            width == h.width,
            height == h.height,
            channels == h.channels,
            width <= 65535,
            height <= 65535,
            1 <= channels <= 4,
            len == stored@.len(),
            tga_size(*h) <= len,
            pixel == upright(stored@, *h),
            0 <= y * width,
            out@ == join_pixels((y * width) as nat, pixel),
        decreases height - y,
    {
        let row: usize = if h.is_top_down { y } else { height - 1 - y };
        let mut x: usize = 0;
        while x < width
            invariant
                x <= width,
                y < height,
                row == (if h.is_top_down { y as int } else { height - 1 - y }),
                width == h.width,
                height == h.height,
                channels == h.channels,
                width <= 65535,
                height <= 65535,
                1 <= channels <= 4,
                len == stored@.len(),
                tga_size(*h) <= len,
                pixel == upright(stored@, *h),
                0 <= y * width,
                out@ == join_pixels((y * width + x) as nat, pixel),
            decreases width - x,
        {
            let column: usize = if h.is_right_to_left { width - 1 - x } else { x };
            proof {
                lemma_stored_at(*h, x as int, y as int, len as int);
                lemma_tga_size(*h);
                assert(row * width <= 65535 * 65535) by (nonlinear_arith)
                    requires
                        row <= 65535,
                        width <= 65535,
                ;
            }
            let from: u64 = (row as u64 * width as u64 + column as u64) * channels as u64;
            let at: usize = from as usize;
            append_bytes(&mut out, stored, at, at + channels);
            proof {
                let p = y * width + x;
                assert(pixel(p) == stored@.subrange(at as int, at + channels));
                assert(out@ =~= join_pixels((p + 1) as nat, pixel));
            }
            x = x + 1;
        }
        proof {
            assert((y + 1) * width == y * width + width) by (nonlinear_arith);
        }
        y = y + 1;
    }
    proof {
        assert(height * width == h.width * h.height) by (nonlinear_arith)
            requires
                height == h.height,
                width == h.width,
        ;
    }
    out
}

/// Decodes a Targa image. An `Err` holds the message for the user.
pub fn decode_tga(data: &[u8]) -> (r: Result<LoadedImage, String>)
    requires
        is_complete_tga(data@),
    ensures
        match r {
            Ok(image) => tga_image(data@) == Ok::<LoadedView, Seq<char>>(image@),
            Err(text) => tga_image(data@) == Err::<LoadedView, Seq<char>>(text@),
        },
{
    let h = match read_header(data) {
        Ok(h) => h,
        Err(text) => {
            return Err(text);
        },
    };
    let stored = match read_stored(data, &h) {
        Ok(stored) => stored,
        Err(text) => {
            return Err(text);
        },
    };
    proof {
        lemma_tga_size(h);
    }
    let mut pixels = turn_upright(&stored, &h);
    let ghost image = pixels@;
    proof {
        lemma_upright_len(stored@, h);
    }
    let len: usize = stored.len();
    while pixels.len() < len
        invariant
            len == stored@.len(),
            image.len() == tga_size(h),
            image.len() <= pixels@.len() <= len,
            pixels@ =~= image + Seq::new((pixels@.len() - image.len()) as nat, |i: int| 0u8),
        decreases len - pixels@.len(),
    {
        pixels.push(0);
    }
    proof {
        assert(h.width * h.channels <= 65535 * 4) by (nonlinear_arith)
            requires
                h.width <= 65535,
                h.channels <= 4,
        ;
    }
    let image = LoadedImage {
        width: h.width,
        height: h.height,
        bit_depth: 8,
        color_type: h.color_type,
        stride: h.width as usize * h.channels,
        raw_pixels: pixels,
        orig_idat_size: data.len(),
    };
    assert(image@ =~= tga_image(data@)->Ok_0);
    Ok(image)
}

pub proof fn lemma_upright_len(stored: Seq<u8>, h: TgaHeader)
    requires
        h.width <= 65535,
        h.height <= 65535,
        1 <= h.channels <= 4,
        tga_size(h) <= stored.len(),
    ensures
        join_pixels((h.width * h.height) as nat, upright(stored, h)).len() == tga_size(h),
{
    lemma_tga_size(h);
    let pixel = upright(stored, h);
    let n = (h.width * h.height) as nat;
    assert forall|p: int| 0 <= p < n implies (#[trigger] pixel(p)).len() == h.channels by {
        lemma_pixel_row(p, h.width as int, h.height as int);
        lemma_stored_at(h, p % h.width as int, p / h.width as int, stored.len() as int);
    }
    lemma_join_pixels_len(n, pixel, h.channels as nat);
}

}
