//! Images in formats other than PNG.
use crate::lossless::{is_whole, row_bytes, sample_bytes, samples};
use crate::models::{LoadedImage, LoadedView};
use crate::netpbm::{
    blanks, decode_netpbm, empty_header, header_line, header_words, is_blank, lemma_run_end, netpbm_image, no_blanks,
    no_newlines, number_or_zero, pam_header, pam_image, pnm_image, raw_image, run_end, with_line, PamHeader,
};
use crate::reduction::Raster;
use crate::tga::{
    decode_tga, has_all_pixels, is_complete_tga, lemma_upright_len, tga_header, tga_image, tga_size, tga_stored,
};
use vstd::prelude::*;
use vstd::utf8::valid_utf8;

verus! {

/// The data begin like a Netpbm file.
pub open spec fn is_netpbm(data: Seq<u8>) -> bool {
    data.len() >= 2 && data[0] == 80 && (data[1] == 53 || data[1] == 54 || data[1] == 55)
}

/// The data can be decoded, or are refused with a message.
pub open spec fn is_loadable(data: Seq<u8>) -> bool {
    is_netpbm(data) || is_complete_tga(data)
}

/// The image that a file holds: a Netpbm image if it begins like one, and a
/// Targa image otherwise.
pub open spec fn external_image(data: Seq<u8>) -> Result<LoadedView, Seq<char>> {
    if is_netpbm(data) {
        netpbm_image(data)
    } else {
        tga_image(data)
    }
}

fn begins_as_netpbm(data: &[u8]) -> (r: bool)
    ensures
        r == is_netpbm(data@),
{
    data.len() >= 2 && data[0] == 80 && (data[1] == 53 || data[1] == 54 || data[1] == 55)
}

/// Whether `load_external_image` can be asked for the image.
pub fn can_load_external_image(data: &[u8]) -> (r: bool)
    ensures
        r == is_loadable(data@),
{
    begins_as_netpbm(data) || has_all_pixels(data)
}

/// Decodes an image in a format other than PNG.
pub fn load_external_image(data: &[u8]) -> (r: Result<LoadedImage, String>)
    requires
        is_loadable(data@),
    ensures
        match r {
            Ok(image) => external_image(data@) == Ok::<LoadedView, Seq<char>>(image@),
            Err(text) => external_image(data@) == Err::<LoadedView, Seq<char>>(text@),
        },
{
    if begins_as_netpbm(data) {
        decode_netpbm(data)
    } else {
        decode_tga(data)
    }
}

/// A loaded image has all its rows, one right behind the other, in samples
/// of 8 or 16 bits.
pub open spec fn is_sound(image: LoadedView) -> bool {
    &&& is_whole(
        Raster {
            color_type: image.color_type,
            bit_depth: image.bit_depth,
            stride: image.stride,
            pixels: image.pixels,
        },
        image.width as int,
        image.height as int,
    )
    &&& image.stride == row_bytes(image.color_type, image.bit_depth, image.width as int)
}

proof fn lemma_raw_sound(
    data: Seq<u8>,
    pos: int,
    width: u32,
    height: u32,
    color_type: u8,
    depth: int,
    maxval: u32,
    message: Seq<char>,
)
    requires
        0 <= pos <= data.len(),
        color_type == 0 && depth == 1 || color_type == 4 && depth == 2 || color_type == 2 && depth == 3 || color_type
            == 6 && depth == 4,
    ensures
        raw_image(data, pos, width, height, color_type, depth, maxval, message) matches Ok(image) ==> is_sound(image)
            && image.pixels.len() == image.height * image.stride,
{
    let bytes: int = if maxval <= 255 { 1 } else { 2 };
    let stride = width * depth * bytes;
    assert(stride == width * (depth * bytes) && 0 <= height * stride) by (nonlinear_arith)
        requires
            stride == width * depth * bytes,
            bytes >= 1,
            depth >= 1,
            width >= 0,
            height >= 0,
    ;
}

proof fn lemma_pam_start(data: Seq<u8>, pos: int, h: PamHeader)
    requires
        0 <= pos <= data.len(),
    ensures
        pam_header(data, pos, h) matches Ok((_, start)) ==> 0 <= start <= data.len(),
    decreases data.len() - pos,
{
    lemma_run_end(data, pos, no_newlines());
    if let Ok((line, next)) = header_line(data, pos) {
        if line != "ENDHDR"@ {
            lemma_pam_start(data, next, with_line(h, line));
        }
    }
}

proof fn lemma_words_end(data: Seq<u8>, pos: int, n: nat)
    requires
        0 <= pos <= data.len(),
    ensures
        0 <= header_words(data, pos, n).1 <= data.len(),
    decreases data.len() - pos, n,
{
    if n > 0 && pos < data.len() {
        let from = run_end(data, pos, blanks());
        lemma_run_end(data, pos, blanks());
        lemma_run_end(data, from, no_newlines());
        lemma_run_end(data, from, no_blanks());
        if from < data.len() && data[from] == 35 {
            lemma_words_end(data, run_end(data, from, no_newlines()), n);
        } else {
            let to = run_end(data, from, no_blanks());
            if from < to && valid_utf8(data.subrange(from, to)) {
                lemma_words_end(data, to, (n - 1) as nat);
            } else {
                lemma_words_end(data, to, n);
            }
        }
    }
}

proof fn lemma_netpbm_sound(data: Seq<u8>, pos: int)
    requires
        0 <= pos <= data.len(),
    ensures
        forall|is_rgb: bool| (#[trigger] pnm_image(data, pos, is_rgb)) matches Ok(image) ==> is_sound(image)
            && image.orig_idat_size == data.len() && image.pixels.len() == image.height * image.stride,
        pam_header(data, pos, empty_header()) matches Ok((h, start)) ==> (pam_image(data, start, h) matches Ok(
            image,
        ) ==> is_sound(image) && image.orig_idat_size == data.len() && image.pixels.len() == image.height
            * image.stride),
{
    assert forall|is_rgb: bool| (#[trigger] pnm_image(data, pos, is_rgb)) matches Ok(image) implies ({
        let image = pnm_image(data, pos, is_rgb)->Ok_0;
        is_sound(image) && image.orig_idat_size == data.len() && image.pixels.len() == image.height * image.stride
    }) by {
        lemma_words_end(data, pos, 3);
        let (words, at) = header_words(data, pos, 3);
        let start = if at < data.len() && is_blank(data[at]) { at + 1 } else { at };
        lemma_raw_sound(
            data,
            start,
            number_or_zero(words[0]),
            number_or_zero(words[1]),
            if is_rgb { 2 } else { 0 },
            if is_rgb { 3 } else { 1 },
            number_or_zero(words[2]),
            "PPM/PGM pixel data truncated"@,
        );
    }
    lemma_pam_start(data, pos, empty_header());
    if let Ok((h, start)) = pam_header(data, pos, empty_header()) {
        if h.depth <= 4 && h.depth > 0 {
            let color_type: u8 = if h.depth == 1 { 0 } else if h.depth == 2 { 4 } else if h.depth == 3 { 2 } else { 6 };
            lemma_raw_sound(
                data,
                start,
                h.width,
                h.height,
                color_type,
                h.depth as int,
                h.maxval,
                "PAM pixel data truncated"@,
            );
        }
    }
}

proof fn lemma_tga_sound(data: Seq<u8>)
    requires
        is_complete_tga(data),
    ensures
        tga_image(data) matches Ok(image) ==> is_sound(image) && image.orig_idat_size == data.len(),
{
    if let Ok(h) = tga_header(data) {
        if let Ok(stored) = tga_stored(data, h) {
            lemma_upright_len(stored, h);
            let image = tga_image(data)->Ok_0;
            assert(samples(h.color_type) * sample_bytes(8) == h.channels);
            assert(h.width * h.height * h.channels == h.height * (h.width * h.channels)) by (nonlinear_arith);
            assert(image.pixels.len() >= tga_size(h));
        }
    }
}

/// Every image that is loaded from another format has all its pixels, so
/// that the reductions can be asked for it and keep it. A Netpbm image has
/// its rows and nothing more.
pub proof fn law_external_images_are_sound(data: Seq<u8>)
    requires
        is_loadable(data),
    ensures
        external_image(data) matches Ok(image) ==> is_sound(image) && image.orig_idat_size == data.len(),
        is_netpbm(data) ==> (external_image(data) matches Ok(image) ==> image.pixels.len() == image.height
            * image.stride),
{
    if is_netpbm(data) {
        lemma_run_end(data, 0, no_newlines());
        if let Ok((magic, pos)) = header_line(data, 0) {
            lemma_netpbm_sound(data, pos);
        }
    } else {
        lemma_tga_sound(data);
    }
}

}
