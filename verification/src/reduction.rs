//! Lossless reduction of bit depth, color type and palette.
use crate::lossless::{law_whole_images_are_in_range, row_bytes};
use crate::models::{CliArgs, ReductionResult};
use crate::palette::{
    index_depth, index_image, indexed_pixels, is_indexable, palette_of, plte_bytes, rows_fit, rows_packable, trns_bytes,
};
use crate::raster::{append_bytes, join_pixels, lemma_pixel_offset, pixel_offset};
use crate::text::{append_decimal, decimal, texts};
use crate::utils::{color_type_label, color_type_name};
use vstd::prelude::*;
use vstd::string::StringExecFns;

verus! {

/// An image on its way through the reductions.
pub struct Raster {
    pub color_type: u8,
    pub bit_depth: u8,
    pub stride: int,
    pub pixels: Seq<u8>,
}

/// The image as it enters the reductions. Indexed images arrive with their
/// colors looked up already, as RGBA if a row has four bytes per pixel and
/// as RGB otherwise.
pub open spec fn entry_raster(color_type: u8, bit_depth: u8, width: u32, stride: usize, pixels: Seq<u8>) -> Raster {
    if color_type == 3 {
        Raster {
            color_type: if stride == width * 4 { 6 } else { 2 },
            bit_depth: 8,
            stride: stride as int,
            pixels,
        }
    } else {
        Raster { color_type, bit_depth, stride: stride as int, pixels }
    }
}

/// The two bytes of sample `k` agree.
pub open spec fn pair_agrees(pixels: Seq<u8>, k: int) -> bool {
    pixels[2 * k] == pixels[2 * k + 1]
}

/// Every 16-bit sample repeats one byte.
pub open spec fn is_fake_16(pixels: Seq<u8>) -> bool {
    forall|k: int| 0 <= k < pixels.len() / 2 ==> #[trigger] pair_agrees(pixels, k)
}

/// The first byte of each 16-bit sample.
pub open spec fn high_bytes(pixels: Seq<u8>) -> Seq<u8> {
    Seq::new(((pixels.len() + 1) / 2) as nat, |k: int| pixels[2 * k])
}

pub open spec fn depth_reducible(r: Raster) -> bool {
    r.bit_depth == 16 && is_fake_16(r.pixels)
}

/// Bit depth reduction: 16-bit samples that repeat one byte become 8-bit.
pub open spec fn reduce_depth(r: Raster) -> Raster {
    if depth_reducible(r) {
        Raster { bit_depth: 8, stride: r.stride / 2, pixels: high_bytes(r.pixels), ..r }
    } else {
        r
    }
}

fn fake_16(pixels: &Vec<u8>) -> (r: bool)
    ensures
        r == is_fake_16(pixels@),
{
    let len: usize = pixels.len();
    let n: usize = len / 2;
    let mut k: usize = 0;
    while k < n
        invariant
            len == pixels@.len(),
            n == len / 2,
            k <= n,
            forall|j: int| 0 <= j < k ==> #[trigger] pair_agrees(pixels@, j),
        decreases n - k,
    {
        if pixels[2 * k] != pixels[2 * k + 1] {
            assert(!pair_agrees(pixels@, k as int));
            return false;
        }
        k = k + 1;
    }
    true
}

fn keep_high_bytes(pixels: &Vec<u8>) -> (out: Vec<u8>)
    ensures
        out@ == high_bytes(pixels@),
{
    let mut out: Vec<u8> = Vec::new();
    let mut i: usize = 0;
    while i < pixels.len()
        invariant
            0 <= i <= pixels@.len() + 1,
            i % 2 == 0,
            out@.len() == i / 2,
            forall|k: int| 0 <= k < out@.len() ==> out@[k] == pixels@[2 * k],
        decreases pixels@.len() + 1 - i,
    {
        out.push(pixels[i]);
        if pixels.len() - i < 2 {
            assert(out@ =~= high_bytes(pixels@));
            return out;
        }
        i = i + 2;
    }
    assert(out@ =~= high_bytes(pixels@));
    out
}

/// The bytes that an alpha sample takes, and a whole pixel, for the layouts
/// with alpha that the opacity check knows: `(0, 0)` for all others.
pub open spec fn alpha_layout(color_type: u8, bit_depth: u8) -> (int, int) {
    if bit_depth != 8 && bit_depth != 16 {
        (0, 0)
    } else if color_type == 6 {
        (bit_depth as int / 8, 4 * (bit_depth as int / 8))
    } else if color_type == 4 {
        (bit_depth as int / 8, 2 * (bit_depth as int / 8))
    } else {
        (0, 0)
    }
}

/// Pixel `p` lies within the buffer.
pub open spec fn pixel_in_range(pixels: Seq<u8>, w: int, stride: int, size: int, p: int) -> bool {
    pixel_offset(p, w, stride, size) + size <= pixels.len()
}

/// Pixel `p` lies within the buffer and is fully opaque: the bytes of its
/// alpha sample, which comes last, are all 255.
pub open spec fn opaque_at(pixels: Seq<u8>, w: int, stride: int, alpha: int, size: int, p: int) -> bool {
    let end = pixel_offset(p, w, stride, size) + size;
    &&& pixel_in_range(pixels, w, stride, size, p)
    &&& pixels[end - 1] == 0xFF
    &&& alpha == 2 ==> pixels[end - 2] == 0xFF
}

/// The first `n` pixels are fully opaque.
pub open spec fn is_opaque(pixels: Seq<u8>, w: int, stride: int, alpha: int, size: int, n: int) -> bool {
    forall|p: int| 0 <= p < n ==> #[trigger] opaque_at(pixels, w, stride, alpha, size, p)
}

/// The pixels without their alpha samples, rows closed up.
pub open spec fn strip_alpha(pixels: Seq<u8>, w: int, stride: int, alpha: int, size: int, n: nat) -> Seq<u8> {
    join_pixels(
        n,
        |p: int| pixels.subrange(
            pixel_offset(p, w, stride, size),
            pixel_offset(p, w, stride, size) + size - alpha,
        ),
    )
}

pub open spec fn alpha_reducible(r: Raster, w: u32, h: u32) -> bool {
    let (alpha, size) = alpha_layout(r.color_type, r.bit_depth);
    alpha > 0 && is_opaque(r.pixels, w as int, r.stride, alpha, size, w * h)
}

/// Color type reduction of opaque images: RGBA becomes RGB and gray with
/// alpha becomes gray.
pub open spec fn reduce_alpha(r: Raster, w: u32, h: u32) -> Raster {
    let (alpha, size) = alpha_layout(r.color_type, r.bit_depth);
    if alpha_reducible(r, w, h) {
        Raster {
            color_type: if r.color_type == 6 { 2 } else { 0 },
            pixels: strip_alpha(r.pixels, w as int, r.stride, alpha, size, (w * h) as nat),
            ..r
        }
    } else {
        r
    }
}

/// Reading the pixels in order until the first one that is not opaque never
/// leaves the buffer; and where all are opaque, rows do not overlap in what
/// is kept of them.
pub open spec fn alpha_readable(r: Raster, w: u32, h: u32) -> bool {
    let (alpha, size) = alpha_layout(r.color_type, r.bit_depth);
    alpha > 0 ==> {
        &&& forall|p: int| 0 <= p < w * h && !#[trigger] pixel_in_range(r.pixels, w as int, r.stride, size, p)
            ==> exists|q: int| 0 <= q < p && pixel_in_range(r.pixels, w as int, r.stride, size, q)
                && !#[trigger] opaque_at(r.pixels, w as int, r.stride, alpha, size, q)
        &&& is_opaque(r.pixels, w as int, r.stride, alpha, size, w * h) ==> h <= 1 || w * (size - alpha) <= r.stride
    }
}

/// Gives the pixels without alpha if all of them are opaque.
fn strip_opaque_alpha(
    pixels: &Vec<u8>,
    width: u32,
    height: u32,
    stride: usize,
    alpha: usize,
    size: usize,
) -> (out: Option<Vec<u8>>)
    requires
        alpha == 1 || alpha == 2,
        size == 2 * alpha || size == 4 * alpha,
        forall|p: int| 0 <= p < width * height
            && !#[trigger] pixel_in_range(pixels@, width as int, stride as int, size as int, p)
            ==> exists|q: int| 0 <= q < p
                && pixel_in_range(pixels@, width as int, stride as int, size as int, q)
                && !#[trigger] opaque_at(pixels@, width as int, stride as int, alpha as int, size as int, q),
    ensures
        out is Some <==> is_opaque(pixels@, width as int, stride as int, alpha as int, size as int, width * height),
        out is Some ==> out->0@ == strip_alpha(
            pixels@, width as int, stride as int, alpha as int, size as int, (width * height) as nat),
{
    let ghost w = width as int;
    let ghost st = stride as int;
    let ghost al = alpha as int;
    let ghost sz = size as int;
    let ghost pick = |p: int| pixels@.subrange(
        pixel_offset(p, w, st, sz),
        pixel_offset(p, w, st, sz) + sz - al,
    );
    let len: usize = pixels.len();
    let mut out: Vec<u8> = Vec::new();
    let mut y: u32 = 0;
    while y < height
        invariant
            y <= height,
            len == pixels@.len(),
            w == width, st == stride, al == alpha, sz == size,
            alpha == 1 || alpha == 2,
            size == 2 * alpha || size == 4 * alpha,
            forall|p: int| 0 <= p < width * height
                && !#[trigger] pixel_in_range(pixels@, w, st, sz, p)
                ==> exists|q: int| 0 <= q < p && pixel_in_range(pixels@, w, st, sz, q)
                    && !#[trigger] opaque_at(pixels@, w, st, al, sz, q),
            pick == (|p: int| pixels@.subrange(
                pixel_offset(p, w, st, sz),
                pixel_offset(p, w, st, sz) + sz - al,
            )),
            is_opaque(pixels@, w, st, al, sz, y * w),
            out@ == join_pixels((y * w) as nat, pick),
        decreases height - y,
    {
        let mut x: u32 = 0;
        while x < width
            invariant
                y < height,
                x <= width,
                len == pixels@.len(),
                w == width, st == stride, al == alpha, sz == size,
                alpha == 1 || alpha == 2,
                size == 2 * alpha || size == 4 * alpha,
                forall|p: int| 0 <= p < width * height
                    && !#[trigger] pixel_in_range(pixels@, w, st, sz, p)
                    ==> exists|q: int| 0 <= q < p && pixel_in_range(pixels@, w, st, sz, q)
                        && !#[trigger] opaque_at(pixels@, w, st, al, sz, q),
                pick == (|p: int| pixels@.subrange(
                    pixel_offset(p, w, st, sz),
                    pixel_offset(p, w, st, sz) + sz - al,
                )),
                is_opaque(pixels@, w, st, al, sz, y * w + x),
                out@ == join_pixels((y * w + x) as nat, pick),
            decreases width - x,
        {
            let ghost p = y * w + x;
            proof {
                assert(0 <= p < width * height) by (nonlinear_arith)
                    requires 0 <= x < w, w == width, 0 <= y < height, p == y * w + x;
                lemma_pixel_offset(x as int, y as int, w, st, sz);
                assert(pixel_in_range(pixels@, w, st, sz, p));
                assert(0 <= y * st) by (nonlinear_arith)
                    requires 0 <= y, 0 <= st;
                assert(0 <= x * sz) by (nonlinear_arith)
                    requires 0 <= x, 0 <= sz;
                assert(y as usize * stride == y * st);
            }
            let start: usize = y as usize * stride + x as usize * size;
            let end: usize = start + size;
            if pixels[end - 1] != 0xFF || (alpha == 2 && pixels[end - 2] != 0xFF) {
                assert(!opaque_at(pixels@, w, st, al, sz, p));
                return None;
            }
            append_bytes(&mut out, pixels, start, end - alpha);
            assert(join_pixels((p + 1) as nat, pick) == join_pixels(p as nat, pick) + pick(p));
            x = x + 1;
        }
        assert((y + 1) * w == y * w + w) by (nonlinear_arith);
        y = y + 1;
    }
    assert(height * w == width * height) by (nonlinear_arith)
        requires w == width;
    Some(out)
}

/// The bytes of one sample, and of a whole pixel, of a truecolor layout.
pub open spec fn truecolor_layout(color_type: u8, bit_depth: u8) -> (int, int) {
    let sample = bit_depth as int / 8;
    (sample, if color_type == 6 { 4 * sample } else { 3 * sample })
}

/// Red, green and blue of pixel `p` are the same. Samples of more than one
/// byte are compared by two bytes each.
pub open spec fn gray_at(pixels: Seq<u8>, sample: int, size: int, p: int) -> bool {
    let s = p * size;
    if sample == 1 {
        pixels[s] == pixels[s + 1] && pixels[s + 1] == pixels[s + 2]
    } else {
        &&& pixels[s] == pixels[s + 2] && pixels[s + 1] == pixels[s + 3]
        &&& pixels[s + 2] == pixels[s + 4] && pixels[s + 3] == pixels[s + 5]
    }
}

/// Every whole pixel is gray.
pub open spec fn is_gray(pixels: Seq<u8>, sample: int, size: int) -> bool {
    forall|p: int| 0 <= p < pixels.len() as int / size ==> #[trigger] gray_at(pixels, sample, size, p)
}

/// The red sample of pixel `p`, followed by its alpha sample if it has one.
pub open spec fn gray_pixel(pixels: Seq<u8>, sample: int, size: int, p: int) -> Seq<u8> {
    let s = p * size;
    if size == 4 * sample {
        pixels.subrange(s, s + sample) + pixels.subrange(s + 3 * sample, s + 4 * sample)
    } else {
        pixels.subrange(s, s + sample)
    }
}

/// The pixels with one gray sample in place of three equal ones.
pub open spec fn to_gray(pixels: Seq<u8>, sample: int, size: int) -> Seq<u8> {
    join_pixels((pixels.len() as int / size) as nat, |p: int| gray_pixel(pixels, sample, size, p))
}

pub open spec fn is_truecolor(color_type: u8) -> bool {
    color_type == 2 || color_type == 6
}

pub open spec fn gray_reducible(r: Raster) -> bool {
    let (sample, size) = truecolor_layout(r.color_type, r.bit_depth);
    is_truecolor(r.color_type) && is_gray(r.pixels, sample, size)
}

/// Truecolor to grayscale reduction.
pub open spec fn reduce_gray(r: Raster) -> Raster {
    let (sample, size) = truecolor_layout(r.color_type, r.bit_depth);
    if gray_reducible(r) {
        Raster {
            color_type: if r.color_type == 6 { 4 } else { 0 },
            pixels: to_gray(r.pixels, sample, size),
            ..r
        }
    } else {
        r
    }
}

/// Whole pixel `p` ends within the buffer.
proof fn lemma_whole_pixel(len: int, size: int, p: int)
    requires
        0 < size,
        0 <= p < len / size,
    ensures
        0 <= p * size,
        p * size + size <= len,
{
    assert(0 <= p * size && p * size + size <= len) by (nonlinear_arith)
        requires 0 < size, 0 <= p < len / size;
}

fn gray(pixels: &Vec<u8>, sample: usize, size: usize) -> (r: bool)
    requires
        0 < sample <= 31,
        size == 3 * sample || size == 4 * sample,
    ensures
        r == is_gray(pixels@, sample as int, size as int),
{
    let len: usize = pixels.len();
    let n: usize = len / size;
    let mut p: usize = 0;
    while p < n
        invariant
            len == pixels@.len(),
            n == len / size,
            p <= n,
            0 < sample <= 31,
            size == 3 * sample || size == 4 * sample,
            forall|q: int| 0 <= q < p ==> #[trigger] gray_at(pixels@, sample as int, size as int, q),
        decreases n - p,
    {
        proof {
            lemma_whole_pixel(len as int, size as int, p as int);
        }
        let s: usize = p * size;
        let same: bool = if sample == 1 {
            pixels[s] == pixels[s + 1] && pixels[s + 1] == pixels[s + 2]
        } else {
            pixels[s] == pixels[s + 2] && pixels[s + 1] == pixels[s + 3]
                && pixels[s + 2] == pixels[s + 4] && pixels[s + 3] == pixels[s + 5]
        };
        if !same {
            assert(!gray_at(pixels@, sample as int, size as int, p as int));
            return false;
        }
        p = p + 1;
    }
    true
}

fn keep_gray(pixels: &Vec<u8>, sample: usize, size: usize) -> (out: Vec<u8>)
    requires
        0 < sample <= 31,
        size == 3 * sample || size == 4 * sample,
    ensures
        out@ == to_gray(pixels@, sample as int, size as int),
{
    let ghost pick = |p: int| gray_pixel(pixels@, sample as int, size as int, p);
    let len: usize = pixels.len();
    let n: usize = len / size;
    let mut out: Vec<u8> = Vec::new();
    let mut p: usize = 0;
    while p < n
        invariant
            len == pixels@.len(),
            n == len / size,
            p <= n,
            0 < sample <= 31,
            size == 3 * sample || size == 4 * sample,
            pick == (|p: int| gray_pixel(pixels@, sample as int, size as int, p)),
            out@ == join_pixels(p as nat, pick),
        decreases n - p,
    {
        proof {
            lemma_whole_pixel(len as int, size as int, p as int);
        }
        let s: usize = p * size;
        let ghost before = out@;
        append_bytes(&mut out, pixels, s, s + sample);
        if size == 4 * sample {
            append_bytes(&mut out, pixels, s + 3 * sample, s + 4 * sample);
        }
        assert(out@ =~= before + pick(p as int));
        p = p + 1;
    }
    out
}

/// The outcome of all reductions.
pub struct Reduced {
    pub color_type: u8,
    pub bit_depth: u8,
    pub pixels: Seq<u8>,
    pub palette: Option<Seq<u8>>,
    pub trns: Option<Seq<u8>>,
    pub notes: Seq<Seq<char>>,
}

pub open spec fn depth_note() -> Seq<char> {
    "  (i) Reducing bit depth from 16 to 8 (fake 16-bit image detected)"@
}

/// Says from which color type to which the image went, and why.
pub open spec fn color_note(from: u8, to: u8, why: Seq<char>) -> Seq<char> {
    "  (i) Reducing color type from "@ + color_type_label(from) + " to "@ + color_type_label(to) + why
}

pub open spec fn palette_note(from: u8, bit_depth: u8, count: nat) -> Seq<char> {
    color_note(from, 3, " ("@ + decimal(bit_depth as nat) + " bit, Color count: "@ + decimal(count) + ")"@)
}

pub open spec fn opaque_why() -> Seq<char> {
    " (all pixels are 100% opaque)"@
}

pub open spec fn gray_why() -> Seq<char> {
    " (R==G==B across all pixels)"@
}

/// A list that holds `note` if `when`.
pub open spec fn note_if(when: bool, note: Seq<char>) -> Seq<Seq<char>> {
    if when { seq![note] } else { Seq::empty() }
}

/// The image after the bit depth reduction, where that is wanted.
pub open spec fn depth_stage(cli: &CliArgs, r: Raster) -> Raster {
    if cli.nb { r } else { reduce_depth(r) }
}

/// The bytes of an 8-bit truecolor pixel.
pub open spec fn rgb_size(color_type: u8) -> int {
    if color_type == 6 { 4 } else { 3 }
}

/// The image that comes out of the color type reductions can be indexed.
pub open spec fn palette_stage_applies(cli: &CliArgs, r: Raster) -> bool {
    !cli.np && r.bit_depth == 8 && is_truecolor(r.color_type)
}

/// What the reductions make of an image of `w` times `h` pixels, according
/// to the options `nx` (none at all), `nb` (no bit depth), `nc` (no color
/// type) and `np` (no palette).
pub open spec fn reduction(
    cli: &CliArgs,
    w: u32,
    h: u32,
    color_type: u8,
    bit_depth: u8,
    stride: usize,
    pixels: Seq<u8>,
) -> Reduced {
    let r0 = entry_raster(color_type, bit_depth, w, stride, pixels);
    let r1 = if cli.nx { r0 } else { depth_stage(cli, r0) };
    let notes1 = note_if(!cli.quiet && !cli.nx && !cli.nb && depth_reducible(r0), depth_note());
    if cli.nx || cli.nc {
        plain(r1, notes1)
    } else {
        let r2 = reduce_alpha(r1, w, h);
        let notes2 = notes1 + note_if(
            !cli.quiet && alpha_reducible(r1, w, h),
            color_note(r1.color_type, r2.color_type, opaque_why()),
        );
        let r3 = reduce_gray(r2);
        let notes3 = notes2 + note_if(
            !cli.quiet && gray_reducible(r2),
            color_note(r2.color_type, r3.color_type, gray_why()),
        );
        let size = rgb_size(r3.color_type);
        if palette_stage_applies(cli, r3) && is_indexable(r3.pixels, size) {
            let palette = palette_of(r3.pixels, size);
            let depth = index_depth(!cli.nb, palette.len() as int);
            Reduced {
                color_type: 3,
                bit_depth: depth,
                pixels: indexed_pixels(r3.pixels, size, w as int, h as nat, depth),
                palette: Some(plte_bytes(palette)),
                trns: if trns_bytes(palette).len() > 0 { Some(trns_bytes(palette)) } else { None },
                notes: notes3 + note_if(
                    !cli.quiet && color_type != 3,
                    palette_note(r3.color_type, depth, palette.len()),
                ),
            }
        } else {
            plain(r3, notes3)
        }
    }
}

/// An outcome without a palette.
pub open spec fn plain(r: Raster, notes: Seq<Seq<char>>) -> Reduced {
    Reduced { color_type: r.color_type, bit_depth: r.bit_depth, pixels: r.pixels, palette: None, trns: None, notes }
}

/// No reduction that the options ask for leaves the buffer: the opacity
/// check finds its pixels, truecolor samples have whole bytes, and rows
/// that are packed start within the pixels.
pub open spec fn reduction_in_range(
    cli: &CliArgs,
    w: u32,
    h: u32,
    color_type: u8,
    bit_depth: u8,
    stride: usize,
    pixels: Seq<u8>,
) -> bool {
    !cli.nx && !cli.nc ==> {
        let r1 = depth_stage(cli, entry_raster(color_type, bit_depth, w, stride, pixels));
        let r2 = reduce_alpha(r1, w, h);
        let r3 = reduce_gray(r2);
        &&& alpha_readable(r1, w, h)
        &&& is_truecolor(r2.color_type) ==> r2.bit_depth >= 8
        &&& palette_stage_applies(cli, r3) && !cli.nb ==> rows_packable(
            r3.pixels, rgb_size(r3.color_type), w as int, h as int)
    }
}

fn push_color_note(notes: &mut Vec<String>, from: u8, to: u8, why: &str)
    ensures
        texts(final(notes)@) == texts(old(notes)@).push(color_note(from, to, why@)),
{
    let mut s: String = "  (i) Reducing color type from ".to_string();
    s.append(color_type_name(from));
    s.append(" to ");
    s.append(color_type_name(to));
    s.append(why);
    notes.push(s);
    assert(texts(notes@) =~= texts(old(notes)@).push(color_note(from, to, why@)));
}

/// An image being reduced, and what has been said about it.
struct Work {
    color_type: u8,
    bit_depth: u8,
    stride: usize,
    pixels: Vec<u8>,
    notes: Vec<String>,
}

impl Work {
    spec fn raster(self) -> Raster {
        Raster {
            color_type: self.color_type,
            bit_depth: self.bit_depth,
            stride: self.stride as int,
            pixels: self.pixels@,
        }
    }

    fn depth_step(self, cli: &CliArgs) -> (out: Work)
        ensures
            out.raster() == depth_stage(cli, self.raster()),
            texts(out.notes@) == texts(self.notes@) + note_if(
                !cli.quiet && !cli.nb && depth_reducible(self.raster()),
                depth_note(),
            ),
    {
        let mut notes: Vec<String> = self.notes;
        if !cli.nb && self.bit_depth == 16 && fake_16(&self.pixels) {
            if !cli.quiet {
                notes.push("  (i) Reducing bit depth from 16 to 8 (fake 16-bit image detected)".to_string());
            }
            assert(texts(notes@) =~= texts(self.notes@) + note_if(!cli.quiet, depth_note()));
            return Work {
                color_type: self.color_type,
                bit_depth: 8,
                stride: self.stride / 2,
                pixels: keep_high_bytes(&self.pixels),
                notes,
            };
        }
        assert(texts(notes@) =~= texts(self.notes@) + note_if(false, depth_note()));
        Work {
            color_type: self.color_type,
            bit_depth: self.bit_depth,
            stride: self.stride,
            pixels: self.pixels,
            notes,
        }
    }

    fn alpha_step(self, quiet: bool, width: u32, height: u32) -> (out: Work)
        requires
            alpha_readable(self.raster(), width, height),
        ensures
            out.raster() == reduce_alpha(self.raster(), width, height),
            texts(out.notes@) == texts(self.notes@) + note_if(
                !quiet && alpha_reducible(self.raster(), width, height),
                color_note(self.color_type, out.color_type, opaque_why()),
            ),
    {
        let mut notes: Vec<String> = self.notes;
        if (self.color_type == 4 || self.color_type == 6) && (self.bit_depth == 8 || self.bit_depth == 16) {
            let alpha: usize = if self.bit_depth == 8 { 1 } else { 2 };
            let size: usize = if self.color_type == 6 { 4 * alpha } else { 2 * alpha };
            match strip_opaque_alpha(&self.pixels, width, height, self.stride, alpha, size) {
                Some(pixels) => {
                    let to: u8 = if self.color_type == 6 { 2 } else { 0 };
                    if !quiet {
                        push_color_note(&mut notes, self.color_type, to, " (all pixels are 100% opaque)");
                    }
                    assert(texts(notes@) =~= texts(self.notes@) + note_if(
                        !quiet,
                        color_note(self.color_type, to, opaque_why()),
                    ));
                    return Work {
                        color_type: to,
                        bit_depth: self.bit_depth,
                        stride: self.stride,
                        pixels,
                        notes,
                    };
                },
                None => {},
            }
        }
        assert(texts(notes@) =~= texts(self.notes@) + Seq::<Seq<char>>::empty());
        Work {
            color_type: self.color_type,
            bit_depth: self.bit_depth,
            stride: self.stride,
            pixels: self.pixels,
            notes,
        }
    }

    fn gray_step(self, quiet: bool) -> (out: Work)
        requires
            is_truecolor(self.color_type) ==> self.bit_depth >= 8,
        ensures
            out.raster() == reduce_gray(self.raster()),
            texts(out.notes@) == texts(self.notes@) + note_if(
                !quiet && gray_reducible(self.raster()),
                color_note(self.color_type, out.color_type, gray_why()),
            ),
    {
        let mut notes: Vec<String> = self.notes;
        if self.color_type == 2 || self.color_type == 6 {
            let sample: usize = (self.bit_depth / 8) as usize;
            let size: usize = if self.color_type == 6 { 4 * sample } else { 3 * sample };
            if gray(&self.pixels, sample, size) {
                let to: u8 = if self.color_type == 6 { 4 } else { 0 };
                if !quiet {
                    push_color_note(&mut notes, self.color_type, to, " (R==G==B across all pixels)");
                }
                assert(texts(notes@) =~= texts(self.notes@) + note_if(
                    !quiet,
                    color_note(self.color_type, to, gray_why()),
                ));
                return Work {
                    color_type: to,
                    bit_depth: self.bit_depth,
                    stride: self.stride,
                    pixels: keep_gray(&self.pixels, sample, size),
                    notes,
                };
            }
        }
        assert(texts(notes@) =~= texts(self.notes@) + Seq::<Seq<char>>::empty());
        Work {
            color_type: self.color_type,
            bit_depth: self.bit_depth,
            stride: self.stride,
            pixels: self.pixels,
            notes,
        }
    }
}

fn push_palette_note(notes: &mut Vec<String>, from: u8, bit_depth: u8, count: usize)
    ensures
        texts(final(notes)@) == texts(old(notes)@).push(palette_note(from, bit_depth, count as nat)),
{
    let mut why: String = " (".to_string();
    append_decimal(&mut why, bit_depth as u128);
    why.append(" bit, Color count: ");
    append_decimal(&mut why, count as u128);
    why.append(")");
    push_color_note(notes, from, 3, why.as_str());
}

/// The parts of a result are those of an outcome.
pub open spec fn is_outcome(r: ReductionResult, pixels: Seq<u8>, want: Reduced) -> bool {
    &&& pixels == want.pixels
    &&& r.out_color_type == want.color_type
    &&& r.out_bit_depth == want.bit_depth
    &&& match r.final_palette {
        Some(p) => want.palette == Some(p@),
        None => want.palette is None,
    }
    &&& match r.final_trns {
        Some(t) => want.trns == Some(t@),
        None => want.trns is None,
    }
    &&& texts(r.notes@) == want.notes
}

/// Reduces the image in `raw_pixels` as far as the options allow. Option `nb`
/// keeps the bit depth: an image that becomes indexed has one byte per index
/// then, and otherwise has its indices packed into as few bits as they take.
/// Images that were indexed before count as 8 bits deep.
#[verifier::rlimit(60)]
#[verifier::spinoff_prover]
pub fn reduce_image(
    cli: &CliArgs,
    width: u32,
    height: u32,
    color_type: u8,
    bit_depth: u8,
    stride: usize,
    raw_pixels: &mut Vec<u8>,
) -> (r: ReductionResult)
    requires
        reduction_in_range(cli, width, height, color_type, bit_depth, stride, old(raw_pixels)@),
    ensures
        is_outcome(
            r,
            final(raw_pixels)@,
            reduction(cli, width, height, color_type, bit_depth, stride, old(raw_pixels)@),
        ),
{
    let mut pixels: Vec<u8> = Vec::new();
    std::mem::swap(&mut pixels, raw_pixels);
    let ghost r0 = entry_raster(color_type, bit_depth, width, stride, pixels@);
    let mut work = Work { color_type, bit_depth, stride, pixels, notes: Vec::new() };
    if color_type == 3 {
        work.bit_depth = 8;
        work.color_type = if stride as u64 == width as u64 * 4 { 6 } else { 2 };
    }
    assert(work.raster() == r0);
    assert(texts(work.notes@) =~= Seq::empty());
    if !cli.nx {
        work = work.depth_step(cli);
        assert(texts(work.notes@) =~= note_if(
            !cli.quiet && !cli.nb && depth_reducible(r0),
            depth_note(),
        ));
    }
    if cli.nx || cli.nc {
        *raw_pixels = work.pixels;
        return ReductionResult {
            out_color_type: work.color_type,
            out_bit_depth: work.bit_depth,
            final_palette: None,
            final_trns: None,
            notes: work.notes,
        };
    }
    work = work.alpha_step(cli.quiet, width, height);
    work = work.gray_step(cli.quiet);
    let from: u8 = work.color_type;
    let mut notes: Vec<String> = work.notes;
    if !cli.np && work.bit_depth == 8 && (from == 2 || from == 6) {
        let size: usize = if from == 6 { 4 } else { 3 };
        match index_image(&work.pixels, size, width, height, !cli.nb) {
            Some(img) => {
                let ghost before = texts(notes@);
                if !cli.quiet && color_type != 3 {
                    push_palette_note(&mut notes, from, img.bit_depth, img.count);
                }
                assert(texts(notes@) =~= before + note_if(
                    !cli.quiet && color_type != 3,
                    palette_note(from, img.bit_depth, img.count as nat),
                ));
                *raw_pixels = img.pixels;
                let final_trns = if img.trns.len() > 0 { Some(img.trns) } else { None };
                return ReductionResult {
                    out_color_type: 3,
                    out_bit_depth: img.bit_depth,
                    final_palette: Some(img.palette),
                    final_trns,
                    notes,
                };
            },
            None => {},
        }
    }
    *raw_pixels = work.pixels;
    ReductionResult {
        out_color_type: from,
        out_bit_depth: work.bit_depth,
        final_palette: None,
        final_trns: None,
        notes,
    }
}

/// Whether the opacity check stays within the buffer.
fn opacity_readable(pixels: &Vec<u8>, width: u32, height: u32, stride: usize, alpha: usize, size: usize) -> (r: bool)
    requires
        alpha == 1 || alpha == 2,
        size == 2 * alpha || size == 4 * alpha,
    ensures
        r == ({
            let w = width as int;
            let st = stride as int;
            &&& forall|p: int|
                0 <= p < width * height && !#[trigger] pixel_in_range(pixels@, w, st, size as int, p) ==> exists|q: int|
                    0 <= q < p && pixel_in_range(pixels@, w, st, size as int, q) && !#[trigger] opaque_at(
                        pixels@,
                        w,
                        st,
                        alpha as int,
                        size as int,
                        q,
                    )
            &&& is_opaque(pixels@, w, st, alpha as int, size as int, width * height) ==> height <= 1 || width * (size
                - alpha) <= stride
        }),
{
    let ghost w = width as int;
    let ghost st = stride as int;
    let ghost al = alpha as int;
    let ghost sz = size as int;
    let len: usize = pixels.len();
    let mut y: u32 = 0;
    while y < height
        invariant
            y <= height,
            len == pixels@.len(),
            w == width,
            st == stride,
            al == alpha,
            sz == size,
            alpha == 1 || alpha == 2,
            size == 2 * alpha || size == 4 * alpha,
            is_opaque(pixels@, w, st, al, sz, y * w),
        decreases height - y,
    {
        let mut x: u32 = 0;
        while x < width
            invariant
                y < height,
                x <= width,
                len == pixels@.len(),
                w == width,
                st == stride,
                al == alpha,
                sz == size,
                alpha == 1 || alpha == 2,
                size == 2 * alpha || size == 4 * alpha,
                is_opaque(pixels@, w, st, al, sz, y * w + x),
            decreases width - x,
        {
            let ghost p = y * w + x;
            proof {
                assert(0 <= p < width * height) by (nonlinear_arith)
                    requires
                        0 <= x < w,
                        w == width,
                        0 <= y < height,
                        p == y * w + x,
                ;
                lemma_pixel_offset(x as int, y as int, w, st, sz);
                assert(0 <= y * st <= u32::MAX * usize::MAX) by (nonlinear_arith)
                    requires
                        0 <= y <= u32::MAX,
                        0 <= st <= usize::MAX,
                ;
                assert(0 <= x * sz <= u32::MAX * 8) by (nonlinear_arith)
                    requires
                        0 <= x <= u32::MAX,
                        0 <= sz <= 8,
                ;
            }
            let end: u128 = y as u128 * stride as u128 + x as u128 * size as u128 + size as u128;
            if end > len as u128 {
                proof {
                    assert(!pixel_in_range(pixels@, w, st, sz, p));
                    assert forall|q: int| 0 <= q < p implies #[trigger] opaque_at(pixels@, w, st, al, sz, q) by {}
                }
                return false;
            }
            let end: usize = end as usize;
            if pixels[end - 1] != 0xFF || (alpha == 2 && pixels[end - 2] != 0xFF) {
                proof {
                    assert(pixel_in_range(pixels@, w, st, sz, p));
                    assert(!opaque_at(pixels@, w, st, al, sz, p));
                    assert forall|k: int|
                        0 <= k < width * height && !#[trigger] pixel_in_range(pixels@, w, st, sz, k) implies exists|
                        q: int,
                    |
                        0 <= q < k && pixel_in_range(pixels@, w, st, sz, q) && !#[trigger] opaque_at(
                            pixels@,
                            w,
                            st,
                            al,
                            sz,
                            q,
                        ) by {
                        if k < p {
                            assert(opaque_at(pixels@, w, st, al, sz, k));
                        }
                        assert(p < k);
                    }
                }
                return true;
            }
            x = x + 1;
        }
        assert((y + 1) * w == y * w + w) by (nonlinear_arith);
        y = y + 1;
    }
    proof {
        assert(height * w == width * height) by (nonlinear_arith)
            requires
                w == width,
        ;
        assert forall|p: int| 0 <= p < width * height implies #[trigger] pixel_in_range(pixels@, w, st, sz, p) by {
            assert(opaque_at(pixels@, w, st, al, sz, p));
        }
        assert(0 <= width * (size - alpha) <= u32::MAX * 8) by (nonlinear_arith)
            requires
                0 <= width <= u32::MAX,
                0 <= size - alpha <= 8,
        ;
    }
    height <= 1 || width as u128 * (size - alpha) as u128 <= stride as u128
}

/// Whether the image has all its rows, one right behind the other, in
/// samples of 8 or 16 bits.
fn has_all_rows(width: u32, height: u32, color_type: u8, bit_depth: u8, stride: usize, len: usize) -> (r: bool)
    ensures
        r == ({
            &&& color_type == 0 || color_type == 2 || color_type == 4 || color_type == 6
            &&& bit_depth == 8 || bit_depth == 16
            &&& stride == row_bytes(color_type, bit_depth, width as int)
            &&& height * row_bytes(color_type, bit_depth, width as int) <= len
        }),
{
    if !(color_type == 0 || color_type == 2 || color_type == 4 || color_type == 6) || !(bit_depth == 8 || bit_depth
        == 16) {
        return false;
    }
    let samples: u64 = match color_type {
        6 => 4,
        2 => 3,
        4 => 2,
        _ => 1,
    };
    let size: u64 = if bit_depth == 16 { 2 * samples } else { samples };
    proof {
        assert(0 <= width * size <= u32::MAX * 8) by (nonlinear_arith)
            requires
                0 <= width <= u32::MAX,
                0 <= size <= 8,
        ;
        assert(0 <= height * (width * size) <= u32::MAX * (u32::MAX * 8)) by (nonlinear_arith)
            requires
                0 <= height <= u32::MAX,
                0 <= width * size <= u32::MAX * 8,
        ;
    }
    let row: u64 = width as u64 * size;
    stride as u64 == row && height as u128 * row as u128 <= len as u128
}

/// Whether `reduce_image` can be asked for the image.
#[verifier::rlimit(60)]
#[verifier::spinoff_prover]
pub fn can_reduce(
    cli: &CliArgs,
    width: u32,
    height: u32,
    color_type: u8,
    bit_depth: u8,
    stride: usize,
    raw_pixels: &Vec<u8>,
) -> (r: bool)
    ensures
        r == reduction_in_range(cli, width, height, color_type, bit_depth, stride, raw_pixels@),
{
    if cli.nx || cli.nc {
        return true;
    }
    let ghost r0 = entry_raster(color_type, bit_depth, width, stride, raw_pixels@);
    let mut ct: u8 = color_type;
    let mut bd: u8 = bit_depth;
    if color_type == 3 {
        bd = 8;
        ct = if stride as u64 == width as u64 * 4 { 6 } else { 2 };
    }
    let len: usize = raw_pixels.len();
    if has_all_rows(width, height, ct, bd, stride, len) {
        proof {
            law_whole_images_are_in_range(cli, width, height, color_type, bit_depth, stride, raw_pixels@);
        }
        return true;
    }
    let mut pixels: Vec<u8> = Vec::new();
    append_bytes(&mut pixels, raw_pixels, 0, len);
    assert(pixels@ =~= raw_pixels@);
    let mut work = Work { color_type: ct, bit_depth: bd, stride, pixels, notes: Vec::new() };
    assert(work.raster() == r0);
    work = work.depth_step(cli);
    if (work.color_type == 4 || work.color_type == 6) && (work.bit_depth == 8 || work.bit_depth == 16) {
        let alpha: usize = if work.bit_depth == 8 { 1 } else { 2 };
        let size: usize = if work.color_type == 6 { 4 * alpha } else { 2 * alpha };
        if !opacity_readable(&work.pixels, width, height, work.stride, alpha, size) {
            return false;
        }
    }
    assert(alpha_readable(work.raster(), width, height));
    work = work.alpha_step(true, width, height);
    if (work.color_type == 2 || work.color_type == 6) && work.bit_depth < 8 {
        return false;
    }
    work = work.gray_step(true);
    if !cli.np && !cli.nb && work.bit_depth == 8 && (work.color_type == 2 || work.color_type == 6) {
        let size: usize = if work.color_type == 6 { 4 } else { 3 };
        rows_fit(&work.pixels, size, width, height)
    } else {
        true
    }
}

}
