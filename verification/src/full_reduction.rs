//! Every reduction that is possible is made: what becomes of an image depends
//! on its colors alone.
use crate::lossless::{
    color_of, deep, index_at, is_exact, leading, lemma_alpha_exact, lemma_alpha_keeps, lemma_depth_exact,
    lemma_depth_keeps, lemma_depth_stride, lemma_gray_exact, lemma_gray_keeps, lemma_leading, lemma_pack_rows,
    lemma_palette_color, lemma_tight, lemma_trim_opaque, lemma_within, palette_color, pixel_color, row_bytes, size_of,
    DeepColor,
};
use crate::models::CliArgs;
use crate::palette::{
    by_alpha, colors, distinct, filled, has_alpha, index_row, is_indexable, lemma_distinct, lemma_index_range,
    lemma_packed_value, lemma_palette, lemma_place_value, lemma_sorted_by_alpha, levels, pack_row, pack_rows,
    packed_value, palette_indices, palette_of, per_byte, place_value, plte_bytes, trim_opaque, trns_bytes, Rgba,
};
use crate::raster::{
    join_pixels, lemma_join_pixels_at, lemma_join_pixels_len, lemma_pixel_offset, lemma_pixel_row, pixel_offset,
};
use crate::reduction::{
    alpha_layout, alpha_reducible, depth_stage, entry_raster, gray_at, gray_reducible, is_gray, is_truecolor, opaque_at,
    pair_agrees, reduce_alpha, reduce_gray, reduction, rgb_size, strip_alpha, truecolor_layout, Raster,
};
use crate::text::decimal;
use vstd::arithmetic::div_mod::lemma_fundamental_div_mod_converse;
use vstd::prelude::*;

verus! {

/// The samples of a pixel: one of gray or three of color, and one of alpha.
pub open spec fn samples_in(color_type: u8) -> int {
    match color_type {
        0 => 1,
        2 => 3,
        4 => 2,
        _ => 4,
    }
}

/// The buffer holds an image of `w` times `h` pixels with samples of 8 or 16
/// bits, and nothing else. Indexed images have their colors looked up, in
/// three or four bytes per pixel.
pub open spec fn is_image(w: u32, h: u32, color_type: u8, bit_depth: u8, stride: usize, pixels: Seq<u8>) -> bool {
    &&& pixels.len() == h * stride
    &&& if color_type == 3 {
        stride == 3 * w || stride == 4 * w
    } else {
        &&& color_type == 0 || color_type == 2 || color_type == 4 || color_type == 6
        &&& bit_depth == 8 && stride == w * samples_in(color_type) || bit_depth == 16 && stride == 2 * w * samples_in(
            color_type,
        )
    }
}

/// The colors of an image, row by row.
pub open spec fn colors_in(w: u32, h: u32, color_type: u8, bit_depth: u8, stride: usize, pixels: Seq<u8>) -> Seq<
    DeepColor,
> {
    let ct = if color_type != 3 {
        color_type
    } else if stride == 4 * w {
        6
    } else {
        2
    };
    let bd = if color_type != 3 { bit_depth } else { 8 };
    Seq::new(
        (w * h) as nat,
        |p: int| pixel_color(ct, bd, None, None, pixels, stride as int, p % (w as int), p / (w as int)),
    )
}

/// All colors are shades of gray.
pub open spec fn all_gray(s: Seq<DeepColor>) -> bool {
    forall|p: int| 0 <= p < s.len() ==> (#[trigger] s[p]).r == s[p].g && s[p].g == s[p].b
}

/// No color lets anything through.
pub open spec fn all_opaque(s: Seq<DeepColor>) -> bool {
    forall|p: int| 0 <= p < s.len() ==> (#[trigger] s[p]).a == 65535
}

/// Each two bytes are the same.
pub open spec fn all_twice(pixels: Seq<u8>) -> bool {
    forall|k: int| #![trigger pixels[2 * k]] 0 <= 2 * k < pixels.len() - 1 ==> pixels[2 * k] == pixels[2 * k + 1]
}

proof fn lemma_entry(w: u32, h: u32, color_type: u8, bit_depth: u8, stride: usize, pixels: Seq<u8>)
    requires
        is_image(w, h, color_type, bit_depth, stride, pixels),
    ensures
        ({
            let r = entry_raster(color_type, bit_depth, w, stride, pixels);
            let s = colors_in(w, h, color_type, bit_depth, stride, pixels);
            &&& is_exact(r, w as int, h as int)
            &&& r.stride == w * size_of(r)
            &&& forall|p: int| 0 <= p < w * h ==> #[trigger] s[p] == color_of(r, p)
        }),
{
    let r = entry_raster(color_type, bit_depth, w, stride, pixels);
    let s = colors_in(w, h, color_type, bit_depth, stride, pixels);
    let n = size_of(r);
    assert(stride == w * n) by (nonlinear_arith)
        requires
            stride == w * 1 && n == 1 || stride == w * 2 && n == 2 || stride == w * 3 && n == 3 || stride == w * 4 && n
                == 4 || stride == 2 * w * 1 && n == 2 || stride == 2 * w * 2 && n == 4 || stride == 2 * w * 3 && n == 6
                || stride == 2 * w * 4 && n == 8,
    ;
    assert forall|p: int| 0 <= p < w * h implies #[trigger] s[p] == color_of(r, p) by {
        lemma_pixel_row(p, w as int, h as int);
        lemma_tight(r, w as int, p % (w as int), p / (w as int));
    }
}

/// The first `n` pixels are opaque.
spec fn is_clear(r: Raster, n: int) -> bool {
    forall|p: int| 0 <= p < n ==> (#[trigger] color_of(r, p)).a == 65535
}

/// The first `n` pixels are gray.
spec fn is_colorless(r: Raster, n: int) -> bool {
    forall|p: int|
        0 <= p < n ==> (#[trigger] color_of(r, p)).r == color_of(r, p).g && color_of(r, p).g == color_of(r, p).b
}

proof fn lemma_same_kind(r: Raster, s: Seq<DeepColor>)
    requires
        forall|p: int| 0 <= p < s.len() ==> #[trigger] s[p] == color_of(r, p),
    ensures
        all_opaque(s) <==> is_clear(r, s.len() as int),
        all_gray(s) <==> is_colorless(r, s.len() as int),
        r.color_type == 0 || r.color_type == 2 ==> all_opaque(s),
        r.color_type == 0 || r.color_type == 4 ==> all_gray(s),
{
    if is_clear(r, s.len() as int) {
        assert forall|p: int| 0 <= p < s.len() implies (#[trigger] s[p]).a == 65535 by {
            assert(color_of(r, p).a == 65535);
        }
    }
    if all_opaque(s) {
        assert forall|p: int| 0 <= p < s.len() implies (#[trigger] color_of(r, p)).a == 65535 by {
            assert(s[p].a == 65535);
        }
    }
    if is_colorless(r, s.len() as int) {
        assert forall|p: int| 0 <= p < s.len() implies (#[trigger] s[p]).r == s[p].g && s[p].g == s[p].b by {
            assert(color_of(r, p).r == color_of(r, p).g);
        }
    }
    if all_gray(s) {
        assert forall|p: int| 0 <= p < s.len() implies (#[trigger] color_of(r, p)).r == color_of(r, p).g && color_of(
            r,
            p,
        ).g == color_of(r, p).b by {
            assert(s[p].r == s[p].g);
        }
    }
}

/// An image with a pixel has a color.
proof fn lemma_some(s: Seq<DeepColor>)
    requires
        s.len() > 0,
    ensures
        s.to_set().len() > 0,
{
    broadcast use vstd::seq_lib::seq_to_set_is_finite;

    assert(s.to_set().contains(s[0]));
    if s.to_set().len() == 0 {
        s.to_set().lemma_len0_is_empty();
    }
}

/// The image after the depth step, in terms of the colors that came in.
proof fn lemma_depth(cli: &CliArgs, r0: Raster, w: u32, h: u32)
    requires
        !cli.nx,
        is_exact(r0, w as int, h as int),
        r0.stride == w * size_of(r0),
    ensures
        ({
            let r1 = depth_stage(cli, r0);
            &&& is_exact(r1, w as int, h as int)
            &&& r1.stride == w * size_of(r1)
            &&& r1.color_type == r0.color_type
            &&& r1.bit_depth == 16 <==> r0.bit_depth == 16 && (cli.nb || !all_twice(r0.pixels))
            &&& forall|p: int| 0 <= p < w * h ==> #[trigger] color_of(r1, p) == color_of(r0, p)
        }),
{
    lemma_depth_exact(r0, w as int, h as int);
    lemma_depth_keeps(r0, w as int, h as int);
    lemma_depth_stride(r0, w as int);
    let pixels = r0.pixels;
    if r0.bit_depth == 16 {
        if all_twice(pixels) {
            assert forall|k: int| 0 <= k < pixels.len() / 2 implies #[trigger] pair_agrees(pixels, k) by {
                assert(pixels[2 * k] == pixels[2 * k + 1]);
            }
        }
        if forall|k: int| 0 <= k < pixels.len() / 2 ==> #[trigger] pair_agrees(pixels, k) {
            assert forall|k: int| #![trigger pixels[2 * k]] 0 <= 2 * k < pixels.len() - 1 implies pixels[2 * k]
                == pixels[2 * k + 1] by {
                assert(pair_agrees(pixels, k));
            }
        }
    }
}

/// The image after the alpha step, in terms of the colors that came in.
proof fn lemma_alpha(r1: Raster, w: u32, h: u32)
    requires
        is_exact(r1, w as int, h as int),
        r1.stride == w * size_of(r1),
    ensures
        ({
            let r2 = reduce_alpha(r1, w, h);
            let clear = is_clear(r1, w * h);
            &&& is_exact(r2, w as int, h as int)
            &&& r2.bit_depth == r1.bit_depth
            &&& r2.color_type == (if !clear {
                r1.color_type
            } else if r1.color_type == 6 {
                2
            } else if r1.color_type == 4 {
                0
            } else {
                r1.color_type
            })
            &&& forall|p: int| 0 <= p < w * h ==> #[trigger] color_of(r2, p) == color_of(r1, p)
            &&& alpha_reducible(r1, w, h) <==> clear && (r1.color_type == 4 || r1.color_type == 6)
        }),
{
    lemma_alpha_exact(r1, w, h);
    lemma_alpha_keeps(r1, w, h);
    let (alpha, size) = alpha_layout(r1.color_type, r1.bit_depth);
    if alpha > 0 {
        assert(size == size_of(r1));
        assert forall|p: int| 0 <= p < w * h implies (#[trigger] opaque_at(
            r1.pixels,
            w as int,
            r1.stride,
            alpha,
            size,
            p,
        ) <==> color_of(r1, p).a == 65535) by {
            lemma_pixel_row(p, w as int, h as int);
            let (x, y) = (p % (w as int), p / (w as int));
            lemma_pixel_offset(x, y, w as int, r1.stride, size);
            assert(y * (w * size) + x * size == (y * w + x) * size) by (nonlinear_arith);
            lemma_within(r1, w as int, h as int, p);
        }
        if is_clear(r1, w * h) {
            assert forall|p: int| 0 <= p < w * h implies #[trigger] opaque_at(
                r1.pixels,
                w as int,
                r1.stride,
                alpha,
                size,
                p,
            ) by {
                assert(color_of(r1, p).a == 65535);
            }
        }
        if alpha_reducible(r1, w, h) {
            assert forall|p: int| 0 <= p < w * h implies (#[trigger] color_of(r1, p)).a == 65535 by {
                assert(opaque_at(r1.pixels, w as int, r1.stride, alpha, size, p));
            }
        }
    }
}

/// The image after the gray step, in terms of the colors that came in.
proof fn lemma_gray(r2: Raster, w: u32, h: u32)
    requires
        is_exact(r2, w as int, h as int),
    ensures
        ({
            let r3 = reduce_gray(r2);
            let gray = is_colorless(r2, w * h);
            &&& is_exact(r3, w as int, h as int)
            &&& r3.bit_depth == r2.bit_depth
            &&& r3.color_type == (if !gray {
                r2.color_type
            } else if r2.color_type == 6 {
                4
            } else if r2.color_type == 2 {
                0
            } else {
                r2.color_type
            })
            &&& forall|p: int| 0 <= p < w * h ==> #[trigger] color_of(r3, p) == color_of(r2, p)
            &&& gray_reducible(r2) <==> gray && (r2.color_type == 2 || r2.color_type == 6)
        }),
{
    lemma_gray_exact(r2, w as int, h as int);
    lemma_gray_keeps(r2, w as int, h as int);
    if is_truecolor(r2.color_type) {
        let (sample, size) = truecolor_layout(r2.color_type, r2.bit_depth);
        assert(size == size_of(r2));
        let n = r2.pixels.len() as int / size;
        assert(n == w * h) by (nonlinear_arith)
            requires
                h * (w * size) == r2.pixels.len(),
                size > 0,
                n == r2.pixels.len() as int / size,
        ;
        assert forall|p: int| 0 <= p < n implies (#[trigger] gray_at(r2.pixels, sample, size, p) <==> color_of(r2, p).r
            == color_of(r2, p).g && color_of(r2, p).g == color_of(r2, p).b) by {
            lemma_within(r2, w as int, h as int, p);
        }
        if is_colorless(r2, w * h) {
            assert forall|p: int| 0 <= p < n implies #[trigger] gray_at(r2.pixels, sample, size, p) by {
                assert(color_of(r2, p).r == color_of(r2, p).g);
            }
        }
        if is_gray(r2.pixels, sample, size) {
            assert forall|p: int| 0 <= p < w * h implies (#[trigger] color_of(r2, p)).r == color_of(r2, p).g
                && color_of(r2, p).g == color_of(r2, p).b by {
                assert(gray_at(r2.pixels, sample, size, p));
            }
        }
    }
}

pub open spec fn deep_colors(s: Seq<Rgba>) -> Seq<DeepColor> {
    s.map_values(|c: Rgba| deep(c))
}

/// The palette has as many colors as the image, and the same ones.
proof fn lemma_colors(r: Raster, w: u32, h: u32, s: Seq<DeepColor>)
    requires
        is_exact(r, w as int, h as int),
        r.bit_depth == 8,
        is_truecolor(r.color_type),
        s.len() == w * h,
        forall|p: int| 0 <= p < w * h ==> #[trigger] s[p] == color_of(r, p),
    ensures
        ({
            let size = rgb_size(r.color_type);
            let d = distinct(colors(r.pixels, size));
            let palette = palette_of(r.pixels, size);
            &&& deep_colors(colors(r.pixels, size)) == s
            &&& d.len() == s.to_set().len()
            &&& palette.len() == d.len()
            &&& deep_colors(palette).to_set() == s.to_set()
            &&& palette.no_duplicates()
        }),
{
    let size = rgb_size(r.color_type);
    let all = colors(r.pixels, size);
    let d = distinct(all);
    let palette = palette_of(r.pixels, size);
    assert(size == size_of(r));
    assert(all.len() == w * h) by (nonlinear_arith)
        requires
            h * (w * size) == r.pixels.len(),
            size > 0,
            all.len() == r.pixels.len() as int / size,
    ;
    assert forall|p: int| 0 <= p < w * h implies deep(#[trigger] all[p]) == s[p] by {
        lemma_within(r, w as int, h as int, p);
    }
    assert(deep_colors(all) =~= s);
    lemma_distinct(all);
    lemma_sorted_by_alpha(d);
    lemma_deep_set(d, all);
    lemma_deep_set(palette, all);
}

/// Colors without repetitions are as many as there are different ones.
proof fn lemma_deep_set(d: Seq<Rgba>, all: Seq<Rgba>)
    requires
        d.no_duplicates(),
        forall|c: Rgba| #![trigger d.contains(c)] #![trigger all.contains(c)] d.contains(c) <==> all.contains(c),
    ensures
        deep_colors(d).to_set() == deep_colors(all).to_set(),
        deep_colors(d).to_set().len() == d.len(),
{
    let a = deep_colors(d);
    let b = deep_colors(all);
    assert(a.no_duplicates()) by {
        assert forall|i: int, j: int| 0 <= i < a.len() && 0 <= j < a.len() && i != j implies a[i] != a[j] by {
            assert(d[i] != d[j]);
        }
    }
    a.unique_seq_to_set();
    assert forall|c: DeepColor| a.to_set().contains(c) <==> b.to_set().contains(c) by {
        if a.contains(c) {
            let i = choose|i: int| 0 <= i < a.len() && a[i] == c;
            assert(d.contains(d[i]));
            let j = choose|j: int| 0 <= j < all.len() && all[j] == d[i];
            assert(b[j] == c);
        }
        if b.contains(c) {
            let j = choose|j: int| 0 <= j < b.len() && b[j] == c;
            assert(all.contains(all[j]));
            let i = choose|i: int| 0 <= i < d.len() && d[i] == all[j];
            assert(a[i] == c);
        }
    }
    assert(a.to_set() =~= b.to_set());
}

/// The colors of a palette, as its PLTE and tRNS bytes give them.
pub open spec fn palette_colors(palette: Seq<u8>, trns: Option<Seq<u8>>) -> Seq<DeepColor> {
    Seq::new((palette.len() / 3) as nat, |i: int| palette_color(palette, trns, i))
}

/// The bytes of a palette give its colors.
proof fn lemma_palette_bytes(palette: Seq<Rgba>, s: Seq<DeepColor>)
    requires
        deep_colors(palette).to_set() == s.to_set(),
    ensures
        ({
            let trns = if trns_bytes(palette).len() > 0 { Some(trns_bytes(palette)) } else { None };
            &&& plte_bytes(palette).len() == 3 * palette.len()
            &&& palette_colors(plte_bytes(palette), trns) == deep_colors(palette)
            &&& trns_bytes(palette).len() > 0 <==> !all_opaque(s)
        }),
{
    let trns = if trns_bytes(palette).len() > 0 { Some(trns_bytes(palette)) } else { None };
    let pick = |i: int| seq![palette[i].r, palette[i].g, palette[i].b];
    lemma_join_pixels_len(palette.len(), pick, 3);
    assert forall|i: int| 0 <= i < palette.len() implies #[trigger] palette_color(plte_bytes(palette), trns, i) == deep(
        palette[i],
    ) by {
        lemma_palette_color(palette, trns, i);
    }
    assert(palette_colors(plte_bytes(palette), trns) =~= deep_colors(palette));
    let alphas = palette.map_values(|c: Rgba| c.a);
    lemma_trim_opaque(alphas);
    lemma_trimmed(alphas);
    let d = deep_colors(palette);
    if trns_bytes(palette).len() > 0 {
        let k = trns_bytes(palette).len() - 1;
        assert(alphas[k] != 255);
        assert(d.to_set().contains(d[k]));
        let p = choose|p: int| 0 <= p < s.len() && s[p] == d[k];
        assert(s.to_set().contains(d[k]));
        assert(s[p].a != 65535);
    } else {
        assert forall|p: int| 0 <= p < s.len() implies (#[trigger] s[p]).a == 65535 by {
            assert(s.to_set().contains(s[p]));
            assert(d.to_set().contains(s[p]));
            let k = choose|k: int| 0 <= k < d.len() && d[k] == s[p];
            assert(alphas[k] == 255);
        }
    }
}

/// What trimming leaves does not end with 255.
proof fn lemma_trimmed(s: Seq<u8>)
    ensures
        trim_opaque(s).len() > 0 ==> trim_opaque(s).last() != 255,
    decreases s.len(),
{
    if s.len() > 0 && s.last() == 255 {
        lemma_trimmed(s.drop_last());
    }
}

/// What becomes of an image, by its colors. Where nothing is switched off:
/// samples of 16 bits become 8-bit if each repeats one byte, and only then;
/// alpha is dropped if all colors are opaque, and only then; one sample takes
/// the place of three if all colors are gray, and only then; and what is left
/// of an image in color with 8-bit samples and at most 256 different colors
/// becomes indexed, with as few bits per index as this number of colors
/// takes, and with exactly these colors in its palette.
#[verifier::rlimit(60)]
#[verifier::spinoff_prover]
pub proof fn law_possible_reductions_are_made(
    cli: &CliArgs,
    w: u32,
    h: u32,
    color_type: u8,
    bit_depth: u8,
    stride: usize,
    pixels: Seq<u8>,
)
    requires
        is_image(w, h, color_type, bit_depth, stride, pixels),
        !cli.nx,
        !cli.nc,
    ensures
        ({
            let s = colors_in(w, h, color_type, bit_depth, stride, pixels);
            let out = reduction(cli, w, h, color_type, bit_depth, stride, pixels);
            let count = s.to_set().len();
            let has_alpha = color_type == 4 || color_type == 6 || color_type == 3 && stride == 4 * w;
            let is_deep = color_type != 3 && bit_depth == 16 && (cli.nb || !all_twice(pixels));
            let is_few = !cli.np && !is_deep && !all_gray(s) && count <= 256;
            &&& out.bit_depth == 16 <==> is_deep
            &&& out.color_type == 3 <==> is_few
            &&& !is_few ==> out.palette is None && out.trns is None && (out.bit_depth == 8 || out.bit_depth == 16)
            &&& !is_few ==> out.color_type == (match (all_gray(s), has_alpha && !all_opaque(s)) {
                (true, false) => 0u8,
                (true, true) => 4,
                (false, false) => 2,
                (false, true) => 6,
            })
            &&& is_few ==> {
                &&& out.bit_depth == (if cli.nb || count > 16 {
                    8u8
                } else if count > 4 {
                    4
                } else if count > 2 {
                    2
                } else {
                    1
                })
                &&& out.palette is Some
                &&& out.palette->0.len() == 3 * count
                &&& palette_colors(out.palette->0, out.trns).to_set() == s.to_set()
                &&& out.trns is Some <==> !all_opaque(s)
            }
        }),
{
    let s = colors_in(w, h, color_type, bit_depth, stride, pixels);
    let r0 = entry_raster(color_type, bit_depth, w, stride, pixels);
    lemma_entry(w, h, color_type, bit_depth, stride, pixels);
    lemma_depth(cli, r0, w, h);
    let r1 = depth_stage(cli, r0);
    lemma_alpha(r1, w, h);
    let r2 = reduce_alpha(r1, w, h);
    lemma_gray(r2, w, h);
    let r3 = reduce_gray(r2);
    assert forall|p: int| 0 <= p < w * h implies #[trigger] s[p] == color_of(r3, p) by {
        assert(color_of(r3, p) == color_of(r2, p));
        assert(color_of(r2, p) == color_of(r1, p));
        assert(color_of(r1, p) == color_of(r0, p));
    }
    lemma_same_kind(r0, s);
    lemma_same_kind(r1, s);
    lemma_same_kind(r2, s);
    if r3.bit_depth == 8 && is_truecolor(r3.color_type) {
        lemma_colors(r3, w, h, s);
        let size = rgb_size(r3.color_type);
        if is_indexable(r3.pixels, size) {
            lemma_palette_bytes(palette_of(r3.pixels, size), s);
        }
        if !all_gray(s) {
            lemma_some(s);
        }
    }
}

/// Where color types are to stay, 16-bit samples that repeat one byte become
/// 8-bit all the same, and only they do; and that is all that is done.
pub proof fn law_depth_is_reduced_without_colors(
    cli: &CliArgs,
    w: u32,
    h: u32,
    color_type: u8,
    bit_depth: u8,
    stride: usize,
    pixels: Seq<u8>,
)
    requires
        is_image(w, h, color_type, bit_depth, stride, pixels),
        cli.nc,
    ensures
        ({
            let out = reduction(cli, w, h, color_type, bit_depth, stride, pixels);
            let halved = color_type != 3 && bit_depth == 16 && !cli.nx && !cli.nb && all_twice(pixels);
            &&& out.color_type == (if color_type != 3 {
                color_type
            } else if stride == 4 * w {
                6
            } else {
                2
            })
            &&& out.bit_depth == (if halved || color_type == 3 { 8 } else { bit_depth })
            &&& out.palette is None && out.trns is None
            &&& !halved ==> out.pixels == pixels
            &&& halved ==> pixels.len() == 2 * out.pixels.len() && forall|k: int|
                0 <= k < out.pixels.len() ==> #[trigger] out.pixels[k] == pixels[2 * k]
        }),
{
    let r0 = entry_raster(color_type, bit_depth, w, stride, pixels);
    lemma_entry(w, h, color_type, bit_depth, stride, pixels);
    if !cli.nx {
        lemma_depth(cli, r0, w, h);
        if bit_depth == 16 && color_type != 3 {
            let n = w * samples_in(color_type);
            assert(h * stride == 2 * (h * n)) by (nonlinear_arith)
                requires
                    stride == 2 * n,
            ;
        }
    }
}

/// The order of a palette: by alpha, the lowest first; and among equal alphas
/// the color that the image shows first, reading row by row. The bytes for
/// alpha end with the last color that is not opaque.
#[verifier::rlimit(60)]
#[verifier::spinoff_prover]
pub proof fn law_order_of_the_palette(
    cli: &CliArgs,
    w: u32,
    h: u32,
    color_type: u8,
    bit_depth: u8,
    stride: usize,
    pixels: Seq<u8>,
    i: int,
    j: int,
)
    requires
        is_image(w, h, color_type, bit_depth, stride, pixels),
        reduction(cli, w, h, color_type, bit_depth, stride, pixels).color_type == 3,
        0 <= i < j < reduction(cli, w, h, color_type, bit_depth, stride, pixels).palette->0.len() / 3,
    ensures
        ({
            let s = colors_in(w, h, color_type, bit_depth, stride, pixels);
            let out = reduction(cli, w, h, color_type, bit_depth, stride, pixels);
            let a = palette_color(out.palette->0, out.trns, i);
            let b = palette_color(out.palette->0, out.trns, j);
            &&& a != b
            &&& a.a <= b.a
            &&& a.a == b.a ==> exists|p: int|
                0 <= p < s.len() && #[trigger] s[p] == a && forall|q: int| 0 <= q < p ==> #[trigger] s[q] != b
            &&& out.trns matches Some(t) ==> 0 < t.len() && 3 * t.len() <= out.palette->0.len() && t.last() != 255
        }),
{
    let s = colors_in(w, h, color_type, bit_depth, stride, pixels);
    let r0 = entry_raster(color_type, bit_depth, w, stride, pixels);
    lemma_entry(w, h, color_type, bit_depth, stride, pixels);
    lemma_depth(cli, r0, w, h);
    let r1 = depth_stage(cli, r0);
    lemma_alpha(r1, w, h);
    let r2 = reduce_alpha(r1, w, h);
    lemma_gray(r2, w, h);
    let r3 = reduce_gray(r2);
    assert forall|p: int| 0 <= p < w * h implies #[trigger] s[p] == color_of(r3, p) by {
        assert(color_of(r3, p) == color_of(r2, p));
        assert(color_of(r2, p) == color_of(r1, p));
        assert(color_of(r1, p) == color_of(r0, p));
    }
    lemma_colors(r3, w, h, s);
    let size = rgb_size(r3.color_type);
    let palette = palette_of(r3.pixels, size);
    let all = colors(r3.pixels, size);
    lemma_palette_bytes(palette, s);
    let out = reduction(cli, w, h, color_type, bit_depth, stride, pixels);
    lemma_palette_color(palette, out.trns, i);
    lemma_palette_color(palette, out.trns, j);
    lemma_trim_opaque(palette.map_values(|c: Rgba| c.a));
    lemma_trimmed(palette.map_values(|c: Rgba| c.a));
    lemma_distinct(all);
    lemma_by_alpha_order(distinct(all), 256, i, j);
    let (a, b) = (palette[i], palette[j]);
    assert(deep(a) != deep(b));
    if a.a == b.a {
        let d = distinct(all);
        let (k, m) = choose|k: int, m: int| 0 <= k < m < d.len() && #[trigger] d[k] == a && #[trigger] d[m] == b;
        lemma_first_seen(all, k, m);
        let p = choose|p: int|
            0 <= p < all.len() && #[trigger] all[p] == a && forall|q: int| 0 <= q < p ==> #[trigger] all[q] != b;
        assert(deep_colors(all)[p] == deep(a));
        assert(s[p] == deep(a));
        assert forall|q: int| 0 <= q < p implies #[trigger] s[q] != deep(b) by {
            assert(deep_colors(all)[q] == deep(all[q]));
            assert(all[q] != b);
        }
    }
}

/// Sorting by alpha puts lower alphas first, and keeps the order among equal
/// ones.
proof fn lemma_by_alpha_order(s: Seq<Rgba>, n: nat, i: int, j: int)
    requires
        s.no_duplicates(),
        0 <= i < j < by_alpha(s, n).len(),
    ensures
        by_alpha(s, n)[i].a <= by_alpha(s, n)[j].a,
        by_alpha(s, n)[j].a < n,
        by_alpha(s, n)[i].a == by_alpha(s, n)[j].a ==> exists|k: int, m: int|
            0 <= k < m < s.len() && #[trigger] s[k] == by_alpha(s, n)[i] && #[trigger] s[m] == by_alpha(s, n)[j],
    decreases n,
{
    if n > 0 {
        let pred = |c: Rgba| has_alpha(c, n - 1);
        let head = by_alpha(s, (n - 1) as nat);
        let f = s.filter(pred);
        lemma_filter_order(s, pred);
        lemma_by_alpha_below(s, (n - 1) as nat);
        if j < head.len() {
            lemma_by_alpha_order(s, (n - 1) as nat, i, j);
        } else if i >= head.len() {
            let (x, y) = (i - head.len(), j - head.len());
            let (k, m) = choose|k: int, m: int|
                0 <= k < m < s.len() && #[trigger] s[k] == f[x] && #[trigger] s[m] == f[y];
            assert(pred(f[x]) && pred(f[y]));
            assert(s[k] == by_alpha(s, n)[i] && s[m] == by_alpha(s, n)[j]);
        } else {
            assert(pred(f[j - head.len()]));
            assert(head[i].a < n - 1);
        }
    }
}

proof fn lemma_by_alpha_below(s: Seq<Rgba>, n: nat)
    ensures
        forall|i: int| 0 <= i < by_alpha(s, n).len() ==> (#[trigger] by_alpha(s, n)[i]).a < n,
    decreases n,
{
    if n > 0 {
        let pred = |c: Rgba| has_alpha(c, n - 1);
        let head = by_alpha(s, (n - 1) as nat);
        lemma_by_alpha_below(s, (n - 1) as nat);
        lemma_filter_order(s, pred);
        assert forall|i: int| 0 <= i < by_alpha(s, n).len() implies (#[trigger] by_alpha(s, n)[i]).a < n by {
            if i < head.len() {
                assert(head[i].a < n - 1);
            } else {
                assert(pred(s.filter(pred)[i - head.len()]));
            }
        }
    }
}

/// A filter keeps the order.
proof fn lemma_filter_order(s: Seq<Rgba>, pred: spec_fn(Rgba) -> bool)
    ensures
        forall|x: int| 0 <= x < s.filter(pred).len() ==> pred(#[trigger] s.filter(pred)[x]) && s.contains(
            s.filter(pred)[x],
        ),
        forall|x: int, y: int|
            0 <= x < y < s.filter(pred).len() ==> exists|k: int, m: int|
                0 <= k < m < s.len() && #[trigger] s[k] == #[trigger] s.filter(pred)[x] && #[trigger] s[m]
                    == #[trigger] s.filter(pred)[y],
    decreases s.len(),
{
    reveal(Seq::filter);
    if s.len() > 0 {
        let t = s.drop_last();
        let f = t.filter(pred);
        let g = s.filter(pred);
        lemma_filter_order(t, pred);
        assert forall|x: int| 0 <= x < g.len() implies pred(#[trigger] g[x]) && s.contains(g[x]) by {
            if x < f.len() {
                assert(pred(f[x]) && t.contains(f[x]));
                let k = choose|k: int| 0 <= k < t.len() && t[k] == f[x];
                assert(s[k] == g[x]);
            } else {
                assert(s[s.len() - 1] == g[x]);
            }
        }
        assert forall|x: int, y: int| 0 <= x < y < g.len() implies exists|k: int, m: int|
            0 <= k < m < s.len() && #[trigger] s[k] == #[trigger] g[x] && #[trigger] s[m] == #[trigger] g[y] by {
            if y < f.len() {
                assert(g[x] == f[x] && g[y] == f[y]);
                let (k, m) = choose|k: int, m: int|
                    0 <= k < m < t.len() && #[trigger] t[k] == f[x] && #[trigger] t[m] == f[y];
                assert(s[k] == g[x] && s[m] == g[y]);
            } else {
                assert(t.contains(f[x]));
                let k = choose|k: int| 0 <= k < t.len() && t[k] == f[x];
                assert(s[k] == g[x] && s[s.len() - 1] == g[y]);
            }
        }
    }
}

/// Of two different colors, the one that stands first among the distinct
/// colors appears first.
proof fn lemma_first_seen(s: Seq<Rgba>, k: int, m: int)
    requires
        0 <= k < m < distinct(s).len(),
    ensures
        exists|p: int|
            0 <= p < s.len() && #[trigger] s[p] == distinct(s)[k] && forall|q: int|
                0 <= q < p ==> #[trigger] s[q] != distinct(s)[m],
    decreases s.len(),
{
    if s.len() > 0 {
        let t = s.drop_last();
        let d = distinct(t);
        lemma_distinct(t);
        lemma_distinct(s);
        if m < d.len() {
            lemma_first_seen(t, k, m);
            let p = choose|p: int|
                0 <= p < t.len() && #[trigger] t[p] == d[k] && forall|q: int| 0 <= q < p ==> #[trigger] t[q] != d[m];
            assert(s[p] == distinct(s)[k]);
            assert forall|q: int| 0 <= q < p implies #[trigger] s[q] != distinct(s)[m] by {
                assert(t[q] != d[m]);
            }
        } else {
            assert(d.contains(d[k]));
            assert(t.contains(d[k]));
            let p = choose|p: int| 0 <= p < t.len() && t[p] == d[k];
            assert(s[p] == distinct(s)[k]);
            assert forall|q: int| 0 <= q < p implies #[trigger] s[q] != distinct(s)[m] by {
                assert(t.contains(t[q]));
                assert(d.contains(t[q]));
            }
        }
    }
}

/// The name of a color type in the notes.
pub open spec fn name_in_notes(color_type: u8) -> Seq<char> {
    match color_type {
        0 => "Y (Grayscale)"@,
        2 => "RGB"@,
        3 => "Palette"@,
        4 => "YA (Grayscale+Transparency)"@,
        _ => "RGBA (RGB+Transparency)"@,
    }
}

/// Says from which color type to which an image went.
pub open spec fn change_in_notes(from: u8, to: u8, why: Seq<char>) -> Seq<char> {
    "  (i) Reducing color type from "@ + name_in_notes(from) + " to "@ + name_in_notes(to) + why
}

/// What is said about the reductions: one line for each that was made, in the
/// order in which they are made. Nothing is said of an image that was indexed
/// and is again.
#[verifier::rlimit(60)]
#[verifier::spinoff_prover]
pub proof fn law_reductions_are_noted(
    cli: &CliArgs,
    w: u32,
    h: u32,
    color_type: u8,
    bit_depth: u8,
    stride: usize,
    pixels: Seq<u8>,
)
    requires
        is_image(w, h, color_type, bit_depth, stride, pixels),
        !cli.nx,
        !cli.nc,
        !cli.quiet,
    ensures
        ({
            let s = colors_in(w, h, color_type, bit_depth, stride, pixels);
            let out = reduction(cli, w, h, color_type, bit_depth, stride, pixels);
            let first = if color_type != 3 {
                color_type
            } else if stride == 4 * w {
                6
            } else {
                2
            };
            let second: u8 = if !all_opaque(s) {
                first
            } else if first == 6 {
                2
            } else if first == 4 {
                0
            } else {
                first
            };
            let third: u8 = if !all_gray(s) {
                second
            } else if second == 6 {
                4
            } else if second == 2 {
                0
            } else {
                second
            };
            let none = Seq::<Seq<char>>::empty();
            out.notes == (if color_type != 3 && bit_depth == 16 && out.bit_depth < 16 {
                seq!["  (i) Reducing bit depth from 16 to 8 (fake 16-bit image detected)"@]
            } else {
                none
            }) + (if first != second {
                seq![change_in_notes(first, second, " (all pixels are 100% opaque)"@)]
            } else {
                none
            }) + (if second != third {
                seq![change_in_notes(second, third, " (R==G==B across all pixels)"@)]
            } else {
                none
            }) + (if out.color_type == 3 && color_type != 3 {
                seq![
                    change_in_notes(
                        third,
                        3,
                        " ("@ + decimal(out.bit_depth as nat) + " bit, Color count: "@ + decimal(s.to_set().len())
                            + ")"@,
                    ),
                ]
            } else {
                none
            })
        }),
{
    let s = colors_in(w, h, color_type, bit_depth, stride, pixels);
    let r0 = entry_raster(color_type, bit_depth, w, stride, pixels);
    lemma_entry(w, h, color_type, bit_depth, stride, pixels);
    lemma_depth(cli, r0, w, h);
    let r1 = depth_stage(cli, r0);
    lemma_alpha(r1, w, h);
    let r2 = reduce_alpha(r1, w, h);
    lemma_gray(r2, w, h);
    let r3 = reduce_gray(r2);
    assert forall|p: int| 0 <= p < w * h implies #[trigger] s[p] == color_of(r3, p) by {
        assert(color_of(r3, p) == color_of(r2, p));
        assert(color_of(r2, p) == color_of(r1, p));
        assert(color_of(r1, p) == color_of(r0, p));
    }
    lemma_same_kind(r0, s);
    lemma_same_kind(r1, s);
    lemma_same_kind(r2, s);
    if r3.bit_depth == 8 && is_truecolor(r3.color_type) {
        lemma_colors(r3, w, h, s);
    }
    let out = reduction(cli, w, h, color_type, bit_depth, stride, pixels);
    assert(out.notes + Seq::<Seq<char>>::empty() =~= out.notes);
}

/// Where indices stand: in whole bytes, or packed into rows of bytes with the
/// first index in the highest bits.
pub proof fn law_indices_in_bytes(pixels: Seq<u8>, start: int, x: int)
    requires
        0 <= x,
    ensures
        index_at(8, pixels, start, x) == pixels[start + x],
        index_at(4, pixels, start, x) == (if x % 2 == 0 {
            pixels[start + x / 2] as int / 16
        } else {
            pixels[start + x / 2] as int % 16
        }),
        index_at(2, pixels, start, x) == (match (x % 4) as u8 {
            0 => pixels[start + x / 4] as int / 64,
            1 => pixels[start + x / 4] as int / 16 % 4,
            2 => pixels[start + x / 4] as int / 4 % 4,
            _ => pixels[start + x / 4] as int % 4,
        }),
        index_at(1, pixels, start, x) == (match (x % 8) as u8 {
            0 => pixels[start + x / 8] as int / 128,
            1 => pixels[start + x / 8] as int / 64 % 2,
            2 => pixels[start + x / 8] as int / 32 % 2,
            3 => pixels[start + x / 8] as int / 16 % 2,
            4 => pixels[start + x / 8] as int / 8 % 2,
            5 => pixels[start + x / 8] as int / 4 % 2,
            6 => pixels[start + x / 8] as int / 2 % 2,
            _ => pixels[start + x / 8] as int % 2,
        }),
{
    reveal_with_fuel(place_value, 9);
    assert(x / 1 == x && x % 1 == 0);
    assert(place_value(8, 0) == 1);
    let b = pixels[start + x] as int;
    assert(b / 1 == b && b % 256 == b);
    assert(index_at(8, pixels, start, x) == (b / 1) % 256);
    assert(place_value(4, 0) == 16 && place_value(4, 1) == 1);
    assert(place_value(2, 0) == 64 && place_value(2, 1) == 16 && place_value(2, 2) == 4 && place_value(2, 3) == 1);
    assert(place_value(1, 0) == 128 && place_value(1, 1) == 64 && place_value(1, 2) == 32 && place_value(1, 3) == 16);
    assert(place_value(1, 4) == 8 && place_value(1, 5) == 4 && place_value(1, 6) == 2 && place_value(1, 7) == 1);
}

/// The bytes of a row: of whole samples, or of indices packed together.
pub proof fn law_bytes_of_rows(w: int)
    requires
        0 <= w,
    ensures
        row_bytes(3, 1, w) == (w + 7) / 8,
        row_bytes(3, 2, w) == (w + 3) / 4,
        row_bytes(3, 4, w) == (w + 1) / 2,
        row_bytes(3, 8, w) == w,
        row_bytes(0, 8, w) == w && row_bytes(0, 16, w) == 2 * w,
        row_bytes(2, 8, w) == 3 * w && row_bytes(2, 16, w) == 6 * w,
        row_bytes(4, 8, w) == 2 * w && row_bytes(4, 16, w) == 4 * w,
        row_bytes(6, 8, w) == 4 * w && row_bytes(6, 16, w) == 8 * w,
{
    assert(w * (1 * 1) == w && w * (1 * 2) == 2 * w) by (nonlinear_arith);
    assert(w * (3 * 1) == 3 * w && w * (3 * 2) == 6 * w) by (nonlinear_arith);
    assert(w * (2 * 1) == 2 * w && w * (2 * 2) == 4 * w) by (nonlinear_arith);
    assert(w * (4 * 1) == 4 * w && w * (4 * 2) == 8 * w) by (nonlinear_arith);
}

/// Gray images without alpha, and of a depth other than 16, stay as they are,
/// whatever the options and however the pixels are laid out.
pub proof fn law_gray_images_stay(
    cli: &CliArgs,
    w: u32,
    h: u32,
    bit_depth: u8,
    stride: usize,
    pixels: Seq<u8>,
)
    requires
        bit_depth != 16,
    ensures
        ({
            let out = reduction(cli, w, h, 0, bit_depth, stride, pixels);
            &&& out.color_type == 0 && out.bit_depth == bit_depth && out.pixels == pixels
            &&& out.palette is None && out.trns is None && out.notes.len() == 0
        }),
{
}

/// Rows of packed indices are filled up with zero bits.
#[verifier::rlimit(60)]
#[verifier::spinoff_prover]
pub proof fn law_rows_end_with_zeros(
    cli: &CliArgs,
    w: u32,
    h: u32,
    color_type: u8,
    bit_depth: u8,
    stride: usize,
    pixels: Seq<u8>,
    x: int,
    y: int,
)
    requires
        is_image(w, h, color_type, bit_depth, stride, pixels),
        reduction(cli, w, h, color_type, bit_depth, stride, pixels).color_type == 3,
        reduction(cli, w, h, color_type, bit_depth, stride, pixels).bit_depth < 8,
        0 <= y < h,
        ({
            let depth = reduction(cli, w, h, color_type, bit_depth, stride, pixels).bit_depth;
            w <= x && x * depth < 8 * row_bytes(3, depth, w as int)
        }),
    ensures
        ({
            let out = reduction(cli, w, h, color_type, bit_depth, stride, pixels);
            index_at(out.bit_depth, out.pixels, y * row_bytes(3, out.bit_depth, w as int), x) == 0
        }),
{
    let out = reduction(cli, w, h, color_type, bit_depth, stride, pixels);
    let depth = out.bit_depth;
    let r0 = entry_raster(color_type, bit_depth, w, stride, pixels);
    lemma_entry(w, h, color_type, bit_depth, stride, pixels);
    lemma_depth(cli, r0, w, h);
    let r1 = depth_stage(cli, r0);
    lemma_alpha(r1, w, h);
    let r2 = reduce_alpha(r1, w, h);
    lemma_gray(r2, w, h);
    let r3 = reduce_gray(r2);
    let size = rgb_size(r3.color_type);
    let s = palette_indices(r3.pixels, size);
    assert(size == size_of(r3));
    assert(s.len() == w * h) by (nonlinear_arith)
        requires
            h * (w * size) == r3.pixels.len(),
            size > 0,
            s.len() == r3.pixels.len() as int / size,
    ;
    lemma_palette(r3.pixels, size);
    lemma_index_range(r3.pixels, size);
    assert(out.pixels == pack_rows(s, w as int, h as nat, depth));
    lemma_pack_rows(s, w as int, h as nat, depth, y);
    assert forall|i: int| 0 <= i < s.len() implies #[trigger] s[i] < levels(depth) by {}
    let rb = row_bytes(3, depth, w as int);
    let row = index_row(s, w as int, y);
    assert(0 <= y * w && y * w + w <= w * h) by (nonlinear_arith)
        requires
            0 <= y < h,
            0 <= w,
    ;
    assert(row.len() == w);
    let per = per_byte(depth);
    let k = x / per;
    let j = x % per;
    let n = filled(w as int, depth, k);
    assert(0 <= k < rb && n <= j < per && k * per + n == w && n > 0);
    assert(pack_row(row, depth)[k] == out.pixels[y * rb + k]);
    assert forall|i: int| k * per <= i < k * per + n implies #[trigger] row[i] < levels(depth) by {
        assert(row[i] == s[y * w + i]);
    }
    lemma_packed_value(row, depth, k * per, n);
    lemma_place_value(depth, (n - 1) as nat);
    lemma_leading(row, depth, k * per, n);
    let v = packed_value(row, depth, k * per, n);
    lemma_zero_behind(leading(row, depth, k * per, n), depth, n, j as nat);
    assert(pack_row(row, depth)[k] == v as u8);
    assert(v as u8 as int == v);
}

/// A number that has its digits in the first `n` places has none behind.
proof fn lemma_zero_behind(q: int, depth: u8, n: nat, j: nat)
    requires
        depth == 1 || depth == 2 || depth == 4,
        0 < n <= j < per_byte(depth),
        0 <= q,
    ensures
        (q * place_value(depth, (n - 1) as nat)) / place_value(depth, j) % levels(depth) == 0,
    decreases j - n,
{
    lemma_place_value(depth, n);
    lemma_place_value(depth, j);
    let pv = place_value(depth, n);
    let base = levels(depth);
    assert(place_value(depth, (n - 1) as nat) == pv * base);
    if n == j {
        assert(q * (pv * base) == (q * base) * pv) by (nonlinear_arith);
        lemma_fundamental_div_mod_converse(q * (pv * base), pv, q * base, 0);
        lemma_fundamental_div_mod_converse(q * base, base, q, 0);
    } else {
        assert(q * (pv * base) == (q * base) * pv) by (nonlinear_arith);
        assert(0 <= q * base) by (nonlinear_arith)
            requires
                0 <= q,
                0 < base,
        ;
        lemma_zero_behind(q * base, depth, n + 1, j);
    }
}

/// Rows may lie further apart than their pixels take. Where alpha is dropped
/// from such an image, the pixels are taken from their rows and closed up; and
/// it is dropped if all pixels in the rows are opaque, whatever stands between
/// them, and only then.
#[verifier::rlimit(60)]
#[verifier::spinoff_prover]
pub proof fn law_rows_may_lie_apart(cli: &CliArgs, w: u32, h: u32, stride: usize, pixels: Seq<u8>, x: int, y: int)
    requires
        !cli.nx,
        !cli.nc,
        stride >= 2 * w,
        pixels.len() >= h * stride,
        0 <= x < w,
        0 <= y < h,
    ensures
        ({
            let out = reduction(cli, w, h, 4, 8, stride, pixels);
            let opaque = forall|i: int, j: int| #![trigger pixels[j * stride + i * 2 + 1]]
                0 <= i < w && 0 <= j < h ==> pixels[j * stride + i * 2 + 1] == 255;
            &&& out.bit_depth == 8 && out.palette is None
            &&& opaque ==> out.color_type == 0 && out.pixels.len() == w * h
            &&& opaque ==> out.pixels[y * w + x] == pixels[y * stride + x * 2]
            &&& !opaque ==> out.color_type == 4 && out.pixels == pixels
        }),
{
    let r = Raster { color_type: 4, bit_depth: 8, stride: stride as int, pixels };
    assert(entry_raster(4, 8, w, stride, pixels) == r);
    assert(depth_stage(cli, r) == r);
    let opaque = forall|i: int, j: int| #![trigger pixels[j * stride + i * 2 + 1]]
        0 <= i < w && 0 <= j < h ==> pixels[j * stride + i * 2 + 1] == 255;
    assert forall|p: int| 0 <= p < w * h implies (#[trigger] opaque_at(pixels, w as int, stride as int, 1, 2, p) <==> {
        let (i, j) = (p % (w as int), p / (w as int));
        pixels[j * stride + i * 2 + 1] == 255
    }) && 0 <= pixel_offset(p, w as int, stride as int, 2) && pixel_offset(p, w as int, stride as int, 2) + 2
        <= pixels.len() by {
        lemma_pixel_row(p, w as int, h as int);
        let (i, j) = (p % (w as int), p / (w as int));
        assert(0 <= j * stride && j * stride + stride <= h * stride) by (nonlinear_arith)
            requires
                0 <= j < h,
                0 <= stride,
        ;
    }
    if opaque {
        assert forall|p: int| 0 <= p < w * h implies #[trigger] opaque_at(pixels, w as int, stride as int, 1, 2, p) by {
            lemma_pixel_row(p, w as int, h as int);
            let (i, j) = (p % (w as int), p / (w as int));
            assert(pixels[j * stride + i * 2 + 1] == 255);
        }
        let pick = |p: int| pixels.subrange(
            pixel_offset(p, w as int, stride as int, 2),
            pixel_offset(p, w as int, stride as int, 2) + 2 - 1,
        );
        let n = (w * h) as nat;
        let p = y * w + x;
        assert(0 <= p < n) by (nonlinear_arith)
            requires
                0 <= x < w,
                0 <= y < h,
                p == y * w + x,
                n == w * h,
        ;
        assert forall|q: int| 0 <= q < n implies (#[trigger] pick(q)).len() == 1 by {
            assert(opaque_at(pixels, w as int, stride as int, 1, 2, q));
        }
        lemma_join_pixels_len(n, pick, 1);
        lemma_join_pixels_at(n, pick, 1, p);
        lemma_pixel_offset(x, y, w as int, stride as int, 2);
        assert(opaque_at(pixels, w as int, stride as int, 1, 2, p));
        assert(strip_alpha(pixels, w as int, stride as int, 1, 2, n) == join_pixels(n, pick));
        assert(join_pixels(n, pick)[p * 1 + 0] == pick(p)[0]);
    } else {
        let (i, j) = choose|i: int, j: int| #![trigger pixels[j * stride + i * 2 + 1]]
            0 <= i < w && 0 <= j < h && pixels[j * stride + i * 2 + 1] != 255;
        let p = j * w + i;
        assert(0 <= p < w * h) by (nonlinear_arith)
            requires
                0 <= i < w,
                0 <= j < h,
                p == j * w + i,
        ;
        lemma_pixel_offset(i, j, w as int, stride as int, 2);
        assert(!opaque_at(pixels, w as int, stride as int, 1, 2, p));
        assert(!alpha_reducible(r, w, h));
    }
}

}
