//! The reductions keep every pixel.
use crate::encoding::bytes_per_row;
use crate::models::CliArgs;
use crate::palette::{
    colors, filled, index_depth, index_row, indexed_pixels, is_indexable, lemma_index_range, lemma_palette,
    lemma_place_value, lemma_packed_value, levels, pack_row, pack_rows, packed_value, palette_indices, palette_of,
    per_byte, place_value, plte_bytes, trim_opaque, trns_bytes, Rgba,
};
use crate::raster::{lemma_join_pixels_at, lemma_join_pixels_len, lemma_pixel_offset, lemma_pixel_row, pixel_offset};
use crate::reduction::{
    alpha_layout, alpha_readable, alpha_reducible, depth_reducible, depth_stage, entry_raster, gray_at, gray_pixel,
    gray_reducible, is_truecolor, opaque_at, pair_agrees, palette_stage_applies, pixel_in_range, reduce_alpha,
    reduce_depth, reduce_gray, reduction, reduction_in_range, rgb_size, truecolor_layout, Raster,
};
use vstd::arithmetic::div_mod::lemma_fundamental_div_mod_converse;
use vstd::prelude::*;

verus! {

/// A color with 16-bit samples.
pub struct DeepColor {
    pub r: int,
    pub g: int,
    pub b: int,
    pub a: int,
}

/// The samples of a pixel of color type 0, 2, 4 or 6.
pub open spec fn samples(color_type: u8) -> int {
    if color_type == 6 {
        4
    } else if color_type == 2 {
        3
    } else if color_type == 4 {
        2
    } else {
        1
    }
}

/// The bytes of a sample of 8 or 16 bits.
pub open spec fn sample_bytes(bit_depth: u8) -> int {
    if bit_depth == 16 { 2 } else { 1 }
}

/// The bytes that a row takes when nothing stands between rows.
pub open spec fn row_bytes(color_type: u8, bit_depth: u8, w: int) -> int {
    if color_type == 3 {
        (w + per_byte(bit_depth) - 1) / per_byte(bit_depth)
    } else {
        w * (samples(color_type) * sample_bytes(bit_depth))
    }
}

/// The 8-bit or 16-bit sample at byte `i`, on a scale up to 65535.
pub open spec fn sample_at(pixels: Seq<u8>, bit_depth: u8, i: int) -> int {
    if bit_depth == 16 {
        pixels[i] * 256 + pixels[i + 1]
    } else {
        pixels[i] * 257
    }
}

/// The color of a pixel of color type 0, 2, 4 or 6 that starts at byte `i`.
pub open spec fn direct_color(color_type: u8, bit_depth: u8, pixels: Seq<u8>, i: int) -> DeepColor {
    let n = sample_bytes(bit_depth);
    let first = sample_at(pixels, bit_depth, i);
    if color_type == 6 {
        DeepColor {
            r: first,
            g: sample_at(pixels, bit_depth, i + n),
            b: sample_at(pixels, bit_depth, i + 2 * n),
            a: sample_at(pixels, bit_depth, i + 3 * n),
        }
    } else if color_type == 2 {
        DeepColor {
            r: first,
            g: sample_at(pixels, bit_depth, i + n),
            b: sample_at(pixels, bit_depth, i + 2 * n),
            a: 65535,
        }
    } else if color_type == 4 {
        DeepColor { r: first, g: first, b: first, a: sample_at(pixels, bit_depth, i + n) }
    } else {
        DeepColor { r: first, g: first, b: first, a: 65535 }
    }
}

/// The index of pixel `x` in a row of indices that starts at byte `start`.
/// The first index of a byte takes its high-order bits.
pub open spec fn index_at(bit_depth: u8, pixels: Seq<u8>, start: int, x: int) -> int {
    let per = per_byte(bit_depth);
    (pixels[start + x / per] as int / place_value(bit_depth, (x % per) as nat)) % levels(bit_depth)
}

/// Entry `i` of a palette, as its PLTE and tRNS bytes give it. Entries
/// beyond the end of the tRNS bytes are opaque.
pub open spec fn palette_color(palette: Seq<u8>, trns: Option<Seq<u8>>, i: int) -> DeepColor {
    DeepColor {
        r: palette[3 * i] * 257,
        g: palette[3 * i + 1] * 257,
        b: palette[3 * i + 2] * 257,
        a: match trns {
            Some(t) => if i < t.len() { t[i] * 257 } else { 65535 },
            None => 65535,
        },
    }
}

/// The color of the pixel in column `x` and row `y` of an image whose rows
/// take `stride` bytes.
pub open spec fn pixel_color(
    color_type: u8,
    bit_depth: u8,
    palette: Option<Seq<u8>>,
    trns: Option<Seq<u8>>,
    pixels: Seq<u8>,
    stride: int,
    x: int,
    y: int,
) -> DeepColor {
    if color_type == 3 {
        palette_color(palette->0, trns, index_at(bit_depth, pixels, y * stride, x))
    } else {
        direct_color(
            color_type,
            bit_depth,
            pixels,
            y * stride + x * (samples(color_type) * sample_bytes(bit_depth)),
        )
    }
}

/// A whole image with samples of 8 or 16 bits.
pub open spec fn is_whole(r: Raster, w: int, h: int) -> bool {
    &&& r.color_type == 0 || r.color_type == 2 || r.color_type == 4 || r.color_type == 6
    &&& r.bit_depth == 8 || r.bit_depth == 16
    &&& h * row_bytes(r.color_type, r.bit_depth, w) <= r.pixels.len()
}

/// The color of pixel `p`, counted row by row, of a whole image.
pub open spec fn color_of(r: Raster, p: int) -> DeepColor {
    direct_color(r.color_type, r.bit_depth, r.pixels, p * (samples(r.color_type) * sample_bytes(r.bit_depth)))
}

/// The bytes of a pixel.
pub open spec fn size_of(r: Raster) -> int {
    samples(r.color_type) * sample_bytes(r.bit_depth)
}

/// Pixel `p` of a whole image lies within its buffer.
pub proof fn lemma_within(r: Raster, w: int, h: int, p: int)
    requires
        is_whole(r, w, h),
        0 <= p < w * h,
    ensures
        0 <= p * size_of(r),
        p * size_of(r) + size_of(r) <= r.pixels.len(),
        size_of(r) >= 1,
{
    let s = size_of(r);
    assert(0 <= p * s && p * s + s <= h * (w * s)) by (nonlinear_arith)
        requires 0 <= p < w * h, s >= 1;
}

pub proof fn lemma_depth_keeps(r: Raster, w: int, h: int)
    requires
        is_whole(r, w, h),
        0 <= w,
        0 <= h,
    ensures
        is_whole(reduce_depth(r), w, h),
        reduce_depth(r).color_type == r.color_type,
        forall|p: int| 0 <= p < w * h ==> #[trigger] color_of(reduce_depth(r), p) == color_of(r, p),
{
    let d = reduce_depth(r);
    if depth_reducible(r) {
        let n = samples(r.color_type);
        assert(h * (w * (n * 2)) == 2 * (h * (w * n))) by (nonlinear_arith);
        assert(h * (w * (n * 1)) == h * (w * n)) by (nonlinear_arith);
        assert forall|p: int| 0 <= p < w * h implies #[trigger] color_of(d, p) == color_of(r, p) by {
            lemma_within(r, w, h, p);
            lemma_within(d, w, h, p);
            assert(p * (n * 2) == 2 * (p * (n * 1))) by (nonlinear_arith);
            let i = p * (n * 1);
            assert(pair_agrees(r.pixels, i));
            if n >= 2 {
                assert(pair_agrees(r.pixels, i + 1));
            }
            if n >= 3 {
                assert(pair_agrees(r.pixels, i + 2));
            }
            if n >= 4 {
                assert(pair_agrees(r.pixels, i + 3));
            }
        }
    }
}

pub proof fn lemma_alpha_keeps(r: Raster, w: u32, h: u32)
    requires
        is_whole(r, w as int, h as int),
        r.stride == row_bytes(r.color_type, r.bit_depth, w as int),
    ensures
        is_whole(reduce_alpha(r, w, h), w as int, h as int),
        forall|p: int| 0 <= p < w * h ==> #[trigger] color_of(reduce_alpha(r, w, h), p) == color_of(r, p),
        alpha_readable(r, w, h),
{
    let (alpha, size) = alpha_layout(r.color_type, r.bit_depth);
    if alpha > 0 {
        assert(size == size_of(r));
        assert forall|p: int| 0 <= p < w * h implies pixel_offset(p, w as int, r.stride, size) == p * size by {
            lemma_pixel_row(p, w as int, h as int);
            let (x, y) = (p % (w as int), p / (w as int));
            lemma_pixel_offset(x, y, w as int, r.stride, size);
            assert(y * (w * size) + x * size == (y * w + x) * size) by (nonlinear_arith);
        }
        assert forall|p: int| 0 <= p < w * h implies #[trigger] pixel_in_range(
            r.pixels, w as int, r.stride, size, p) by {
            lemma_within(r, w as int, h as int, p);
        }
        assert(w * (size - alpha) <= r.stride) by (nonlinear_arith)
            requires 0 <= w, 0 <= alpha, r.stride == w * size;
    }
    if alpha_reducible(r, w, h) {
        let d = reduce_alpha(r, w, h);
        let keep = (size - alpha) as nat;
        let n = (w * h) as nat;
        let pick = |p: int| r.pixels.subrange(
            pixel_offset(p, w as int, r.stride, size),
            pixel_offset(p, w as int, r.stride, size) + size - alpha,
        );
        assert forall|p: int| 0 <= p < n implies (#[trigger] pick(p)).len() == keep by {
            lemma_within(r, w as int, h as int, p);
        }
        lemma_join_pixels_len(n, pick, keep);
        assert(h * (w * keep) == (w * h) * keep) by (nonlinear_arith);
        assert(keep == size_of(d));
        assert forall|p: int| 0 <= p < w * h implies #[trigger] color_of(d, p) == color_of(r, p) by {
            lemma_within(r, w as int, h as int, p);
            lemma_join_pixels_at(n, pick, keep, p);
            assert(opaque_at(r.pixels, w as int, r.stride, alpha, size, p));
            let i = p * size;
            assert forall|j: int| 0 <= j < keep implies #[trigger] d.pixels[p * keep + j] == r.pixels[i + j] by {
                assert(d.pixels[p * keep + j] == pick(p)[j]);
            }
            assert(d.pixels[p * keep + 0] == r.pixels[i + 0]);
            if keep >= 2 {
                assert(d.pixels[p * keep + 1] == r.pixels[i + 1]);
            }
            if keep >= 3 {
                assert(d.pixels[p * keep + 2] == r.pixels[i + 2]);
            }
            if keep >= 4 {
                assert(d.pixels[p * keep + 3] == r.pixels[i + 3]);
                assert(d.pixels[p * keep + 4] == r.pixels[i + 4]);
                assert(d.pixels[p * keep + 5] == r.pixels[i + 5]);
            }
        }
    }
}

/// A gray pixel holds the bytes of its red and alpha samples.
pub proof fn lemma_gray_keeps(r: Raster, w: int, h: int)
    requires
        is_whole(r, w, h),
        0 <= w,
        0 <= h,
    ensures
        is_whole(reduce_gray(r), w, h),
        forall|p: int| 0 <= p < w * h ==> #[trigger] color_of(reduce_gray(r), p) == color_of(r, p),
{
    if gray_reducible(r) {
        let d = reduce_gray(r);
        let (sample, size) = truecolor_layout(r.color_type, r.bit_depth);
        assert(size == size_of(r));
        assert(sample == sample_bytes(r.bit_depth));
        let n = (r.pixels.len() as int / size) as nat;
        let pick = |p: int| gray_pixel(r.pixels, sample, size, p);
        let out = size_of(d) as nat;
        assert(w * h <= n) by (nonlinear_arith)
            requires h * (w * size) <= r.pixels.len(), size > 0, n == r.pixels.len() as int / size;
        assert forall|p: int| 0 <= p < n implies (#[trigger] pick(p)).len() == out
            && 0 <= p * size && p * size + size <= r.pixels.len() by {
            assert(0 <= p * size && p * size + size <= r.pixels.len()) by (nonlinear_arith)
                requires 0 <= p < n, size > 0, n == r.pixels.len() as int / size;
        }
        lemma_join_pixels_len(n, pick, out);
        assert(h * (w * out) <= n * out) by (nonlinear_arith)
            requires w * h <= n, 0 <= out;
        assert forall|p: int| 0 <= p < w * h implies #[trigger] color_of(d, p) == color_of(r, p) by {
            lemma_join_pixels_at(n, pick, out, p);
            assert(pick(p).len() == out);
            assert(gray_at(r.pixels, sample, size, p));
            assert(d.pixels[p * out + 0] == pick(p)[0]);
            if out >= 2 {
                assert(d.pixels[p * out + 1] == pick(p)[1]);
            }
            if out >= 3 {
                assert(d.pixels[p * out + 2] == pick(p)[2]);
                assert(d.pixels[p * out + 3] == pick(p)[3]);
            }
        }
    }
}

/// The number that the first `j` indices of a byte spell.
pub open spec fn leading(s: Seq<u8>, depth: u8, from: int, j: nat) -> int
    decreases j,
{
    if j == 0 {
        0
    } else {
        leading(s, depth, from, (j - 1) as nat) * levels(depth) + s[from + j - 1]
    }
}

pub proof fn lemma_leading(s: Seq<u8>, depth: u8, from: int, j: nat)
    requires
        depth == 1 || depth == 2 || depth == 4,
        0 < j <= per_byte(depth),
    ensures
        packed_value(s, depth, from, j) == leading(s, depth, from, j) * place_value(depth, (j - 1) as nat),
        0 <= leading(s, depth, from, j),
    decreases j,
{
    let m = (j - 1) as nat;
    lemma_place_value(depth, m);
    let v = s[from + m] as int;
    let pv = place_value(depth, m);
    let base = levels(depth);
    let head = leading(s, depth, from, m);
    if m > 0 {
        lemma_leading(s, depth, from, m);
        assert(head * (pv * base) + v * pv == (head * base + v) * pv) by (nonlinear_arith);
        assert(0 <= head * base) by (nonlinear_arith)
            requires 0 <= head, 0 < base;
    } else {
        assert(packed_value(s, depth, from, 0) == 0);
        assert(head * base == 0);
    }
}

proof fn lemma_trailing(s: Seq<u8>, depth: u8, from: int, j: nat, n: nat)
    requires
        depth == 1 || depth == 2 || depth == 4,
        0 < j <= n <= per_byte(depth),
        forall|i: int| from <= i < from + n ==> #[trigger] s[i] < levels(depth),
    ensures
        packed_value(s, depth, from, j) <= packed_value(s, depth, from, n),
        packed_value(s, depth, from, n) + place_value(depth, (n - 1) as nat)
            <= packed_value(s, depth, from, j) + place_value(depth, (j - 1) as nat),
    decreases n,
{
    if j < n {
        let m = (n - 1) as nat;
        lemma_trailing(s, depth, from, j, m);
        lemma_place_value(depth, m);
        let v = s[from + m] as int;
        let pv = place_value(depth, m);
        assert(0 <= v * pv && v * pv + pv <= pv * levels(depth)) by (nonlinear_arith)
            requires 0 <= v < levels(depth), 0 < pv;
    }
}

/// Each index can be read back from the byte that it was packed into.
pub proof fn lemma_unpack(s: Seq<u8>, depth: u8, from: int, j: nat, n: nat)
    requires
        depth == 1 || depth == 2 || depth == 4,
        j < n <= per_byte(depth),
        forall|i: int| from <= i < from + n ==> #[trigger] s[i] < levels(depth),
    ensures
        (packed_value(s, depth, from, n) / place_value(depth, j)) % levels(depth) == s[from + j],
        0 <= packed_value(s, depth, from, n) < 256,
{
    let v = packed_value(s, depth, from, n);
    let pv = place_value(depth, j);
    let base = levels(depth);
    let j1 = (j + 1) as nat;
    let head = leading(s, depth, from, j1);
    lemma_packed_value(s, depth, from, n);
    lemma_place_value(depth, (n - 1) as nat);
    lemma_place_value(depth, j);
    lemma_leading(s, depth, from, j1);
    lemma_trailing(s, depth, from, j1, n);
    lemma_fundamental_div_mod_converse(v, pv, head, v - head * pv);
    assert(s[from + j] < base);
    lemma_fundamental_div_mod_converse(head, base, leading(s, depth, from, j), s[from + j] as int);
}

/// Row `r` of packed rows of `w` indices starts at byte `r` times the bytes
/// of a row.
pub proof fn lemma_pack_rows(s: Seq<u8>, w: int, h: nat, depth: u8, r: int)
    requires
        depth == 1 || depth == 2 || depth == 4,
        0 <= w,
        w * h <= s.len(),
        0 <= r < h,
    ensures
        ({
            let rb = row_bytes(3, depth, w);
            &&& 0 <= rb
            &&& pack_rows(s, w, h, depth).len() == h * rb
            &&& 0 <= r * rb
            &&& r * rb + rb <= h * rb
            &&& forall|k: int| 0 <= k < rb ==> #[trigger] pack_row(index_row(s, w, r), depth)[k]
                == pack_rows(s, w, h, depth)[r * rb + k]
        }),
    decreases h,
{
    let rb = row_bytes(3, depth, w);
    let m = (h - 1) as nat;
    let head = pack_rows(s, w, m, depth);
    let last = pack_row(index_row(s, w, m as int), depth);
    assert(w * h == m * w + w) by (nonlinear_arith)
        requires h == m + 1;
    assert(m * w >= 0) by (nonlinear_arith)
        requires 0 <= w;
    assert(w * m <= s.len()) by (nonlinear_arith)
        requires w * h <= s.len(), h == m + 1, 0 <= w;
    assert(index_row(s, w, m as int).len() == w);
    assert(last.len() == rb);
    assert(h * rb == m * rb + rb) by (nonlinear_arith)
        requires h == m + 1;
    assert(0 <= r * rb && r * rb + rb <= h * rb) by (nonlinear_arith)
        requires 0 <= r < h, 0 <= rb;
    if m > 0 {
        lemma_pack_rows(s, w, m, depth, 0);
    } else {
        assert(head.len() == 0);
        assert(m * rb == 0);
    }
    if r < m {
        lemma_pack_rows(s, w, m, depth, r);
        let row = pack_row(index_row(s, w, r), depth);
        assert forall|k: int| 0 <= k < rb implies #[trigger] row[k] == pack_rows(s, w, h, depth)[r * rb + k] by {
            assert(row[k] == head[r * rb + k]);
        }
    } else {
        assert(r == m);
        assert forall|k: int| 0 <= k < rb implies #[trigger] last[k] == pack_rows(s, w, h, depth)[r * rb + k] by {
        }
    }
}

/// The index of a pixel can be read back from packed rows.
pub proof fn lemma_index_read_back(s: Seq<u8>, w: int, h: nat, depth: u8, x: int, y: int)
    requires
        depth == 1 || depth == 2 || depth == 4,
        w * h <= s.len(),
        0 <= x < w,
        0 <= y < h,
        forall|i: int| 0 <= i < s.len() ==> #[trigger] s[i] < levels(depth),
    ensures
        0 <= y * w + x < s.len(),
        index_at(depth, pack_rows(s, w, h, depth), y * row_bytes(3, depth, w), x) == s[y * w + x],
{
    let per = per_byte(depth);
    let rb = row_bytes(3, depth, w);
    let row = index_row(s, w, y);
    let k = x / per;
    let j = x % per;
    assert(0 <= y * w && y * w + w <= w * h) by (nonlinear_arith)
        requires 0 <= y < h, 0 <= w;
    assert(row.len() == w);
    lemma_pack_rows(s, w, h, depth, y);
    let n = filled(w, depth, k);
    assert(0 <= k < rb && j < n && k * per + j == x && k * per + n <= w);
    assert(pack_row(row, depth)[k] == pack_rows(s, w, h, depth)[y * rb + k]);
    assert forall|i: int| k * per <= i < k * per + n implies #[trigger] row[i] < levels(depth) by {
        assert(row[i] == s[y * w + i]);
    }
    lemma_unpack(row, depth, k * per, j as nat, n);
    assert(row[x] == s[y * w + x]);
}

/// What trimming leaves is a prefix, and all that it drops is 255.
pub proof fn lemma_trim_opaque(s: Seq<u8>)
    ensures
        trim_opaque(s).len() <= s.len(),
        forall|i: int| 0 <= i < trim_opaque(s).len() ==> trim_opaque(s)[i] == s[i],
        forall|i: int| trim_opaque(s).len() <= i < s.len() ==> s[i] == 255,
    decreases s.len(),
{
    if s.len() > 0 && s.last() == 255 {
        lemma_trim_opaque(s.drop_last());
        assert forall|i: int| 0 <= i < trim_opaque(s).len() implies trim_opaque(s)[i] == s[i] by {
            assert(trim_opaque(s.drop_last())[i] == s.drop_last()[i]);
        }
        assert forall|i: int| trim_opaque(s).len() <= i < s.len() implies s[i] == 255 by {
            if i < s.len() - 1 {
                assert(s.drop_last()[i] == 255);
            }
        }
    }
}

/// An 8-bit color on a scale up to 65535.
pub open spec fn deep(c: Rgba) -> DeepColor {
    DeepColor { r: c.r * 257, g: c.g * 257, b: c.b * 257, a: c.a * 257 }
}

/// The PLTE and tRNS bytes of a palette give back its colors.
pub proof fn lemma_palette_color(palette: Seq<Rgba>, trns: Option<Seq<u8>>, i: int)
    requires
        0 <= i < palette.len(),
        trns == (if trns_bytes(palette).len() > 0 { Some(trns_bytes(palette)) } else { None }),
    ensures
        palette_color(plte_bytes(palette), trns, i) == deep(palette[i]),
{
    let pick = |i: int| seq![palette[i].r, palette[i].g, palette[i].b];
    lemma_join_pixels_at(palette.len(), pick, 3, i);
    assert(plte_bytes(palette)[i * 3 + 0] == pick(i)[0]);
    assert(plte_bytes(palette)[i * 3 + 1] == pick(i)[1]);
    assert(plte_bytes(palette)[i * 3 + 2] == pick(i)[2]);
    let alphas = palette.map_values(|c: Rgba| c.a);
    lemma_trim_opaque(alphas);
    assert(alphas[i] == palette[i].a);
}

proof fn lemma_index_keeps(r: Raster, w: u32, h: u32, packs: bool, trns: Option<Seq<u8>>, x: int, y: int)
    requires
        is_whole(r, w as int, h as int),
        r.bit_depth == 8,
        is_truecolor(r.color_type),
        is_indexable(r.pixels, rgb_size(r.color_type)),
        0 <= x < w,
        0 <= y < h,
        ({
            let palette = palette_of(r.pixels, rgb_size(r.color_type));
            trns == (if trns_bytes(palette).len() > 0 { Some(trns_bytes(palette)) } else { None })
        }),
    ensures
        ({
            let size = rgb_size(r.color_type);
            let palette = palette_of(r.pixels, size);
            let depth = index_depth(packs, palette.len() as int);
            pixel_color(
                3,
                depth,
                Some(plte_bytes(palette)),
                trns,
                indexed_pixels(r.pixels, size, w as int, h as nat, depth),
                row_bytes(3, depth, w as int),
                x,
                y,
            ) == color_of(r, y * w + x)
        }),
{
    let size = rgb_size(r.color_type);
    let palette = palette_of(r.pixels, size);
    let depth = index_depth(packs, palette.len() as int);
    let all = colors(r.pixels, size);
    let s = palette_indices(r.pixels, size);
    let p = y * w + x;
    assert(size == size_of(r));
    assert(w * h <= all.len()) by (nonlinear_arith)
        requires h * (w * size) <= r.pixels.len(), size > 0, all.len() == r.pixels.len() as int / size;
    assert(0 <= p < w * h) by (nonlinear_arith)
        requires 0 <= x < w, 0 <= y < h, p == y * w + x;
    lemma_palette(r.pixels, size);
    lemma_index_range(r.pixels, size);
    let i = s[p] as int;
    assert(0 <= i < palette.len() && palette[i] == all[p]);
    lemma_palette_color(palette, trns, i);
    if depth < 8 {
        assert forall|q: int| 0 <= q < s.len() implies #[trigger] s[q] < levels(depth) by {
        }
        lemma_index_read_back(s, w as int, h as nat, depth, x, y);
    } else {
        reveal_with_fuel(place_value, 2);
        assert(row_bytes(3, 8, w as int) == w);
        assert(x % 1 == 0 && x / 1 == x);
        assert(place_value(8, 0) == 1);
        assert((i / 1) % 256 == i);
        assert(index_at(8, s, y * w, x) == i);
    }
}

/// Reduction is lossless: every pixel of a whole image keeps its color.
///
/// The image that comes in has samples of 8 or 16 bits, or is indexed and has
/// its colors looked up already; its rows take exactly the bytes of their
/// pixels.
pub proof fn law_reduction_is_lossless(
    cli: &CliArgs,
    w: u32,
    h: u32,
    color_type: u8,
    bit_depth: u8,
    stride: usize,
    pixels: Seq<u8>,
    x: int,
    y: int,
)
    requires
        ({
            let r = entry_raster(color_type, bit_depth, w, stride, pixels);
            &&& is_whole(r, w as int, h as int)
            &&& stride == row_bytes(r.color_type, r.bit_depth, w as int)
        }),
        0 <= x < w,
        0 <= y < h,
    ensures
        ({
            let r = entry_raster(color_type, bit_depth, w, stride, pixels);
            let out = reduction(cli, w, h, color_type, bit_depth, stride, pixels);
            pixel_color(
                out.color_type,
                out.bit_depth,
                out.palette,
                out.trns,
                out.pixels,
                row_bytes(out.color_type, out.bit_depth, w as int),
                x,
                y,
            ) == pixel_color(r.color_type, r.bit_depth, None, None, pixels, stride as int, x, y)
        }),
{
    let r0 = entry_raster(color_type, bit_depth, w, stride, pixels);
    let p = y * w + x;
    assert(0 <= p < w * h) by (nonlinear_arith)
        requires 0 <= x < w, 0 <= y < h, p == y * w + x;
    lemma_tight(r0, w as int, x, y);
    lemma_depth_keeps(r0, w as int, h as int);
    let r1 = if cli.nx { r0 } else { depth_stage(cli, r0) };
    assert(color_of(r1, p) == color_of(r0, p));
    lemma_tight(r1, w as int, x, y);
    lemma_depth_stride(r0, w as int);
    if !cli.nx && !cli.nc {
        lemma_alpha_keeps(r1, w, h);
        let r2 = reduce_alpha(r1, w, h);
        assert(color_of(r2, p) == color_of(r1, p));
        lemma_gray_keeps(r2, w as int, h as int);
        let r3 = reduce_gray(r2);
        assert(color_of(r3, p) == color_of(r2, p));
        lemma_tight(r3, w as int, x, y);
        let size = rgb_size(r3.color_type);
        if palette_stage_applies(cli, r3) && is_indexable(r3.pixels, size) {
            let palette = palette_of(r3.pixels, size);
            lemma_index_keeps(
                r3,
                w,
                h,
                !cli.nb,
                if trns_bytes(palette).len() > 0 { Some(trns_bytes(palette)) } else { None },
                x,
                y,
            );
        }
    }
}

/// Without gaps between rows, column `x` of row `y` is pixel `y * w + x`.
pub proof fn lemma_tight(r: Raster, w: int, x: int, y: int)
    requires
        r.color_type != 3,
    ensures
        pixel_color(
            r.color_type,
            r.bit_depth,
            None,
            None,
            r.pixels,
            row_bytes(r.color_type, r.bit_depth, w),
            x,
            y,
        ) == color_of(r, y * w + x),
{
    let s = size_of(r);
    assert(y * (w * s) + x * s == (y * w + x) * s) by (nonlinear_arith);
}

/// Halving 16-bit samples halves rows.
pub proof fn lemma_depth_stride(r: Raster, w: int)
    requires
        r.color_type != 3,
        r.stride == row_bytes(r.color_type, r.bit_depth, w),
    ensures
        reduce_depth(r).stride == row_bytes(reduce_depth(r).color_type, reduce_depth(r).bit_depth, w),
{
    let n = samples(r.color_type);
    assert(w * (n * 2) == 2 * (w * (n * 1))) by (nonlinear_arith);
}

/// Nothing is read or written outside a whole image, whatever the options.
pub proof fn law_whole_images_are_in_range(
    cli: &CliArgs,
    w: u32,
    h: u32,
    color_type: u8,
    bit_depth: u8,
    stride: usize,
    pixels: Seq<u8>,
)
    requires
        ({
            let r = entry_raster(color_type, bit_depth, w, stride, pixels);
            &&& is_whole(r, w as int, h as int)
            &&& stride == row_bytes(r.color_type, r.bit_depth, w as int)
        }),
    ensures
        reduction_in_range(cli, w, h, color_type, bit_depth, stride, pixels),
{
    let r0 = entry_raster(color_type, bit_depth, w, stride, pixels);
    lemma_depth_keeps(r0, w as int, h as int);
    lemma_depth_stride(r0, w as int);
    let r1 = depth_stage(cli, r0);
    lemma_alpha_keeps(r1, w, h);
    let r2 = reduce_alpha(r1, w, h);
    lemma_gray_keeps(r2, w as int, h as int);
    let r3 = reduce_gray(r2);
    if palette_stage_applies(cli, r3) {
        let size = rgb_size(r3.color_type);
        assert(size == size_of(r3));
        assert(h == 0 || (h - 1) * w <= r3.pixels.len() as int / size) by (nonlinear_arith)
            requires h * (w * size) <= r3.pixels.len(), size > 0, 0 <= w, 0 <= h;
    }
}

/// An image that holds its rows and nothing more.
pub open spec fn is_exact(r: Raster, w: int, h: int) -> bool {
    is_whole(r, w, h) && r.pixels.len() == h * row_bytes(r.color_type, r.bit_depth, w)
}

pub proof fn lemma_depth_exact(r: Raster, w: int, h: int)
    requires
        is_exact(r, w, h),
        0 <= w,
        0 <= h,
    ensures
        is_exact(reduce_depth(r), w, h),
        reduce_depth(r).pixels.len() <= r.pixels.len(),
{
    lemma_depth_keeps(r, w, h);
    let n = samples(r.color_type);
    assert(h * (w * (n * 2)) == 2 * (h * (w * (n * 1)))) by (nonlinear_arith);
}

pub proof fn lemma_alpha_exact(r: Raster, w: u32, h: u32)
    requires
        is_exact(r, w as int, h as int),
        r.stride == row_bytes(r.color_type, r.bit_depth, w as int),
    ensures
        is_exact(reduce_alpha(r, w, h), w as int, h as int),
        reduce_alpha(r, w, h).pixels.len() <= r.pixels.len(),
{
    lemma_alpha_keeps(r, w, h);
    if alpha_reducible(r, w, h) {
        let (alpha, size) = alpha_layout(r.color_type, r.bit_depth);
        let d = reduce_alpha(r, w, h);
        let keep = (size - alpha) as nat;
        let n = (w * h) as nat;
        let pick = |p: int| r.pixels.subrange(
            pixel_offset(p, w as int, r.stride, size),
            pixel_offset(p, w as int, r.stride, size) + size - alpha,
        );
        assert forall|p: int| 0 <= p < n implies (#[trigger] pick(p)).len() == keep by {
            assert(opaque_at(r.pixels, w as int, r.stride, alpha, size, p));
            lemma_pixel_row(p, w as int, h as int);
            lemma_pixel_offset(p % (w as int), p / (w as int), w as int, r.stride, size);
            assert(0 <= (p / (w as int)) * r.stride && 0 <= (p % (w as int)) * size) by (nonlinear_arith)
                requires
                    0 <= p / (w as int),
                    0 <= p % (w as int),
                    0 <= r.stride,
                    0 <= size,
            ;
        }
        assert(0 <= r.stride) by (nonlinear_arith)
            requires
                r.stride == w * size,
                0 <= size,
                0 <= w,
        ;
        lemma_join_pixels_len(n, pick, keep);
        assert(h * (w * keep) == (w * h) * keep) by (nonlinear_arith);
        assert(keep == size_of(d));
        assert(h * (w * keep) <= h * (w * size)) by (nonlinear_arith)
            requires
                0 <= keep <= size,
                0 <= w,
                0 <= h,
        ;
    }
}

pub proof fn lemma_gray_exact(r: Raster, w: int, h: int)
    requires
        is_exact(r, w, h),
        0 <= w,
        0 <= h,
    ensures
        is_exact(reduce_gray(r), w, h),
        reduce_gray(r).pixels.len() <= r.pixels.len(),
{
    lemma_gray_keeps(r, w, h);
    if gray_reducible(r) {
        let d = reduce_gray(r);
        let (sample, size) = truecolor_layout(r.color_type, r.bit_depth);
        let n = (r.pixels.len() as int / size) as nat;
        let pick = |p: int| gray_pixel(r.pixels, sample, size, p);
        let out = size_of(d) as nat;
        assert(size == size_of(r));
        assert(n == w * h) by (nonlinear_arith)
            requires
                h * (w * size) == r.pixels.len(),
                size > 0,
                n == r.pixels.len() as int / size,
        ;
        assert forall|p: int| 0 <= p < n implies (#[trigger] pick(p)).len() == out by {
            assert(0 <= p * size && p * size + size <= r.pixels.len()) by (nonlinear_arith)
                requires
                    0 <= p < n,
                    size > 0,
                    n == r.pixels.len() as int / size,
            ;
        }
        lemma_join_pixels_len(n, pick, out);
        assert(h * (w * out) == (w * h) * out) by (nonlinear_arith);
        assert(h * (w * out) <= h * (w * size)) by (nonlinear_arith)
            requires
                0 <= out <= size,
                0 <= w,
                0 <= h,
        ;
    }
}

proof fn lemma_index_exact(r: Raster, w: u32, h: u32, packs: bool)
    requires
        is_exact(r, w as int, h as int),
        r.bit_depth == 8,
        is_truecolor(r.color_type),
        is_indexable(r.pixels, rgb_size(r.color_type)),
    ensures
        ({
            let size = rgb_size(r.color_type);
            let depth = index_depth(packs, palette_of(r.pixels, size).len() as int);
            let out = indexed_pixels(r.pixels, size, w as int, h as nat, depth);
            &&& out.len() == h * row_bytes(3, depth, w as int)
            &&& out.len() <= r.pixels.len()
        }),
{
    let size = rgb_size(r.color_type);
    let depth = index_depth(packs, palette_of(r.pixels, size).len() as int);
    let s = palette_indices(r.pixels, size);
    assert(size == size_of(r));
    assert(s.len() == w * h) by (nonlinear_arith)
        requires
            h * (w * size) == r.pixels.len(),
            size > 0,
            s.len() == r.pixels.len() as int / size,
    ;
    assert(h * w == w * h && w * h <= h * (w * size)) by (nonlinear_arith)
        requires
            size >= 1,
            0 <= w,
            0 <= h,
    ;
    if depth < 8 {
        let rb = row_bytes(3, depth, w as int);
        if h > 0 {
            lemma_pack_rows(s, w as int, h as nat, depth, 0);
        } else {
            assert(h * rb == 0) by (nonlinear_arith)
                requires
                    h == 0,
            ;
        }
        assert(rb <= w);
        assert(h * rb <= h * w) by (nonlinear_arith)
            requires
                rb <= w,
                0 <= h,
        ;
    } else {
        assert(row_bytes(3, 8, w as int) == w);
    }
}

/// Reducing an image gives one that again holds its rows and nothing more,
/// and that is no larger.
pub proof fn law_reduction_never_grows(
    cli: &CliArgs,
    w: u32,
    h: u32,
    color_type: u8,
    bit_depth: u8,
    stride: usize,
    pixels: Seq<u8>,
)
    requires
        ({
            let r = entry_raster(color_type, bit_depth, w, stride, pixels);
            &&& is_exact(r, w as int, h as int)
            &&& stride == row_bytes(r.color_type, r.bit_depth, w as int)
        }),
    ensures
        ({
            let out = reduction(cli, w, h, color_type, bit_depth, stride, pixels);
            &&& out.pixels.len() == h * row_bytes(out.color_type, out.bit_depth, w as int)
            &&& out.pixels.len() <= pixels.len()
        }),
{
    let r0 = entry_raster(color_type, bit_depth, w, stride, pixels);
    lemma_depth_exact(r0, w as int, h as int);
    lemma_depth_stride(r0, w as int);
    if !cli.nx && !cli.nc {
        let r1 = depth_stage(cli, r0);
        lemma_alpha_exact(r1, w, h);
        let r2 = reduce_alpha(r1, w, h);
        lemma_gray_exact(r2, w as int, h as int);
        let r3 = reduce_gray(r2);
        if palette_stage_applies(cli, r3) && is_indexable(r3.pixels, rgb_size(r3.color_type)) {
            lemma_index_exact(r3, w, h, !cli.nb);
        }
    }
}

/// The options switch reductions off: `nx` all of them, `nb` those of the bit
/// depth, `nc` those of the color type, `np` the palette. Nothing is said
/// about reductions in quiet mode. Images that were indexed, whose colors
/// arrive looked up in bytes, count as 8 bits deep.
pub proof fn law_options_switch_reductions_off(
    cli: &CliArgs,
    w: u32,
    h: u32,
    color_type: u8,
    bit_depth: u8,
    stride: usize,
    pixels: Seq<u8>,
)
    ensures
        ({
            let r = entry_raster(color_type, bit_depth, w, stride, pixels);
            let out = reduction(cli, w, h, color_type, bit_depth, stride, pixels);
            &&& cli.nx ==> out.pixels == pixels && out.color_type == r.color_type && out.bit_depth == r.bit_depth
            &&& cli.nb ==> out.bit_depth == r.bit_depth
            &&& cli.nb && color_type != 3 ==> out.bit_depth == bit_depth
            &&& cli.nc ==> out.color_type == r.color_type
            &&& cli.nx || cli.nc || cli.np ==> out.palette is None && out.trns is None
            &&& cli.quiet ==> out.notes.len() == 0
        }),
{
}

/// The encoder is handed whole rows: dividing the bytes of a reduced image
/// by its rows gives the bytes of a row.
pub proof fn law_encoder_gets_whole_rows(
    cli: &CliArgs,
    w: u32,
    h: u32,
    color_type: u8,
    bit_depth: u8,
    stride: usize,
    pixels: Seq<u8>,
)
    requires
        ({
            let r = entry_raster(color_type, bit_depth, w, stride, pixels);
            &&& is_exact(r, w as int, h as int)
            &&& stride == row_bytes(r.color_type, r.bit_depth, w as int)
        }),
        h > 0,
    ensures
        ({
            let out = reduction(cli, w, h, color_type, bit_depth, stride, pixels);
            bytes_per_row(out.pixels.len() as int, h as int) == row_bytes(out.color_type, out.bit_depth, w as int)
        }),
{
    law_reduction_never_grows(cli, w, h, color_type, bit_depth, stride, pixels);
    let out = reduction(cli, w, h, color_type, bit_depth, stride, pixels);
    let rb = row_bytes(out.color_type, out.bit_depth, w as int);
    assert(h * rb == rb * h) by (nonlinear_arith);
    lemma_fundamental_div_mod_converse(out.pixels.len() as int, h as int, rb, 0);
}

}
