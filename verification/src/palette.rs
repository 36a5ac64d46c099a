//! Reduction of truecolor images with few colors to indexed ones.
use crate::raster::join_pixels;
use std::collections::{HashMap, HashSet};
use vstd::prelude::*;

verus! {

broadcast use vstd::std_specs::hash::group_hash_axioms;

/// A color with 8-bit samples.
#[derive(Debug, Clone, Copy, PartialEq, Eq, Structural)]
pub struct Rgba {
    pub r: u8,
    pub g: u8,
    pub b: u8,
    pub a: u8,
}

/// The color of pixel `p` in a buffer of RGB (`size` 3) or RGBA (`size` 4)
/// pixels. RGB pixels are opaque.
pub open spec fn color_at(pixels: Seq<u8>, size: int, p: int) -> Rgba {
    let s = p * size;
    Rgba {
        r: pixels[s],
        g: pixels[s + 1],
        b: pixels[s + 2],
        a: if size == 4 { pixels[s + 3] } else { 255 },
    }
}

/// The colors of all whole pixels.
pub open spec fn colors(pixels: Seq<u8>, size: int) -> Seq<Rgba> {
    Seq::new((pixels.len() as int / size) as nat, |p: int| color_at(pixels, size, p))
}

/// The colors of `s` without repetitions, in the order in which they first
/// appear.
pub open spec fn distinct(s: Seq<Rgba>) -> Seq<Rgba>
    decreases s.len(),
{
    if s.len() == 0 {
        s
    } else {
        let d = distinct(s.drop_last());
        if d.contains(s.last()) { d } else { d.push(s.last()) }
    }
}

pub open spec fn has_alpha(c: Rgba, a: int) -> bool {
    c.a == a
}

/// The colors of `s` with an alpha below `n`, by ascending alpha; colors of
/// equal alpha keep their order.
pub open spec fn by_alpha(s: Seq<Rgba>, n: nat) -> Seq<Rgba>
    decreases n,
{
    if n == 0 {
        Seq::empty()
    } else {
        by_alpha(s, (n - 1) as nat) + s.filter(|c: Rgba| has_alpha(c, n - 1))
    }
}

/// The palette of an image: its colors, those with the lowest alpha first.
pub open spec fn palette_of(pixels: Seq<u8>, size: int) -> Seq<Rgba> {
    by_alpha(distinct(colors(pixels, size)), 256)
}

/// `distinct` keeps every color, once.
pub proof fn lemma_distinct(s: Seq<Rgba>)
    ensures
        distinct(s).no_duplicates(),
        distinct(s).len() <= s.len(),
        forall|c: Rgba| #![trigger distinct(s).contains(c)] #![trigger s.contains(c)]
            distinct(s).contains(c) <==> s.contains(c),
    decreases s.len(),
{
    if s.len() > 0 {
        let t = s.drop_last();
        let d = distinct(t);
        lemma_distinct(t);
        assert forall|c: Rgba| distinct(s).contains(c) <==> s.contains(c) by {
            if s.contains(c) {
                let i = choose|i: int| 0 <= i < s.len() && s[i] == c;
                if i < t.len() {
                    assert(t[i] == c);
                    assert(t.contains(c));
                    assert(d.contains(c));
                    let j = choose|j: int| 0 <= j < d.len() && d[j] == c;
                    assert(distinct(s)[j] == c);
                } else if !d.contains(c) {
                    assert(distinct(s)[d.len() as int] == c);
                }
            }
            if distinct(s).contains(c) {
                let j = choose|j: int| 0 <= j < distinct(s).len() && distinct(s)[j] == c;
                if j < d.len() {
                    assert(d[j] == c);
                    assert(t.contains(c));
                    let i = choose|i: int| 0 <= i < t.len() && t[i] == c;
                    assert(s[i] == c);
                } else {
                    assert(s[s.len() - 1] == c);
                }
            }
        }
    }
}

/// A longer sequence has no fewer distinct colors.
proof fn lemma_distinct_monotonic(s: Seq<Rgba>, n: int)
    requires
        0 <= n <= s.len(),
    ensures
        distinct(s.take(n)).len() <= distinct(s).len(),
    decreases s.len(),
{
    if n == s.len() {
        assert(s.take(n) =~= s);
    } else {
        lemma_distinct_monotonic(s.drop_last(), n);
        assert(s.drop_last().take(n) =~= s.take(n));
    }
}

/// Sorting by alpha keeps every color with an alpha below `n`.
proof fn lemma_by_alpha_contains(s: Seq<Rgba>, n: nat)
    ensures
        forall|c: Rgba| #![trigger by_alpha(s, n).contains(c)] #![trigger s.contains(c)]
            by_alpha(s, n).contains(c) <==> s.contains(c) && c.a < n,
    decreases n,
{
    if n > 0 {
        let m = (n - 1) as nat;
        let pred = |c: Rgba| has_alpha(c, n - 1);
        let f = s.filter(pred);
        let head = by_alpha(s, m);
        lemma_by_alpha_contains(s, m);
        assert(by_alpha(s, n) == head + f);
        broadcast use vstd::seq_lib::group_filter_ensures;
        assert forall|c: Rgba| by_alpha(s, n).contains(c) <==> s.contains(c) && c.a < n by {
            if s.contains(c) && c.a < n {
                if c.a < m {
                    assert(head.contains(c));
                    let i = choose|i: int| 0 <= i < head.len() && head[i] == c;
                    assert((head + f)[i] == c);
                } else {
                    let i = choose|i: int| 0 <= i < s.len() && s[i] == c;
                    assert(pred(s[i]));
                    assert(f.contains(s[i]));
                    let j = choose|j: int| 0 <= j < f.len() && f[j] == c;
                    assert((head + f)[head.len() + j] == c);
                }
            }
            if by_alpha(s, n).contains(c) {
                let i = choose|i: int| 0 <= i < (head + f).len() && (head + f)[i] == c;
                if i < head.len() {
                    assert(head[i] == c);
                    assert(head.contains(c));
                } else {
                    assert(f[i - head.len()] == c);
                    assert(pred(f[i - head.len()]));
                    lemma_filter_from(s, pred, i - head.len());
                }
            }
        }
    } else {
        assert(by_alpha(s, n) =~= Seq::empty());
    }
}

/// What a filter keeps was there before.
proof fn lemma_filter_from(s: Seq<Rgba>, pred: spec_fn(Rgba) -> bool, i: int)
    requires
        0 <= i < s.filter(pred).len(),
    ensures
        s.contains(s.filter(pred)[i]),
    decreases s.len(),
{
    reveal(Seq::filter);
    if s.len() > 0 {
        let t = s.drop_last();
        if i < t.filter(pred).len() {
            lemma_filter_from(t, pred, i);
            let j = choose|j: int| 0 <= j < t.len() && t[j] == t.filter(pred)[i];
            assert(s[j] == s.filter(pred)[i]);
        } else {
            assert(s[s.len() - 1] == s.filter(pred)[i]);
        }
    }
}

/// A filter does not repeat what was not repeated.
proof fn lemma_filter_no_duplicates(s: Seq<Rgba>, pred: spec_fn(Rgba) -> bool)
    requires
        s.no_duplicates(),
    ensures
        s.filter(pred).no_duplicates(),
    decreases s.len(),
{
    reveal(Seq::filter);
    if s.len() > 0 {
        let t = s.drop_last();
        lemma_filter_no_duplicates(t, pred);
        let f = t.filter(pred);
        assert forall|i: int, j: int| 0 <= i < s.filter(pred).len() && 0 <= j < s.filter(pred).len() && i != j
            implies s.filter(pred)[i] != s.filter(pred)[j] by {
            if i == f.len() || j == f.len() {
                let k = if i == f.len() { j } else { i };
                lemma_filter_from(t, pred, k);
                let m = choose|m: int| 0 <= m < t.len() && t[m] == f[k];
                assert(s[m] != s[s.len() - 1]);
            }
        }
    }
}

proof fn lemma_by_alpha_no_duplicates(s: Seq<Rgba>, n: nat)
    requires
        s.no_duplicates(),
    ensures
        by_alpha(s, n).no_duplicates(),
    decreases n,
{
    if n > 0 {
        let m = (n - 1) as nat;
        let pred = |c: Rgba| has_alpha(c, n - 1);
        let f = s.filter(pred);
        let head = by_alpha(s, m);
        lemma_by_alpha_no_duplicates(s, m);
        lemma_by_alpha_contains(s, m);
        lemma_filter_no_duplicates(s, pred);
        broadcast use vstd::seq_lib::group_filter_ensures;
        assert forall|i: int, j: int| 0 <= i < (head + f).len() && 0 <= j < (head + f).len() && i != j
            implies (head + f)[i] != (head + f)[j] by {
            if i < head.len() && j >= head.len() {
                assert(head.contains(head[i]));
                assert(head[i].a < m);
                assert(pred(f[j - head.len()]));
                assert(f[j - head.len()].a == m);
            } else if j < head.len() && i >= head.len() {
                assert(head.contains(head[j]));
                assert(head[j].a < m);
                assert(pred(f[i - head.len()]));
                assert(f[i - head.len()].a == m);
            } else if i < head.len() {
                assert(head[i] != head[j]);
            } else {
                assert(f[i - head.len()] != f[j - head.len()]);
            }
        }
    }
}

/// Sorting distinct colors by alpha loses and repeats none.
pub proof fn lemma_sorted_by_alpha(s: Seq<Rgba>)
    requires
        s.no_duplicates(),
    ensures
        by_alpha(s, 256).no_duplicates(),
        by_alpha(s, 256).len() == s.len(),
        forall|c: Rgba| #![trigger by_alpha(s, 256).contains(c)] #![trigger s.contains(c)]
            by_alpha(s, 256).contains(c) <==> s.contains(c),
{
    let t = by_alpha(s, 256);
    lemma_by_alpha_contains(s, 256);
    lemma_by_alpha_no_duplicates(s, 256);
    s.unique_seq_to_set();
    t.unique_seq_to_set();
    assert(s.to_set() =~= t.to_set()) by {
        assert forall|c: Rgba| s.to_set().contains(c) <==> t.to_set().contains(c) by {
            assert(t.contains(c) <==> s.contains(c));
        }
    }
}

/// A number that no other color has.
pub open spec fn key_of(c: Rgba) -> u32 {
    (c.r + 256 * c.g + 65536 * c.b + 16777216 * c.a) as u32
}

proof fn lemma_key(c: Rgba, d: Rgba)
    requires
        key_of(c) == key_of(d),
    ensures
        c == d,
{
    let low = |x: Rgba| x.b + 256 * x.a;
    let mid = |x: Rgba| x.g + 256 * low(x);
    assert(key_of(c) == c.r + 256 * mid(c));
    assert(key_of(d) == d.r + 256 * mid(d));
    lemma_digit(c.r as int, mid(c), d.r as int, mid(d));
    lemma_digit(c.g as int, low(c), d.g as int, low(d));
    lemma_digit(c.b as int, c.a as int, d.b as int, d.a as int);
}

/// A number has one lowest byte.
proof fn lemma_digit(a: int, b: int, x: int, y: int)
    requires
        a + 256 * b == x + 256 * y,
        0 <= a < 256,
        0 <= x < 256,
    ensures
        a == x,
        b == y,
{
}

fn color_key(c: &Rgba) -> (k: u32)
    ensures
        k == key_of(*c),
{
    c.r as u32 + 256 * (c.g as u32) + 65536 * (c.b as u32) + 16777216 * (c.a as u32)
}

fn read_color(pixels: &Vec<u8>, size: usize, p: usize) -> (c: Rgba)
    requires
        size == 3 || size == 4,
        p < pixels@.len() / size as nat,
    ensures
        c == color_at(pixels@, size as int, p as int),
{
    let len: usize = pixels.len();
    assert(p * size + size <= len) by (nonlinear_arith)
        requires size == 3 || size == 4, p < len as int / size as int;
    let s: usize = p * size;
    Rgba {
        r: pixels[s],
        g: pixels[s + 1],
        b: pixels[s + 2],
        a: if size == 4 { pixels[s + 3] } else { 255 },
    }
}

/// Collects the distinct colors, unless there are more than 256.
fn collect_distinct(pixels: &Vec<u8>, size: usize) -> (out: Option<Vec<Rgba>>)
    requires
        size == 3 || size == 4,
    ensures
        out is Some <==> distinct(colors(pixels@, size as int)).len() <= 256,
        out is Some ==> out->0@ == distinct(colors(pixels@, size as int)),
{
    let ghost all = colors(pixels@, size as int);
    let n: usize = pixels.len() / size;
    let mut found: Vec<Rgba> = Vec::new();
    let mut seen: HashSet<u32> = HashSet::new();
    let mut p: usize = 0;
    proof {
        assert(all.take(0) =~= Seq::empty());
        assert(found@ =~= distinct(all.take(0)));
    }
    while p < n
        invariant
            size == 3 || size == 4,
            n == pixels@.len() / size as nat,
            p <= n,
            all == colors(pixels@, size as int),
            found@ == distinct(all.take(p as int)),
            found@.len() <= 256,
            forall|k: u32| #[trigger] seen@.contains(k)
                <==> exists|i: int| 0 <= i < found@.len() && key_of(#[trigger] found@[i]) == k,
        decreases n - p,
    {
        let c = read_color(pixels, size, p);
        let k: u32 = color_key(&c);
        proof {
            assert(all.take(p + 1).drop_last() =~= all.take(p as int));
            assert(all.take(p + 1).last() == c);
            if seen@.contains(k) {
                let i = choose|i: int| 0 <= i < found@.len() && key_of(#[trigger] found@[i]) == k;
                lemma_key(found@[i], c);
                assert(found@.contains(c));
            } else if found@.contains(c) {
                let i = choose|i: int| 0 <= i < found@.len() && found@[i] == c;
                assert(key_of(found@[i]) == k);
            }
        }
        if !seen.contains(&k) {
            if found.len() >= 256 {
                proof {
                    lemma_distinct_monotonic(all, p + 1);
                }
                return None;
            }
            let ghost before = found@;
            seen.insert(k);
            found.push(c);
            assert forall|j: u32| #[trigger] seen@.contains(j)
                <==> exists|i: int| 0 <= i < found@.len() && key_of(#[trigger] found@[i]) == j by {
                if j == k {
                    assert(key_of(found@[before.len() as int]) == j);
                } else if seen@.contains(j) {
                    let i = choose|i: int| 0 <= i < before.len() && key_of(#[trigger] before[i]) == j;
                    assert(found@[i] == before[i]);
                } else if exists|i: int| 0 <= i < found@.len() && key_of(#[trigger] found@[i]) == j {
                    let i = choose|i: int| 0 <= i < found@.len() && key_of(#[trigger] found@[i]) == j;
                    assert(before[i] == found@[i]);
                }
            }
        }
        p = p + 1;
    }
    assert(all.take(n as int) =~= all);
    Some(found)
}

/// Sorts colors by alpha, keeping the order among equals.
fn order_by_alpha(found: &Vec<Rgba>) -> (out: Vec<Rgba>)
    ensures
        out@ == by_alpha(found@, 256),
{
    let mut out: Vec<Rgba> = Vec::new();
    let mut a: u16 = 0;
    while a < 256
        invariant
            a <= 256,
            out@ == by_alpha(found@, a as nat),
        decreases 256 - a,
    {
        let ghost head = out@;
        let ghost pred = |c: Rgba| has_alpha(c, (a + 1) - 1);
        let mut i: usize = 0;
        assert(found@.take(0).filter(pred) =~= Seq::empty()) by {
            reveal(Seq::filter);
        }
        while i < found.len()
            invariant
                i <= found@.len(),
                a < 256,
                pred == (|c: Rgba| has_alpha(c, (a + 1) - 1)),
                out@ == head + found@.take(i as int).filter(pred),
            decreases found@.len() - i,
        {
            proof {
                reveal(Seq::filter);
                assert(found@.take(i + 1).drop_last() =~= found@.take(i as int));
            }
            if found[i].a as u16 == a {
                out.push(found[i]);
            }
            i = i + 1;
        }
        assert(found@.take(i as int) =~= found@);
        a = a + 1;
    }
    out
}

/// The bytes of the PLTE chunk: red, green and blue of each color.
pub open spec fn plte_bytes(palette: Seq<Rgba>) -> Seq<u8> {
    join_pixels(palette.len(), |i: int| seq![palette[i].r, palette[i].g, palette[i].b])
}

/// Drops the trailing 255s.
pub open spec fn trim_opaque(s: Seq<u8>) -> Seq<u8>
    decreases s.len(),
{
    if s.len() > 0 && s.last() == 255 {
        trim_opaque(s.drop_last())
    } else {
        s
    }
}

/// The bytes of the tRNS chunk: the alphas of the palette up to the last one
/// that is not opaque.
pub open spec fn trns_bytes(palette: Seq<Rgba>) -> Seq<u8> {
    trim_opaque(palette.map_values(|c: Rgba| c.a))
}

/// For each pixel, the place of its color in the palette.
pub open spec fn palette_indices(pixels: Seq<u8>, size: int) -> Seq<u8> {
    colors(pixels, size).map_values(|c: Rgba| palette_of(pixels, size).index_of(c) as u8)
}

/// The bits that an index into a palette of `count` colors takes.
pub open spec fn depth_for(count: int) -> u8 {
    if count <= 2 {
        1
    } else if count <= 4 {
        2
    } else if count <= 16 {
        4
    } else {
        8
    }
}

/// The bits of an index into a palette of `count` colors: as few as it takes
/// where indices are packed, and a byte otherwise.
pub open spec fn index_depth(packs: bool, count: int) -> u8 {
    if packs { depth_for(count) } else { 8 }
}

/// The number of values that `depth` bits can have.
pub open spec fn levels(depth: u8) -> int {
    if depth == 1 {
        2
    } else if depth == 2 {
        4
    } else if depth == 4 {
        16
    } else {
        256
    }
}

/// What index `j` of a byte counts for in the byte's value: the first index
/// takes the high-order bits.
pub open spec fn place_value(depth: u8, j: nat) -> int
    decreases j,
{
    if j == 0 {
        256int / levels(depth)
    } else {
        place_value(depth, (j - 1) as nat) / levels(depth)
    }
}

/// The value of the byte that holds the first `j` indices of `s` from
/// position `from` on, its other bits zero.
pub open spec fn packed_value(s: Seq<u8>, depth: u8, from: int, j: nat) -> int
    decreases j,
{
    if j == 0 {
        0
    } else {
        packed_value(s, depth, from, (j - 1) as nat) + s[from + j - 1] * place_value(depth, (j - 1) as nat)
    }
}

/// How many indices fit into a byte.
pub open spec fn per_byte(depth: u8) -> int {
    if depth == 1 {
        8
    } else if depth == 2 {
        4
    } else if depth == 4 {
        2
    } else {
        1
    }
}

/// How many indices byte `k` of a packed row holds, of a row of `len`.
pub open spec fn filled(len: int, depth: u8, k: int) -> nat {
    if len - k * per_byte(depth) < per_byte(depth) {
        (len - k * per_byte(depth)) as nat
    } else {
        per_byte(depth) as nat
    }
}

/// One row of indices packed into bytes. The last byte is padded with zero
/// bits.
pub open spec fn pack_row(s: Seq<u8>, depth: u8) -> Seq<u8> {
    Seq::new(
        ((s.len() + per_byte(depth) - 1) / per_byte(depth)) as nat,
        |k: int| packed_value(s, depth, k * per_byte(depth), filled(s.len() as int, depth, k)) as u8,
    )
}

/// The indices of row `r`: `w` of them, or what is left.
pub open spec fn index_row(s: Seq<u8>, w: int, r: int) -> Seq<u8> {
    s.subrange(r * w, if r * w + w < s.len() { r * w + w } else { s.len() as int })
}

/// The first `h` rows of `w` indices, each packed by itself.
pub open spec fn pack_rows(s: Seq<u8>, w: int, h: nat, depth: u8) -> Seq<u8>
    decreases h,
{
    if h == 0 {
        Seq::empty()
    } else {
        pack_rows(s, w, (h - 1) as nat, depth) + pack_row(index_row(s, w, h - 1), depth)
    }
}

/// The pixels of the indexed image: one byte per index at depth 8, and rows
/// of packed indices at any lower depth.
pub open spec fn indexed_pixels(pixels: Seq<u8>, size: int, w: int, h: nat, depth: u8) -> Seq<u8> {
    if depth < 8 {
        pack_rows(palette_indices(pixels, size), w, h, depth)
    } else {
        palette_indices(pixels, size)
    }
}

/// An image can be indexed if it has a pixel and at most 256 colors.
pub open spec fn is_indexable(pixels: Seq<u8>, size: int) -> bool {
    0 < distinct(colors(pixels, size)).len() <= 256
}

/// Every row starts within the pixels wherever rows are packed.
pub open spec fn rows_packable(pixels: Seq<u8>, size: int, w: int, h: int) -> bool {
    is_indexable(pixels, size) && depth_for(palette_of(pixels, size).len() as int) < 8
        ==> h == 0 || (h - 1) * w <= pixels.len() as int / size
}

/// The palette of an indexable image holds each of its colors, once.
pub proof fn lemma_palette(pixels: Seq<u8>, size: int)
    requires
        is_indexable(pixels, size),
    ensures
        palette_of(pixels, size).no_duplicates(),
        0 < palette_of(pixels, size).len() <= 256,
        forall|p: int| 0 <= p < colors(pixels, size).len()
            ==> palette_of(pixels, size).contains(#[trigger] colors(pixels, size)[p]),
{
    let s = colors(pixels, size);
    lemma_distinct(s);
    lemma_sorted_by_alpha(distinct(s));
    assert forall|p: int| 0 <= p < s.len() implies palette_of(pixels, size).contains(#[trigger] s[p]) by {
        assert(s.contains(s[p]));
        assert(distinct(s).contains(s[p]));
    }
}

/// An indexed image.
pub struct Indexed {
    pub bit_depth: u8,
    pub pixels: Vec<u8>,
    pub palette: Vec<u8>,
    pub trns: Vec<u8>,
    pub count: usize,
}

fn plte(palette: &Vec<Rgba>) -> (out: Vec<u8>)
    ensures
        out@ == plte_bytes(palette@),
{
    let ghost pick = |i: int| seq![palette@[i].r, palette@[i].g, palette@[i].b];
    let mut out: Vec<u8> = Vec::new();
    let mut i: usize = 0;
    while i < palette.len()
        invariant
            i <= palette@.len(),
            pick == (|i: int| seq![palette@[i].r, palette@[i].g, palette@[i].b]),
            out@ == join_pixels(i as nat, pick),
        decreases palette@.len() - i,
    {
        let ghost before = out@;
        out.push(palette[i].r);
        out.push(palette[i].g);
        out.push(palette[i].b);
        assert(out@ =~= before + pick(i as int));
        i = i + 1;
    }
    out
}

fn trns(palette: &Vec<Rgba>) -> (out: Vec<u8>)
    ensures
        out@ == trns_bytes(palette@),
{
    let ghost alphas = palette@.map_values(|c: Rgba| c.a);
    let mut out: Vec<u8> = Vec::new();
    let mut i: usize = 0;
    while i < palette.len()
        invariant
            i <= palette@.len(),
            alphas == palette@.map_values(|c: Rgba| c.a),
            out@ == alphas.take(i as int),
        decreases palette@.len() - i,
    {
        out.push(palette[i].a);
        assert(alphas.take(i + 1) =~= alphas.take(i as int).push(palette@[i as int].a));
        i = i + 1;
    }
    assert(out@ =~= alphas);
    while out.len() > 0 && out[out.len() - 1] == 255
        invariant
            trim_opaque(out@) == trim_opaque(alphas),
        decreases out@.len(),
    {
        let ghost before = out@;
        out.pop();
        assert(out@ =~= before.drop_last());
    }
    out
}

/// Looks every pixel up in the palette.
fn index_pixels(pixels: &Vec<u8>, size: usize, palette: &Vec<Rgba>) -> (out: Vec<u8>)
    requires
        size == 3 || size == 4,
        is_indexable(pixels@, size as int),
        palette@ == palette_of(pixels@, size as int),
    ensures
        out@ == palette_indices(pixels@, size as int),
{
    proof {
        lemma_palette(pixels@, size as int);
    }
    let mut places: HashMap<u32, u8> = HashMap::new();
    let count: usize = palette.len();
    let mut i: usize = 0;
    while i < count
        invariant
            i <= count,
            count == palette@.len(),
            count <= 256,
            palette@.no_duplicates(),
            forall|j: int| 0 <= j < i ==> #[trigger] places@.contains_key(key_of(palette@[j]))
                && places@[key_of(palette@[j])] == j,
        decreases count - i,
    {
        let ghost before = places@;
        let c = palette[i];
        places.insert(color_key(&c), i as u8);
        assert forall|j: int| 0 <= j < i + 1 implies #[trigger] places@.contains_key(key_of(palette@[j]))
            && places@[key_of(palette@[j])] == j by {
            if j < i {
                assert(before.contains_key(key_of(palette@[j])));
                if key_of(palette@[j]) == key_of(c) {
                    lemma_key(palette@[j], c);
                    assert(palette@[j] != palette@[i as int]);
                }
            }
        }
        i = i + 1;
    }
    let ghost all = colors(pixels@, size as int);
    let n: usize = pixels.len() / size;
    let mut out: Vec<u8> = Vec::new();
    let mut p: usize = 0;
    while p < n
        invariant
            size == 3 || size == 4,
            n == pixels@.len() / size as nat,
            p <= n,
            all == colors(pixels@, size as int),
            palette@ == palette_of(pixels@, size as int),
            palette@.no_duplicates(),
            palette@.len() <= 256,
            forall|q: int| 0 <= q < all.len() ==> palette@.contains(#[trigger] all[q]),
            forall|j: int| 0 <= j < palette@.len() ==> #[trigger] places@.contains_key(key_of(palette@[j]))
                && places@[key_of(palette@[j])] == j,
            out@ == palette_indices(pixels@, size as int).take(p as int),
        decreases n - p,
    {
        let c = read_color(pixels, size, p);
        let ghost place = palette@.index_of(c);
        proof {
            assert(all[p as int] == c);
            assert(palette@.contains(c));
            assert(0 <= place < palette@.len() && palette@[place] == c);
            assert(places@.contains_key(key_of(palette@[place])));
        }
        let idx: u8 = match places.get(&color_key(&c)) {
            Some(v) => *v,
            None => 0,
        };
        out.push(idx);
        assert(palette_indices(pixels@, size as int).take(p + 1)
            =~= palette_indices(pixels@, size as int).take(p as int).push(idx));
        p = p + 1;
    }
    assert(out@ =~= palette_indices(pixels@, size as int));
    out
}

/// The place values of a byte: each is a `levels`-th of the one before.
pub proof fn lemma_place_value(depth: u8, j: nat)
    requires
        depth == 1 || depth == 2 || depth == 4,
        j < per_byte(depth),
    ensures
        0 < place_value(depth, j),
        j == 0 ==> place_value(depth, j) * levels(depth) == 256,
        j > 0 ==> place_value(depth, j) * levels(depth) == place_value(depth, (j - 1) as nat),
        place_value(depth, j) <= 128,
{
    reveal_with_fuel(place_value, 9);
    if depth == 1 {
        assert(j == 0 || j == 1 || j == 2 || j == 3 || j == 4 || j == 5 || j == 6 || j == 7);
    } else if depth == 2 {
        assert(j == 0 || j == 1 || j == 2 || j == 3);
    } else {
        assert(j == 0 || j == 1);
    }
}

/// A byte that is filled by `j` indices leaves room for the rest.
pub proof fn lemma_packed_value(s: Seq<u8>, depth: u8, from: int, j: nat)
    requires
        depth == 1 || depth == 2 || depth == 4,
        j <= per_byte(depth),
        forall|i: int| from <= i < from + j ==> #[trigger] s[i] < levels(depth),
    ensures
        0 <= packed_value(s, depth, from, j),
        j == 0 ==> packed_value(s, depth, from, j) == 0,
        j > 0 ==> packed_value(s, depth, from, j) + place_value(depth, (j - 1) as nat) <= 256,
    decreases j,
{
    if j > 0 {
        let m = (j - 1) as nat;
        lemma_packed_value(s, depth, from, m);
        lemma_place_value(depth, m);
        let v = s[from + m] as int;
        let pv = place_value(depth, m);
        assert(0 <= v * pv && v * pv + pv <= pv * levels(depth)) by (nonlinear_arith)
            requires 0 <= v < levels(depth), 0 < pv;
    }
}

/// Packs `n` indices of a row into a byte.
fn pack_byte(row: &[u8], depth: u8, from: usize, n: usize) -> (b: u8)
    requires
        depth == 1 || depth == 2 || depth == 4,
        n <= per_byte(depth),
        from + n <= row@.len(),
        forall|i: int| 0 <= i < row@.len() ==> #[trigger] row@[i] < levels(depth),
    ensures
        b == packed_value(row@, depth, from as int, n as nat),
{
    let base: u16 = if depth == 1 {
        2
    } else if depth == 2 {
        4
    } else {
        16
    };
    let len: usize = row.len();
    let mut value: u16 = 0;
    let mut place: u16 = 256;
    let mut j: usize = 0;
    while j < n
        invariant
            depth == 1 || depth == 2 || depth == 4,
            j <= n <= per_byte(depth),
            from + n <= len,
            len == row@.len(),
            base == levels(depth),
            forall|i: int| 0 <= i < row@.len() ==> #[trigger] row@[i] < levels(depth),
            value == packed_value(row@, depth, from as int, j as nat),
            place == (if j == 0 { 256 } else { place_value(depth, (j - 1) as nat) }),
        decreases n - j,
    {
        proof {
            lemma_place_value(depth, j as nat);
            lemma_packed_value(row@, depth, from as int, j as nat);
            lemma_packed_value(row@, depth, from as int, (j + 1) as nat);
            if j == 0 {
                assert(place as int / base as int == place_value(depth, 0));
            }
        }
        place = place / base;
        let idx: u16 = row[from + j] as u16;
        assert(idx * place <= 256) by (nonlinear_arith)
            requires 0 <= idx < base, place * base <= 256, 0 <= place;
        value = value + idx * place;
        j = j + 1;
    }
    proof {
        lemma_packed_value(row@, depth, from as int, n as nat);
        if n > 0 {
            lemma_place_value(depth, (n - 1) as nat);
        }
    }
    value as u8
}

/// Appends a row of indices to `out`, packed into bytes.
fn append_packed_row(out: &mut Vec<u8>, row: &[u8], depth: u8)
    requires
        depth == 1 || depth == 2 || depth == 4,
        forall|i: int| 0 <= i < row@.len() ==> #[trigger] row@[i] < levels(depth),
    ensures
        final(out)@ == old(out)@ + pack_row(row@, depth),
{
    let ghost before = out@;
    let per: usize = if depth == 1 {
        8
    } else if depth == 2 {
        4
    } else {
        2
    };
    let len: usize = row.len();
    let mut i: usize = 0;
    let ghost mut k: int = 0;
    while i < len
        invariant
            depth == 1 || depth == 2 || depth == 4,
            per == per_byte(depth),
            len == row@.len(),
            forall|i: int| 0 <= i < row@.len() ==> #[trigger] row@[i] < levels(depth),
            0 <= k <= pack_row(row@, depth).len(),
            i == len || i == k * per,
            i <= len,
            i == len ==> k == pack_row(row@, depth).len(),
            out@ == before + pack_row(row@, depth).take(k),
        decreases len - i,
    {
        let n: usize = if len - i < per { len - i } else { per };
        assert(n == filled(len as int, depth, k));
        let b: u8 = pack_byte(row, depth, i, n);
        out.push(b);
        i = i + n;
        proof {
            assert(k < pack_row(row@, depth).len());
            assert(b == pack_row(row@, depth)[k]);
            assert(pack_row(row@, depth).take(k + 1) =~= pack_row(row@, depth).take(k).push(b));
            k = k + 1;
        }
    }
    assert(pack_row(row@, depth).take(k) =~= pack_row(row@, depth));
}

/// Packs the first `height` rows of `width` indices.
fn pack_indices(indices: &Vec<u8>, width: u32, height: u32, depth: u8) -> (out: Vec<u8>)
    requires
        depth == 1 || depth == 2 || depth == 4,
        forall|i: int| 0 <= i < indices@.len() ==> #[trigger] indices@[i] < levels(depth),
        height == 0 || (height - 1) * width <= indices@.len(),
    ensures
        out@ == pack_rows(indices@, width as int, height as nat, depth),
{
    let len: usize = indices.len();
    let mut out: Vec<u8> = Vec::new();
    let mut r: u32 = 0;
    while r < height
        invariant
            depth == 1 || depth == 2 || depth == 4,
            len == indices@.len(),
            r <= height,
            height == 0 || (height - 1) * width <= len,
            forall|i: int| 0 <= i < indices@.len() ==> #[trigger] indices@[i] < levels(depth),
            out@ == pack_rows(indices@, width as int, r as nat, depth),
        decreases height - r,
    {
        assert(0 <= r * width <= (height - 1) * width) by (nonlinear_arith)
            requires 0 <= r <= height - 1, 0 <= width;
        let start: usize = r as usize * width as usize;
        let end: usize = if len - start < width as usize { len } else { start + width as usize };
        append_packed_row(&mut out, &indices[start..end], depth);
        assert(indices@.subrange(start as int, end as int) == index_row(indices@, width as int, r as int));
        r = r + 1;
    }
    out
}

/// Indexes the image unless it has no pixel or more than 256 colors, and
/// packs its indices if `packs`.
pub fn index_image(pixels: &Vec<u8>, size: usize, width: u32, height: u32, packs: bool) -> (out: Option<Indexed>)
    requires
        size == 3 || size == 4,
        packs ==> rows_packable(pixels@, size as int, width as int, height as int),
    ensures
        out is Some <==> is_indexable(pixels@, size as int),
        out matches Some(img) ==> {
            let palette = palette_of(pixels@, size as int);
            &&& img.bit_depth == index_depth(packs, palette.len() as int)
            &&& img.pixels@ == indexed_pixels(pixels@, size as int, width as int, height as nat, img.bit_depth)
            &&& img.palette@ == plte_bytes(palette)
            &&& img.trns@ == trns_bytes(palette)
            &&& img.count == palette.len()
        },
{
    let found = match collect_distinct(pixels, size) {
        Some(found) => found,
        None => {
            return None;
        },
    };
    if found.len() == 0 {
        return None;
    }
    let palette = order_by_alpha(&found);
    proof {
        lemma_palette(pixels@, size as int);
    }
    let count: usize = palette.len();
    let indices = index_pixels(pixels, size, &palette);
    let depth: u8 = if !packs {
        8
    } else if count <= 2 {
        1
    } else if count <= 4 {
        2
    } else if count <= 16 {
        4
    } else {
        8
    };
    let packed = if depth < 8 {
        proof {
            lemma_index_range(pixels@, size as int);
        }
        pack_indices(&indices, width, height, depth)
    } else {
        indices
    };
    Some(Indexed { bit_depth: depth, pixels: packed, palette: plte(&palette), trns: trns(&palette), count })
}

/// Indices point into the palette.
pub proof fn lemma_index_range(pixels: Seq<u8>, size: int)
    requires
        is_indexable(pixels, size),
    ensures
        forall|p: int| #![trigger palette_indices(pixels, size)[p]]
            0 <= p < colors(pixels, size).len() ==> {
                &&& 0 <= palette_indices(pixels, size)[p] < palette_of(pixels, size).len()
                &&& palette_of(pixels, size)[palette_indices(pixels, size)[p] as int] == colors(pixels, size)[p]
            },
{
    lemma_palette(pixels, size);
    assert forall|p: int| #![trigger palette_indices(pixels, size)[p]]
        0 <= p < colors(pixels, size).len() implies {
            &&& 0 <= palette_indices(pixels, size)[p] < palette_of(pixels, size).len()
            &&& palette_of(pixels, size)[palette_indices(pixels, size)[p] as int] == colors(pixels, size)[p]
        } by {
        let c = colors(pixels, size)[p];
        assert(palette_of(pixels, size).contains(c));
        let i = palette_of(pixels, size).index_of(c);
        assert(0 <= i < palette_of(pixels, size).len() && palette_of(pixels, size)[i] == c);
    }
}

/// Whether every row starts within the pixels wherever rows are packed.
pub fn rows_fit(pixels: &Vec<u8>, size: usize, width: u32, height: u32) -> (r: bool)
    requires
        size == 3 || size == 4,
    ensures
        r == rows_packable(pixels@, size as int, width as int, height as int),
{
    let found = match collect_distinct(pixels, size) {
        Some(found) => found,
        None => {
            return true;
        },
    };
    if found.len() == 0 {
        return true;
    }
    let count: usize = order_by_alpha(&found).len();
    if count > 16 || height == 0 {
        return true;
    }
    proof {
        assert(0 <= (height - 1) * width <= u32::MAX * u32::MAX) by (nonlinear_arith)
            requires
                1 <= height <= u32::MAX,
                0 <= width <= u32::MAX,
        ;
    }
    (height as u128 - 1) * width as u128 <= (pixels.len() / size) as u128
}

}
