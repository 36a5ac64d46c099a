//! Raw pixel buffers and the way their bytes are picked out.
use vstd::arithmetic::div_mod::{lemma_fundamental_div_mod, lemma_fundamental_div_mod_converse};
use vstd::prelude::*;

verus! {

/// The bytes of the first `n` pixels one after another, where `pixel(p)`
/// holds the bytes of pixel `p`.
pub open spec fn join_pixels(n: nat, pixel: spec_fn(int) -> Seq<u8>) -> Seq<u8>
    decreases n,
{
    if n == 0 {
        Seq::empty()
    } else {
        join_pixels((n - 1) as nat, pixel) + pixel(n - 1)
    }
}

/// Pixels of `size` bytes each give `n * size` bytes.
pub proof fn lemma_join_pixels_len(n: nat, pixel: spec_fn(int) -> Seq<u8>, size: nat)
    requires
        forall|p: int| 0 <= p < n ==> (#[trigger] pixel(p)).len() == size,
    ensures
        join_pixels(n, pixel).len() == n * size,
    decreases n,
{
    if n == 0 {
        assert(n * size == 0) by (nonlinear_arith)
            requires n == 0;
    } else {
        let m = (n - 1) as nat;
        lemma_join_pixels_len(m, pixel, size);
        assert(n * size == m * size + size) by (nonlinear_arith)
            requires n == m + 1;
        assert(pixel(n - 1).len() == size);
    }
}

/// Equal pixels give equal bytes.
pub proof fn lemma_join_pixels_eq(n: nat, a: spec_fn(int) -> Seq<u8>, b: spec_fn(int) -> Seq<u8>)
    requires
        forall|p: int| 0 <= p < n ==> #[trigger] a(p) == b(p),
    ensures
        join_pixels(n, a) == join_pixels(n, b),
    decreases n,
{
    if n > 0 {
        lemma_join_pixels_eq((n - 1) as nat, a, b);
        assert(a(n - 1) == b(n - 1));
    }
}

/// Among pixels of `size` bytes each, pixel `p` starts at byte `p * size`.
pub proof fn lemma_join_pixels_at(n: nat, pixel: spec_fn(int) -> Seq<u8>, size: nat, p: int)
    requires
        forall|q: int| 0 <= q < n ==> (#[trigger] pixel(q)).len() == size,
        0 <= p < n,
    ensures
        0 <= p * size,
        p * size + size <= join_pixels(n, pixel).len(),
        join_pixels(n, pixel).subrange(p * size, p * size + size) == pixel(p),
        forall|j: int| 0 <= j < size ==> join_pixels(n, pixel)[p * size + j] == #[trigger] pixel(p)[j],
    decreases n,
{
    let m = (n - 1) as nat;
    lemma_join_pixels_len(m, pixel, size);
    lemma_join_pixels_len(n, pixel, size);
    assert(n * size == m * size + size) by (nonlinear_arith)
        requires n == m + 1;
    assert(0 <= p * size) by (nonlinear_arith)
        requires 0 <= p;
    let all = join_pixels(n, pixel);
    assert(pixel(n - 1).len() == size);
    assert(pixel(p).len() == size);
    if p < m {
        lemma_join_pixels_at(m, pixel, size, p);
    } else {
        assert(p * size == m * size);
    }
    assert(all.subrange(p * size, p * size + size) =~= pixel(p));
    assert forall|j: int| 0 <= j < size implies all[p * size + j] == #[trigger] pixel(p)[j] by {
        assert(all.subrange(p * size, p * size + size)[j] == all[p * size + j]);
    }
}

/// Where pixel `p`, counted row by row, starts in a buffer with rows of
/// `w` pixels that lie `stride` bytes apart.
pub open spec fn pixel_offset(p: int, w: int, stride: int, size: int) -> int {
    (p / w) * stride + (p % w) * size
}

/// Pixel `x` of row `y` is pixel `y * w + x` in reading order.
pub proof fn lemma_pixel_offset(x: int, y: int, w: int, stride: int, size: int)
    requires
        0 <= x < w,
        0 <= y,
    ensures
        (y * w + x) / w == y,
        (y * w + x) % w == x,
        pixel_offset(y * w + x, w, stride, size) == y * stride + x * size,
{
    lemma_fundamental_div_mod_converse(y * w + x, w, y, x);
}

/// A pixel of an image of `h` rows lies in one of its rows.
pub proof fn lemma_pixel_row(p: int, w: int, h: int)
    requires
        0 <= p < w * h,
        0 <= h,
        0 <= w,
    ensures
        w > 0,
        0 <= p / w < h,
        0 <= p % w < w,
        p == (p / w) * w + p % w,
{
    assert(w > 0) by (nonlinear_arith)
        requires 0 <= p < w * h, 0 <= w, 0 <= h;
    lemma_fundamental_div_mod(p, w);
    assert(p / w < h) by (nonlinear_arith)
        requires p < w * h, p == w * (p / w) + p % w, 0 <= p % w, w > 0;
    assert(p / w >= 0) by (nonlinear_arith)
        requires p >= 0, w > 0;
    assert(w * (p / w) == (p / w) * w) by (nonlinear_arith);
}

/// Appends bytes `from..to` of `bytes` to `out`.
pub fn append_bytes(out: &mut Vec<u8>, bytes: &Vec<u8>, from: usize, to: usize)
    requires
        from <= to <= bytes@.len(),
    ensures
        final(out)@ == old(out)@ + bytes@.subrange(from as int, to as int),
{
    out.extend_from_slice(&bytes[from..to]);
}

}
