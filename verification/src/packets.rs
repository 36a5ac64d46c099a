//! Run-length encoding stores the same Targa images.
use crate::models::LoadedView;
use crate::raster::{
    join_pixels, lemma_join_pixels_at, lemma_join_pixels_eq, lemma_join_pixels_len, lemma_pixel_row,
};
use crate::tga::{
    is_complete_tga, lemma_tga_size, listed, repeated, rgb_order, run_length_pixels, stored_at, tga_header, tga_image,
    tga_size, tga_stored, upright, TgaHeader,
};
use vstd::arithmetic::div_mod::lemma_fundamental_div_mod_converse;
use vstd::prelude::*;

verus! {

/// A packet of a run-length encoded stream: one pixel for several places, or
/// a pixel for each place.
pub enum Packet {
    Run { count: nat, pixel: Seq<u8> },
    Raw { count: nat, pixels: Seq<u8> },
}

/// A packet for 1 to 128 pixels of `channels` bytes each.
pub open spec fn is_packet(p: Packet, channels: nat) -> bool {
    match p {
        Packet::Run { count, pixel } => 1 <= count <= 128 && pixel.len() == channels,
        Packet::Raw { count, pixels } => 1 <= count <= 128 && pixels.len() == count * channels,
    }
}

/// The packet as it stands in a file.
pub open spec fn packet_bytes(p: Packet) -> Seq<u8> {
    match p {
        Packet::Run { count, pixel } => seq![(127 + count) as u8] + pixel,
        Packet::Raw { count, pixels } => seq![(count - 1) as u8] + pixels,
    }
}

/// The same pixel in every place.
pub open spec fn everywhere(pixel: Seq<u8>) -> spec_fn(int) -> Seq<u8> {
    |i: int| pixel
}

/// The pixels that the packet stands for.
pub open spec fn packet_pixels(p: Packet) -> Seq<u8> {
    match p {
        Packet::Run { count, pixel } => join_pixels(count, everywhere(pixel)),
        Packet::Raw { count, pixels } => pixels,
    }
}

/// Packets one after the other.
pub open spec fn stream_bytes(ps: Seq<Packet>) -> Seq<u8>
    decreases ps.len(),
{
    if ps.len() == 0 {
        Seq::empty()
    } else {
        packet_bytes(ps[0]) + stream_bytes(ps.skip(1))
    }
}

/// The pixels that the packets stand for.
pub open spec fn stream_pixels(ps: Seq<Packet>) -> Seq<u8>
    decreases ps.len(),
{
    if ps.len() == 0 {
        Seq::empty()
    } else {
        packet_pixels(ps[0]) + stream_pixels(ps.skip(1))
    }
}

pub open spec fn are_packets(ps: Seq<Packet>, channels: nat) -> bool {
    forall|i: int| 0 <= i < ps.len() ==> is_packet(#[trigger] ps[i], channels)
}

/// The first `n` pixels of `s` with their colors in the order red, green,
/// blue.
#[verifier::opaque]
spec fn in_rgb(s: Seq<u8>, n: nat, channels: nat) -> Seq<u8> {
    join_pixels(n, listed(s, 0, channels as int))
}

/// Pixels are picked out of a file as they are out of the bytes that it holds
/// there.
proof fn lemma_listed(data: Seq<u8>, at: int, s: Seq<u8>, n: nat, channels: nat)
    requires
        channels == 1 || channels == 3 || channels == 4,
        0 <= at,
        s.len() >= n * channels,
        at + n * channels <= data.len(),
        forall|i: int| 0 <= i < n * channels ==> #[trigger] s[i] == data[at + i],
    ensures
        join_pixels(n, listed(data, at, channels as int)) == in_rgb(s, n, channels),
{
    reveal(in_rgb);
    let a = listed(data, at, channels as int);
    let b = listed(s, 0, channels as int);
    assert forall|p: int| 0 <= p < n implies #[trigger] a(p) == b(p) by {
        let q = p * channels;
        assert(0 <= q && q + channels <= n * channels) by (nonlinear_arith)
            requires
                0 <= p < n,
                q == p * channels,
        ;
        assert(s[q] == data[at + q]);
        if channels >= 3 {
            assert(s[q + 1] == data[at + (q + 1)]);
            assert(s[q + 2] == data[at + (q + 2)]);
        }
        if channels == 4 {
            assert(s[q + 3] == data[at + (q + 3)]);
        }
        assert(rgb_order(data, at + q, channels as int) =~= rgb_order(s, 0 + q, channels as int));
    }
    lemma_join_pixels_eq(n, a, b);
}

/// Pixels keep their place when others are put behind them.
proof fn lemma_in_rgb_concat(s: Seq<u8>, n: nat, t: Seq<u8>, m: nat, channels: nat)
    requires
        channels == 1 || channels == 3 || channels == 4,
        s.len() == n * channels,
        t.len() == m * channels,
    ensures
        in_rgb(s + t, n + m, channels) == in_rgb(s, n, channels) + in_rgb(t, m, channels),
    decreases m,
{
    reveal(in_rgb);
    let c = channels as int;
    if m == 0 {
        assert(m * channels == 0) by (nonlinear_arith)
            requires
                m == 0,
        ;
        assert(s + t =~= s);
        assert(in_rgb(t, 0, channels) =~= Seq::<u8>::empty());
        assert(in_rgb(s, n, channels) + in_rgb(t, 0, channels) =~= in_rgb(s, n, channels));
    } else {
        let k = (m - 1) as nat;
        assert(m * channels == k * channels + channels) by (nonlinear_arith)
            requires
                m == k + 1,
        ;
        assert((n + k) * channels == n * channels + k * channels) by (nonlinear_arith);
        let u = t.take((k * channels) as int);
        lemma_in_rgb_concat(s, n, u, k, channels);
        lemma_listed(t, 0, u, k, channels);
        lemma_listed(s + t, 0, s + u, n + k, channels);
        let all = listed(s + t, 0, c);
        let last = listed(t, 0, c);
        assert(all((n + k) as int) =~= last(k as int)) by {
            let q = n * channels + k * channels;
            assert(0 + (n + k) * c == q);
            assert(0 + k * c == k * channels);
        }
        assert(in_rgb(s + t, n + m, channels) == join_pixels(n + k, all) + all((n + k) as int));
        assert(in_rgb(t, m, channels) == join_pixels(k, last) + last(k as int));
        assert(in_rgb(s + t, n + m, channels) =~= in_rgb(s, n, channels) + in_rgb(t, m, channels));
    }
}

/// Equal bytes give equal pixels.
proof fn lemma_same_pixel(data: Seq<u8>, at: int, s: Seq<u8>, q: int, channels: nat)
    requires
        channels == 1 || channels == 3 || channels == 4,
        0 <= at,
        at + channels <= data.len(),
        0 <= q,
        q + channels <= s.len(),
        s.subrange(q, q + channels) == data.subrange(at, at + channels),
    ensures
        rgb_order(data, at, channels as int) == rgb_order(s, 0 + q, channels as int),
{
    let a = data.subrange(at, at + channels);
    let b = s.subrange(q, q + channels);
    assert(a[0] == data[at] && b[0] == s[q]);
    if channels >= 3 {
        assert(a[1] == data[at + 1] && b[1] == s[q + 1]);
        assert(a[2] == data[at + 2] && b[2] == s[q + 2]);
    }
    if channels == 4 {
        assert(a[3] == data[at + 3] && b[3] == s[q + 3]);
    }
    assert(rgb_order(data, at, channels as int) =~= rgb_order(s, 0 + q, channels as int));
}

/// A run is its pixel over and over.
proof fn lemma_run(data: Seq<u8>, at: int, count: nat, pixel: Seq<u8>, channels: nat)
    requires
        channels == 1 || channels == 3 || channels == 4,
        pixel.len() == channels,
        0 <= at,
        at + channels <= data.len(),
        data.subrange(at, at + channels) == pixel,
    ensures
        join_pixels(count, everywhere(pixel)).len() == count * channels,
        join_pixels(count, repeated(data, at, channels as int)) == in_rgb(
            join_pixels(count, everywhere(pixel)),
            count,
            channels,
        ),
{
    reveal(in_rgb);
    let same = everywhere(pixel);
    let s = join_pixels(count, same);
    lemma_join_pixels_len(count, same, channels);
    let a = repeated(data, at, channels as int);
    let b = listed(s, 0, channels as int);
    assert forall|p: int| 0 <= p < count implies #[trigger] a(p) == b(p) by {
        lemma_join_pixels_at(count, same, channels, p);
        let q = p * channels;
        assert(same(p) == pixel);
        assert(s.subrange(q, q + channels) == pixel);
        lemma_same_pixel(data, at, s, q, channels);
    }
    lemma_join_pixels_eq(count, a, b);
}

/// The pixels of all packets.
spec fn pixel_count(ps: Seq<Packet>) -> nat
    decreases ps.len(),
{
    if ps.len() == 0 {
        0
    } else {
        (match ps[0] {
            Packet::Run { count, pixel } => count,
            Packet::Raw { count, pixels } => count,
        }) + pixel_count(ps.skip(1))
    }
}

/// The last packet brings more pixels than the given number of bytes holds.
pub open spec fn ends_with_more(ps: Seq<Packet>, surplus: int) -> bool {
    if ps.len() == 0 {
        surplus == 0
    } else {
        0 <= surplus < packet_pixels(ps.last()).len()
    }
}

/// A stream of packets is decoded to the pixels that they stand for, also
/// where the last packet brings `surplus` bytes that were not asked for.
proof fn lemma_stream(data: Seq<u8>, at: int, ps: Seq<Packet>, surplus: int, channels: nat)
    requires
        channels == 1 || channels == 3 || channels == 4,
        are_packets(ps, channels),
        0 <= at,
        at + stream_bytes(ps).len() <= data.len(),
        data.subrange(at, at + stream_bytes(ps).len()) == stream_bytes(ps),
        ends_with_more(ps, surplus),
    ensures
        stream_pixels(ps).len() == pixel_count(ps) * channels,
        ps.len() > 0 ==> surplus < stream_pixels(ps).len(),
        run_length_pixels(data, at, stream_pixels(ps).len() - surplus, channels as int) == Ok::<Seq<u8>, Seq<char>>(
            in_rgb(stream_pixels(ps), pixel_count(ps), channels),
        ),
    decreases ps.len(),
{
    if ps.len() == 0 {
        reveal(in_rgb);
        assert(0 * channels == 0);
        assert(in_rgb(stream_pixels(ps), 0, channels) =~= Seq::<u8>::empty());
    } else {
        let p = ps[0];
        let rest = ps.skip(1);
        let bytes = packet_bytes(p);
        assert(is_packet(p, channels));
        assert(are_packets(rest, channels)) by {
            assert forall|i: int| 0 <= i < rest.len() implies is_packet(#[trigger] rest[i], channels) by {
                assert(is_packet(ps[i + 1], channels));
            }
        }
        let more = stream_bytes(rest);
        let next = at + bytes.len();
        lemma_split(data, at, bytes, more);
        let tail = stream_pixels(rest);
        let m = pixel_count(rest);
        if rest.len() > 0 {
            assert(rest.last() == ps.last());
            lemma_stream(data, next, rest, surplus, channels);
        } else {
            reveal(in_rgb);
            assert(0 * channels == 0);
            assert(in_rgb(tail, 0, channels) =~= Seq::<u8>::empty());
            assert(p == ps.last());
            assert(packet_pixels(p) + tail =~= packet_pixels(p));
        }
        match p {
            Packet::Run { count, pixel } => {
                lemma_split(data, at, seq![(127 + count) as u8], pixel);
                assert(data.subrange(at, at + 1)[0] == data[at]);
                lemma_join_pixels_len(count, everywhere(pixel), channels);
                lemma_run_step(data, at, count, pixel, tail, m, surplus, channels);
            },
            Packet::Raw { count, pixels } => {
                lemma_split(data, at, seq![(count - 1) as u8], pixels);
                assert(data.subrange(at, at + 1)[0] == data[at]);
                lemma_raw_step(data, at, count, pixels, tail, m, surplus, channels);
            },
        }
    }
}

/// Of two pieces in a file, each stands in its place.
proof fn lemma_split(data: Seq<u8>, at: int, a: Seq<u8>, b: Seq<u8>)
    requires
        0 <= at,
        at + (a + b).len() <= data.len(),
        data.subrange(at, at + (a + b).len()) == a + b,
    ensures
        data.subrange(at, at + a.len()) == a,
        data.subrange(at + a.len(), at + a.len() + b.len()) == b,
{
    let all = data.subrange(at, at + (a + b).len());
    assert(data.subrange(at, at + a.len()) =~= all.take(a.len() as int));
    assert((a + b).take(a.len() as int) =~= a);
    assert(data.subrange(at + a.len(), at + a.len() + b.len()) =~= all.skip(a.len() as int));
    assert((a + b).skip(a.len() as int) =~= b);
}

proof fn lemma_run_step(
    data: Seq<u8>,
    at: int,
    count: nat,
    pixel: Seq<u8>,
    tail: Seq<u8>,
    m: nat,
    surplus: int,
    channels: nat,
)
    requires
        channels == 1 || channels == 3 || channels == 4,
        1 <= count <= 128,
        pixel.len() == channels,
        0 <= at,
        at + 1 + channels <= data.len(),
        data[at] == 127 + count,
        data.subrange(at + 1, at + 1 + channels) == pixel,
        tail.len() == m * channels,
        surplus < tail.len() + count * channels,
        run_length_pixels(data, at + 1 + channels, tail.len() - surplus, channels as int) == Ok::<Seq<u8>, Seq<char>>(
            in_rgb(tail, m, channels),
        ),
    ensures
        ({
            let all = join_pixels(count, everywhere(pixel)) + tail;
            &&& all.len() == (count + m) * channels
            &&& run_length_pixels(data, at, all.len() - surplus, channels as int) == Ok::<Seq<u8>, Seq<char>>(
                in_rgb(all, count + m, channels),
            )
        }),
{
    lemma_run(data, at + 1, count, pixel, channels);
    lemma_step(count, m, channels);
    lemma_in_rgb_concat(join_pixels(count, everywhere(pixel)), count, tail, m, channels);
    assert((data[at] % 128 + 1) as nat == count);
}

proof fn lemma_raw_step(
    data: Seq<u8>,
    at: int,
    count: nat,
    pixels: Seq<u8>,
    tail: Seq<u8>,
    m: nat,
    surplus: int,
    channels: nat,
)
    requires
        channels == 1 || channels == 3 || channels == 4,
        1 <= count <= 128,
        pixels.len() == count * channels,
        0 <= at,
        at + 1 + count * channels <= data.len(),
        data[at] == count - 1,
        data.subrange(at + 1, at + 1 + count * channels) == pixels,
        tail.len() == m * channels,
        surplus < tail.len() + count * channels,
        run_length_pixels(data, at + 1 + count * channels, tail.len() - surplus, channels as int) == Ok::<
            Seq<u8>,
            Seq<char>,
        >(in_rgb(tail, m, channels)),
    ensures
        ({
            let all = pixels + tail;
            &&& all.len() == (count + m) * channels
            &&& run_length_pixels(data, at, all.len() - surplus, channels as int) == Ok::<Seq<u8>, Seq<char>>(
                in_rgb(all, count + m, channels),
            )
        }),
{
    assert forall|i: int| 0 <= i < count * channels implies #[trigger] pixels[i] == data[at + 1 + i] by {
        assert(data.subrange(at + 1, at + 1 + count * channels)[i] == pixels[i]);
    }
    lemma_listed(data, at + 1, pixels, count, channels);
    lemma_step(count, m, channels);
    lemma_in_rgb_concat(pixels, count, tail, m, channels);
    assert((data[at] % 128 + 1) as nat == count);
}

proof fn lemma_step(n: nat, m: nat, channels: nat)
    requires
        n >= 1,
        channels >= 1,
    ensures
        (n + m) * channels == n * channels + m * channels,
        n * channels >= 1,
{
    assert((n + m) * channels == n * channels + m * channels) by (nonlinear_arith);
    assert(n * channels >= 1) by (nonlinear_arith)
        requires
            n >= 1,
            channels >= 1,
    ;
}

/// What stands behind `start` begins there.
proof fn lemma_front_of(file: Seq<u8>, start: int, front: Seq<u8>, behind: Seq<u8>)
    requires
        0 <= start <= file.len(),
        file.skip(start) == front + behind,
    ensures
        start + front.len() <= file.len(),
        file.subrange(start, start + front.len()) == front,
{
    assert(file.skip(start).len() == front.len() + behind.len());
    assert(file.subrange(start, start + front.len()) =~= front) by {
        assert forall|i: int| 0 <= i < front.len() implies file[start + i] == front[i] by {
            assert(file.skip(start)[i] == (front + behind)[i]);
            assert(file.skip(start)[i] == file[i + start]);
        }
    }
}

/// A packet holds a pixel.
proof fn lemma_whole_packets(ps: Seq<Packet>, channels: nat)
    requires
        are_packets(ps, channels),
        channels >= 1,
    ensures
        ends_with_more(ps, 0),
{
    if ps.len() > 0 {
        assert(is_packet(ps[ps.len() - 1], channels));
        match ps.last() {
            Packet::Run { count, pixel } => {
                lemma_join_pixels_len(count, everywhere(pixel), channels);
                lemma_step(count, 0, channels);
            },
            Packet::Raw { count, pixels } => {
                lemma_step(count, 0, channels);
            },
        }
    }
}

/// Run-length encoding is only another way to store an image: a file whose
/// packets stand for exactly the pixels of its image is decoded to the same
/// image as the file with the same header that has the pixels themselves.
/// Only the sizes of the two files may differ. What stands behind the packets
/// makes no difference.
#[verifier::rlimit(40)]
#[verifier::spinoff_prover]
pub proof fn law_run_length_images_are_the_same(
    file: Seq<u8>,
    plain: Seq<u8>,
    h: TgaHeader,
    packets: Seq<Packet>,
    behind: Seq<u8>,
    plain_type: u8,
)
    requires
        tga_header(file) == Ok::<TgaHeader, Seq<char>>(h),
        h.image_type == 10 || h.image_type == 11,
        h.start <= file.len(),
        are_packets(packets, h.channels as nat),
        file.skip(h.start as int) == stream_bytes(packets) + behind,
        stream_pixels(packets).len() == tga_size(h),
        plain_type == 2 || plain_type == 3,
        plain == file.take(h.start as int).update(2, plain_type) + stream_pixels(packets),
    ensures
        is_complete_tga(file),
        is_complete_tga(plain),
        tga_image(file) is Ok,
        tga_image(plain) is Ok,
        tga_image(file)->Ok_0 == (LoadedView {
            orig_idat_size: file.len() as int,
            ..tga_image(plain)->Ok_0
        }),
{
    let channels = h.channels as nat;
    let start = h.start as int;
    let p = stream_pixels(packets);
    let n = (h.width * h.height) as nat;
    lemma_tga_size(h);
    lemma_front_of(file, start, stream_bytes(packets), behind);
    lemma_whole_packets(packets, channels);
    lemma_stream(file, start, packets, 0, channels);
    assert(pixel_count(packets) == n) by {
        lemma_fundamental_div_mod_converse(p.len() as int, channels as int, n as int, 0);
        lemma_fundamental_div_mod_converse(p.len() as int, channels as int, pixel_count(packets) as int, 0);
    }
    let g = TgaHeader { image_type: plain_type, ..h };
    lemma_plain_header(file, plain, h, p, plain_type);
    assert forall|i: int| 0 <= i < n * channels implies #[trigger] p[i] == plain[start + i] by {}
    lemma_listed(plain, start, p, n, channels);
    let stored = in_rgb(p, n, channels);
    assert(stored.len() == tga_size(h)) by {
        reveal(in_rgb);
        lemma_join_pixels_len(n, listed(p, 0, channels as int), channels);
    }
    lemma_same_image(file, h, plain, g, stored);
}

proof fn lemma_plain_header(file: Seq<u8>, plain: Seq<u8>, h: TgaHeader, pixels: Seq<u8>, plain_type: u8)
    requires
        tga_header(file) == Ok::<TgaHeader, Seq<char>>(h),
        h.start <= file.len(),
        plain == file.take(h.start as int).update(2, plain_type) + pixels,
    ensures
        tga_header(plain) == Ok::<TgaHeader, Seq<char>>(TgaHeader { image_type: plain_type, ..h }),
{
    assert(h.start >= 18);
    assert forall|i: int| 0 <= i < 18 && i != 2 implies #[trigger] plain[i] == file[i] by {}
    assert(plain[2] == plain_type);
}

/// Files that store the same pixels hold the same image.
proof fn lemma_same_image(file: Seq<u8>, h: TgaHeader, plain: Seq<u8>, g: TgaHeader, stored: Seq<u8>)
    requires
        tga_header(file) == Ok::<TgaHeader, Seq<char>>(h),
        tga_header(plain) == Ok::<TgaHeader, Seq<char>>(g),
        g == (TgaHeader { image_type: g.image_type, ..h }),
        tga_stored(file, h) == Ok::<Seq<u8>, Seq<char>>(stored),
        tga_stored(plain, g) == Ok::<Seq<u8>, Seq<char>>(stored),
        stored.len() == tga_size(h),
    ensures
        is_complete_tga(file),
        is_complete_tga(plain),
        tga_image(file) is Ok,
        tga_image(plain) is Ok,
        tga_image(file)->Ok_0 == (LoadedView {
            orig_idat_size: file.len() as int,
            ..tga_image(plain)->Ok_0
        }),
{
    lemma_same_rows(stored, g, h);
    assert(tga_size(g) == tga_size(h));
    assert(tga_image(file)->Ok_0 =~= (LoadedView {
        orig_idat_size: file.len() as int,
        ..tga_image(plain)->Ok_0
    }));
}

/// Where a pixel stands does not depend on how the file is encoded.
proof fn lemma_same_rows(stored: Seq<u8>, g: TgaHeader, h: TgaHeader)
    requires
        g == (TgaHeader { image_type: g.image_type, ..h }),
    ensures
        join_pixels((g.width * g.height) as nat, upright(stored, g)) == join_pixels(
            (h.width * h.height) as nat,
            upright(stored, h),
        ),
{
    let a = upright(stored, g);
    let b = upright(stored, h);
    let n = (h.width * h.height) as nat;
    assert forall|p: int| 0 <= p < n implies #[trigger] a(p) == b(p) by {
        assert(stored_at(g, p) == stored_at(h, p));
    }
    lemma_join_pixels_eq(n, a, b);
}

/// Where the last packet brings more pixels than the image has, the surplus
/// is dropped: the image is the one of the file that has the pixels
/// themselves, and zero bytes stand behind it.
#[verifier::rlimit(60)]
#[verifier::spinoff_prover]
pub proof fn law_surplus_pixels_are_dropped(
    file: Seq<u8>,
    plain: Seq<u8>,
    h: TgaHeader,
    packets: Seq<Packet>,
    surplus: nat,
    behind: Seq<u8>,
    plain_type: u8,
)
    requires
        tga_header(file) == Ok::<TgaHeader, Seq<char>>(h),
        h.image_type == 10 || h.image_type == 11,
        h.start <= file.len(),
        are_packets(packets, h.channels as nat),
        file.skip(h.start as int) == stream_bytes(packets) + behind,
        stream_pixels(packets).len() == tga_size(h) + surplus,
        ends_with_more(packets, surplus as int),
        plain_type == 2 || plain_type == 3,
        plain == file.take(h.start as int).update(2, plain_type) + stream_pixels(packets),
    ensures
        is_complete_tga(file),
        is_complete_tga(plain),
        tga_image(file) is Ok,
        tga_image(plain) is Ok,
        tga_image(file)->Ok_0 == (LoadedView {
            pixels: tga_image(plain)->Ok_0.pixels + Seq::new(surplus, |i: int| 0u8),
            orig_idat_size: file.len() as int,
            ..tga_image(plain)->Ok_0
        }),
{
    let channels = h.channels as nat;
    let start = h.start as int;
    let p = stream_pixels(packets);
    let n = (h.width * h.height) as nat;
    let count = pixel_count(packets);
    lemma_tga_size(h);
    lemma_front_of(file, start, stream_bytes(packets), behind);
    lemma_stream(file, start, packets, surplus as int, channels);
    let g = TgaHeader { image_type: plain_type, ..h };
    lemma_plain_header(file, plain, h, p, plain_type);
    assert(n <= count) by (nonlinear_arith)
        requires
            n * channels <= count * channels,
            channels >= 1,
    ;
    assert forall|i: int| 0 <= i < n * channels implies #[trigger] p[i] == plain[start + i] by {}
    lemma_listed(plain, start, p, n, channels);
    let all = in_rgb(p, count, channels);
    let stored = in_rgb(p, n, channels);
    assert(all.len() == p.len() && stored.len() == tga_size(h)) by {
        reveal(in_rgb);
        lemma_join_pixels_len(n, listed(p, 0, channels as int), channels);
        lemma_join_pixels_len(count, listed(p, 0, channels as int), channels);
    }
    assert(tga_stored(file, h) == Ok::<Seq<u8>, Seq<char>>(all));
    assert(tga_stored(plain, g) == Ok::<Seq<u8>, Seq<char>>(stored));
    lemma_in_rgb_prefix(p, n, count, channels);
    lemma_same_rows(stored, g, h);
    lemma_surplus_rows(all, stored, h);
    let image = join_pixels(n, upright(stored, h));
    assert(tga_image(plain)->Ok_0.pixels =~= image);
    assert(tga_image(file)->Ok_0.pixels =~= image + Seq::new(surplus, |i: int| 0u8));
}

/// The pixels of the image do not depend on what stands behind them.
proof fn lemma_surplus_rows(all: Seq<u8>, stored: Seq<u8>, h: TgaHeader)
    requires
        h.channels >= 1,
        stored.len() == tga_size(h),
        stored.len() <= all.len(),
        all.take(stored.len() as int) == stored,
    ensures
        join_pixels((h.width * h.height) as nat, upright(all, h)) == join_pixels(
            (h.width * h.height) as nat,
            upright(stored, h),
        ),
{
    let n = (h.width * h.height) as nat;
    assert forall|k: int| 0 <= k < n implies #[trigger] upright(all, h)(k) == upright(stored, h)(k) by {
        lemma_pixel_in_image(h, k);
        let at = stored_at(h, k) * h.channels;
        assert(all.subrange(at, at + h.channels) =~= stored.subrange(at, at + h.channels)) by {
            assert forall|j: int| at <= j < at + h.channels implies all[j] == stored[j] by {
                assert(all.take(stored.len() as int)[j] == stored[j]);
            }
        }
    }
    lemma_join_pixels_eq(n, upright(all, h), upright(stored, h));
}

proof fn lemma_in_rgb_prefix(s: Seq<u8>, n: nat, m: nat, channels: nat)
    requires
        channels == 1 || channels == 3 || channels == 4,
        n <= m,
    ensures
        in_rgb(s, n, channels).len() <= in_rgb(s, m, channels).len(),
        in_rgb(s, m, channels).take(in_rgb(s, n, channels).len() as int) == in_rgb(s, n, channels),
    decreases m,
{
    reveal(in_rgb);
    if n == m {
        assert(in_rgb(s, m, channels).take(in_rgb(s, n, channels).len() as int) =~= in_rgb(s, n, channels));
    } else {
        lemma_in_rgb_prefix(s, n, (m - 1) as nat, channels);
        assert(in_rgb(s, m, channels).take(in_rgb(s, n, channels).len() as int) =~= in_rgb(
            s,
            (m - 1) as nat,
            channels,
        ).take(in_rgb(s, n, channels).len() as int));
    }
}

/// A pixel of the image is one of the pixels of the file.
proof fn lemma_pixel_in_image(h: TgaHeader, p: int)
    requires
        0 <= p < h.width * h.height,
        h.channels >= 1,
    ensures
        0 <= stored_at(h, p) * h.channels,
        stored_at(h, p) * h.channels + h.channels <= tga_size(h),
{
    lemma_pixel_row(p, h.width as int, h.height as int);
    let y = p / h.width as int;
    let x = p % h.width as int;
    let row = if h.is_top_down { y } else { h.height - 1 - y };
    let column = if h.is_right_to_left { h.width - 1 - x } else { x };
    let q = row * h.width + column;
    assert(0 <= q < h.width * h.height) by (nonlinear_arith)
        requires
            0 <= row < h.height,
            0 <= column < h.width,
            q == row * h.width + column,
    ;
    assert(0 <= q * h.channels && q * h.channels + h.channels <= h.width * h.height * h.channels) by (nonlinear_arith)
        requires
            0 <= q < h.width * h.height,
            h.channels >= 1,
    ;
}

/// A stream that breaks off within a packet before all pixels are there is
/// refused: with one message if a run has lost its pixel, and with another if
/// a packet of single pixels has lost some.
pub proof fn law_broken_streams_are_refused(
    file: Seq<u8>,
    h: TgaHeader,
    packets: Seq<Packet>,
    head: u8,
    rest: Seq<u8>,
)
    requires
        tga_header(file) == Ok::<TgaHeader, Seq<char>>(h),
        h.image_type == 10 || h.image_type == 11,
        h.start <= file.len(),
        are_packets(packets, h.channels as nat),
        file.skip(h.start as int) == stream_bytes(packets) + seq![head] + rest,
        stream_pixels(packets).len() < tga_size(h),
        rest.len() < (if head >= 128 { h.channels as int } else { (head + 1) * h.channels }),
    ensures
        tga_image(file) == Err::<LoadedView, Seq<char>>(
            if head >= 128 { "Unexpected EOF in TGA RLE stream"@ } else { "Unexpected EOF in TGA raw stream"@ },
        ),
{
    let start = h.start as int;
    lemma_broken(file.skip(start), packets, head, rest, tga_size(h), h.channels as nat);
    lemma_run_length_skip(file, start, start, tga_size(h), h.channels as int);
}

/// What is read does not depend on what stands in front.
proof fn lemma_run_length_skip(data: Seq<u8>, cut: int, at: int, missing: int, channels: int)
    requires
        0 <= cut <= at,
        cut <= data.len(),
    ensures
        run_length_pixels(data, at, missing, channels) == run_length_pixels(
            data.skip(cut),
            at - cut,
            missing,
            channels,
        ),
    decreases data.len() - at,
{
    let t = data.skip(cut);
    if missing > 0 && at < data.len() && channels > 0 {
        assert(t[at - cut] == data[at]);
        let n = (data[at] % 128 + 1) as nat;
        let size = n * channels;
        if data[at] >= 128 {
            if at + 1 + channels <= data.len() {
                lemma_run_length_skip(data, cut, at + 1 + channels, missing - size, channels);
                lemma_join_pixels_eq(n, repeated(data, at + 1, channels), repeated(t, at - cut + 1, channels));
            }
        } else if at + 1 + size <= data.len() && size > 0 {
            lemma_run_length_skip(data, cut, at + 1 + size, missing - size, channels);
            assert forall|p: int| 0 <= p < n implies #[trigger] listed(data, at + 1, channels)(p) == listed(
                t,
                at - cut + 1,
                channels,
            )(p) by {
                let k = at + 1 + p * channels;
                assert(0 <= p * channels && p * channels + channels <= n * channels) by (nonlinear_arith)
                    requires
                        0 <= p < n,
                        channels > 0,
                ;
                assert(forall|j: int| 0 <= j < channels ==> t[k - cut + j] == #[trigger] data[k + j]);
                assert(t[k - cut + 0] == data[k + 0]);
                if channels >= 3 {
                    assert(t[k - cut + 1] == data[k + 1]);
                    assert(t[k - cut + 2] == data[k + 2]);
                }
                if channels >= 4 {
                    assert(t[k - cut + 3] == data[k + 3]);
                }
            }
            lemma_join_pixels_eq(n, listed(data, at + 1, channels), listed(t, at - cut + 1, channels));
        }
    }
}

/// A stream with a message behind its first packet gives this message.
proof fn lemma_first_packet(data: Seq<u8>, p: Packet, missing: int, channels: nat)
    requires
        channels == 1 || channels == 3 || channels == 4,
        is_packet(p, channels),
        packet_bytes(p).len() <= data.len(),
        data[0] == packet_bytes(p)[0],
        missing > 0,
    ensures
        run_length_pixels(data, packet_bytes(p).len() as int, missing - packet_pixels(p).len(), channels as int) is Err
            ==> run_length_pixels(data, 0, missing, channels as int) == run_length_pixels(
            data,
            packet_bytes(p).len() as int,
            missing - packet_pixels(p).len(),
            channels as int,
        ),
{
    match p {
        Packet::Run { count, pixel } => {
            lemma_join_pixels_len(count, everywhere(pixel), channels);
            assert((data[0] % 128 + 1) as nat == count);
        },
        Packet::Raw { count, pixels } => {
            assert((data[0] % 128 + 1) as nat == count);
            lemma_step(count, 0, channels);
        },
    }
}

#[verifier::rlimit(40)]
#[verifier::spinoff_prover]
proof fn lemma_broken(data: Seq<u8>, ps: Seq<Packet>, head: u8, rest: Seq<u8>, missing: int, channels: nat)
    requires
        channels == 1 || channels == 3 || channels == 4,
        are_packets(ps, channels),
        data == stream_bytes(ps) + seq![head] + rest,
        stream_pixels(ps).len() < missing,
        rest.len() < (if head >= 128 { channels as int } else { (head + 1) * channels }),
    ensures
        run_length_pixels(data, 0, missing, channels as int) == Err::<Seq<u8>, Seq<char>>(
            if head >= 128 { "Unexpected EOF in TGA RLE stream"@ } else { "Unexpected EOF in TGA raw stream"@ },
        ),
    decreases ps.len(),
{
    if ps.len() == 0 {
        assert(data[0] == head);
        assert((head % 128 + 1) as nat == (if head >= 128 { head - 127 } else { head + 1 }));
    } else {
        let p = ps[0];
        let more = ps.skip(1);
        let bytes = packet_bytes(p);
        assert(is_packet(p, channels));
        assert(are_packets(more, channels)) by {
            assert forall|i: int| 0 <= i < more.len() implies is_packet(#[trigger] more[i], channels) by {
                assert(is_packet(ps[i + 1], channels));
            }
        }
        let next = bytes.len() as int;
        let tail = stream_bytes(more) + seq![head] + rest;
        assert(data.skip(next) =~= tail);
        assert(data[0] == bytes[0]);
        let size = packet_pixels(p).len();
        assert(stream_pixels(ps).len() == size + stream_pixels(more).len());
        lemma_broken(tail, more, head, rest, missing - size, channels);
        lemma_run_length_skip(data, next, next, missing - size, channels as int);
        lemma_first_packet(data, p, missing, channels);
    }
}

}
