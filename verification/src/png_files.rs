//! PNG files byte by byte: where chunks stand in a file, and what a copy of
//! the file holds.
use crate::chunk_parser::{
    be_bytes, be_number, chunk_at, chunk_crc, chunks_from, copied, copied_chunks, crc_bytes, crc_shift, crc_shifts,
    encode_chunk, encode_chunks, has_idat, has_keyword, idat_chunks, idat_payload, is_marked_from, is_png, leading,
    lemma_crc_eight, lemma_crc_table, lemma_encode_cons, lemma_has_idat_push, lemma_zero_at, own_keyword, png_file,
    trailing, zero_at, Chunk,
};
use crate::copies::{are_storable, is_storable};
use vstd::prelude::*;
use vstd::utf8::{encode_utf8, is_ascii_chars, is_ascii_chars_encode_utf8};

verus! {

/// The chunk stands at `pos`: four bytes with its length, the highest first,
/// then its type, its data, and four more bytes.
pub open spec fn holds_chunk(file: Seq<u8>, pos: int, c: Chunk) -> bool {
    let n = c.data.len();
    &&& 0 <= pos && pos + 12 + n <= file.len()
    &&& c.kind.len() == 4
    &&& file[pos] * 16777216 + file[pos + 1] * 65536 + file[pos + 2] * 256 + file[pos + 3] == n
    &&& file.subrange(pos + 4, pos + 8) == c.kind
    &&& file.subrange(pos + 8, pos + 8 + n) == c.data
}

/// The last four bytes of the chunk at `pos` are its checksum, highest byte
/// first.
pub open spec fn holds_checksum(file: Seq<u8>, pos: int, c: Chunk) -> bool {
    let end = pos + 8 + c.data.len();
    file[end] * 16777216 + file[end + 1] * 65536 + file[end + 2] * 256 + file[end + 3] == chunk_crc(c.kind, c.data)
}

/// The chunks stand one behind the other from `pos` on, and then comes a
/// chunk of type `IEND`. What the checksums are, and what comes behind, is
/// left open.
pub open spec fn lists(file: Seq<u8>, pos: int, cs: Seq<Chunk>) -> bool
    decreases cs.len(),
{
    if cs.len() == 0 {
        exists|end: Chunk| #[trigger] holds_chunk(file, pos, end) && end.kind == seq![73u8, 69, 78, 68]
    } else {
        &&& holds_chunk(file, pos, cs[0])
        &&& cs[0].kind != seq![73u8, 69, 78, 68]
        &&& lists(file, pos + 12 + cs[0].data.len(), cs.skip(1))
    }
}

/// The chunks stand one behind the other from `pos` on, with their checksums,
/// and an empty chunk of type `IEND` closes the file.
pub open spec fn is_closed_list(file: Seq<u8>, pos: int, cs: Seq<Chunk>) -> bool
    decreases cs.len(),
{
    if cs.len() == 0 {
        let end = Chunk { kind: seq![73u8, 69, 78, 68], data: Seq::empty() };
        holds_chunk(file, pos, end) && holds_checksum(file, pos, end) && file.len() == pos + 12
    } else {
        &&& holds_chunk(file, pos, cs[0])
        &&& holds_checksum(file, pos, cs[0])
        &&& cs[0].kind != seq![73u8, 69, 78, 68]
        &&& is_closed_list(file, pos + 12 + cs[0].data.len(), cs.skip(1))
    }
}

/// The file begins with the eight bytes of PNG files.
pub open spec fn begins_as_png(file: Seq<u8>) -> bool {
    file.len() >= 8 && file.take(8) == seq![137u8, 80, 78, 71, 13, 10, 26, 10]
}

/// Chunks are found by their lengths: a file that lists chunks is read as
/// these chunks, whatever stands behind them.
pub proof fn law_chunks_are_found(file: Seq<u8>, pos: int, cs: Seq<Chunk>)
    requires
        lists(file, pos, cs),
    ensures
        chunks_from(file, pos) == Some(cs),
    decreases cs.len(),
{
    if cs.len() == 0 {
        assert(cs =~= Seq::empty());
    } else {
        law_chunks_are_found(file, pos + 12 + cs[0].data.len(), cs.skip(1));
        assert(chunk_at(file, pos) == cs[0]);
        assert(cs =~= seq![cs[0]] + cs.skip(1));
    }
}

/// The chunks stand one behind the other from `pos` to `end`.
pub open spec fn reaches(file: Seq<u8>, pos: int, cs: Seq<Chunk>, end: int) -> bool
    decreases cs.len(),
{
    if cs.len() == 0 {
        pos == end
    } else {
        &&& holds_chunk(file, pos, cs[0])
        &&& cs[0].kind != seq![73u8, 69, 78, 68]
        &&& reaches(file, pos + 12 + cs[0].data.len(), cs.skip(1), end)
    }
}

proof fn lemma_reaches(file: Seq<u8>, pos: int, cs: Seq<Chunk>, end: int)
    requires
        reaches(file, pos, cs, end),
    ensures
        chunks_from(file, pos) == match chunks_from(file, end) {
            Some(rest) => Some(cs + rest),
            None => None,
        },
    decreases cs.len(),
{
    if cs.len() == 0 {
        if let Some(rest) = chunks_from(file, end) {
            assert(cs + rest =~= rest);
        }
    } else {
        lemma_reaches(file, pos + 12 + cs[0].data.len(), cs.skip(1), end);
        assert(chunk_at(file, pos) == cs[0]);
        if let Some(rest) = chunks_from(file, end) {
            assert(cs + rest =~= seq![cs[0]] + (cs.skip(1) + rest));
        }
    }
}

/// A chunk that is longer than the file has bytes left makes the file
/// unreadable, wherever it stands.
pub proof fn law_long_chunks_are_refused(
    file: Seq<u8>,
    cs: Seq<Chunk>,
    end: int,
    keyword: Seq<u8>,
    value: Seq<u8>,
)
    requires
        begins_as_png(file),
        reaches(file, 8, cs, end),
        0 <= end <= file.len() - 12,
        file[end] * 16777216 + file[end + 1] * 65536 + file[end + 2] * 256 + file[end + 3] > file.len() - end - 12,
    ensures
        copied(file, keyword, value) == Err::<(Seq<u8>, int), Seq<char>>("PNG chunk extended beyond EOF"@),
{
    lemma_reaches(file, 8, cs, end);
}

/// A file may break off behind a chunk: its chunks are found all the same.
pub proof fn law_open_files_are_read(file: Seq<u8>, pos: int, cs: Seq<Chunk>, end: int)
    requires
        reaches(file, pos, cs, end),
        file.len() - 12 < end <= file.len(),
    ensures
        chunks_from(file, pos) == Some(cs),
{
    lemma_reaches(file, pos, cs, end);
    assert(cs + Seq::<Chunk>::empty() =~= cs);
}

/// What is not a PNG file is not copied.
pub proof fn law_other_files_are_refused(file: Seq<u8>, keyword: Seq<u8>, value: Seq<u8>)
    requires
        !begins_as_png(file),
    ensures
        copied(file, keyword, value) == Err::<(Seq<u8>, int), Seq<char>>("Not a valid PNG file"@),
        !is_png(file),
{
}

/// A chunk that is needed beside the pixel data: its type begins with a
/// capital letter, or is `tRNS`.
pub open spec fn is_needed(c: Chunk) -> bool {
    &&& c.kind != seq![73u8, 68, 65, 84]
    &&& c.kind[0] / 32 % 2 == 0 || c.kind == seq![116u8, 82, 78, 83]
}

pub open spec fn needed() -> spec_fn(Chunk) -> bool {
    |c: Chunk| is_needed(c)
}

/// The chunks have the type of pixel data.
pub open spec fn pixel_chunks() -> spec_fn(Chunk) -> bool {
    |c: Chunk| c.kind == seq![73u8, 68, 65, 84]
}

pub open spec fn data_of() -> spec_fn(Chunk) -> Seq<u8> {
    |c: Chunk| c.data
}

/// None of the chunks has the type.
pub open spec fn lacks(cs: Seq<Chunk>, kind: Seq<u8>) -> bool {
    forall|i: int| 0 <= i < cs.len() ==> (#[trigger] cs[i]).kind != kind
}

proof fn lemma_before(cs: Seq<Chunk>)
    requires
        lacks(cs, seq![73u8, 68, 65, 84]),
    ensures
        leading(cs) == cs.filter(needed()),
        trailing(cs).len() == 0,
        idat_payload(cs).len() == 0,
        !has_idat(cs),
    decreases cs.len(),
{
    reveal(Seq::filter);
    if cs.len() > 0 {
        let t = cs.drop_last();
        assert(lacks(t, seq![73u8, 68, 65, 84])) by {
            assert forall|i: int| 0 <= i < t.len() implies (#[trigger] t[i]).kind != seq![73u8, 68, 65, 84] by {
                assert(t[i] == cs[i]);
            }
        }
        lemma_before(t);
        assert(cs =~= t.push(cs.last()));
        lemma_has_idat_push(t, cs.last());
        assert(cs[cs.len() - 1].kind != seq![73u8, 68, 65, 84]);
    }
}

/// Chunks of type `IHDR`.
pub open spec fn headers() -> spec_fn(Chunk) -> bool {
    |c: Chunk| c.kind == seq![73u8, 72, 68, 82]
}

/// Chunks that are needed, and are no header.
pub open spec fn needed_late() -> spec_fn(Chunk) -> bool {
    |c: Chunk| is_needed(c) && c.kind != seq![73u8, 72, 68, 82]
}

proof fn lemma_behind(front: Seq<Chunk>, back: Seq<Chunk>)
    requires
        lacks(front, seq![73u8, 68, 65, 84]),
        back.len() > 0,
        back[0].kind == seq![73u8, 68, 65, 84],
    ensures
        leading(front + back) == front.filter(needed()) + back.filter(headers()),
        trailing(front + back) == back.filter(needed_late()),
        idat_payload(front + back) == back.filter(pixel_chunks()).map_values(data_of()).flatten_alt(),
        has_idat(front + back),
    decreases back.len(),
{
    reveal(Seq::filter);
    let cs = front + back;
    let t = back.drop_last();
    let c = back.last();
    assert(cs.drop_last() =~= front + t);
    assert(cs =~= (front + t).push(c));
    lemma_has_idat_push(front + t, c);
    let f = t.filter(pixel_chunks()).map_values(data_of());
    let kept = front.filter(needed());
    if t.len() == 0 {
        lemma_before(front);
        assert(front + t =~= front);
        assert(c == back[0]);
        assert(c.kind[1] == 68);
        assert(t.filter(pixel_chunks()) =~= Seq::empty());
        assert(t.filter(needed_late()) =~= Seq::empty());
        assert(t.filter(headers()) =~= Seq::empty());
        assert(back.filter(headers()) =~= Seq::empty());
        assert(kept + back.filter(headers()) =~= kept);
        assert(trailing(front) =~= Seq::empty());
        assert(idat_payload(front) =~= f.flatten_alt());
    } else {
        assert(t[0] == back[0]);
        lemma_behind(front, t);
        if c.kind == seq![73u8, 72, 68, 82] {
            assert(c.kind[0] == 73 && c.kind[1] == 72);
            assert(73u8 / 32 % 2 == 0);
            assert(kept + t.filter(headers()).push(c) =~= (kept + t.filter(headers())).push(c));
        }
    }
    if c.kind == seq![73u8, 68, 65, 84] {
        let g = back.filter(pixel_chunks()).map_values(data_of());
        assert(g =~= f.push(c.data));
        assert(g.drop_last() =~= f);
        assert(idat_payload(cs) =~= g.flatten_alt());
    }
}

/// The chunks hold the pixel data, cut into pieces of the greatest size that
/// a chunk may have. Only the last piece may be smaller, and none is empty.
pub open spec fn are_pieces(cs: Seq<Chunk>, payload: Seq<u8>) -> bool {
    &&& cs.map_values(data_of()).flatten() == payload
    &&& forall|i: int|
        0 <= i < cs.len() ==> (#[trigger] cs[i]).kind == seq![73u8, 68, 65, 84] && 0 < cs[i].data.len() <= 2147483647
    &&& forall|i: int| 0 <= i < cs.len() - 1 ==> (#[trigger] cs[i]).data.len() == 2147483647
}

proof fn lemma_pieces(payload: Seq<u8>)
    ensures
        are_pieces(idat_chunks(payload), payload),
    decreases payload.len(),
{
    let cs = idat_chunks(payload);
    let parts = cs.map_values(data_of());
    if payload.len() > 0 {
        let size = if payload.len() <= 2147483647 { payload.len() as int } else { 2147483647 };
        let c = Chunk { kind: seq![73u8, 68, 65, 84], data: payload.take(size) };
        let rest = payload.skip(size);
        let more = idat_chunks(rest);
        lemma_pieces(rest);
        assert(payload.take(payload.len() as int) =~= payload);
        assert(cs =~= seq![c] + more);
        assert(parts.drop_first() =~= more.map_values(data_of()));
        assert(parts.first() == c.data);
        assert(parts.flatten() =~= payload);
        assert forall|i: int| 0 <= i < cs.len() implies (#[trigger] cs[i]).kind == seq![73u8, 68, 65, 84] && 0
            < cs[i].data.len() <= 2147483647 by {
            if i > 0 {
                assert(cs[i] == more[i - 1]);
            }
        }
        assert forall|i: int| 0 <= i < cs.len() - 1 implies (#[trigger] cs[i]).data.len() == 2147483647 by {
            if i > 0 {
                assert(cs[i] == more[i - 1]);
            } else {
                assert(more.len() > 0);
                assert(rest.len() > 0);
            }
        }
    } else {
        assert(parts.flatten() =~= payload);
    }
}

/// What a copy is, byte by byte. Take any file that lists chunks: the copy has
/// the chunks that are needed and stood before the pixel data, then all
/// headers that stood behind, then the text, then all pixel data in one chunk
/// or in as few as can hold them, then the other chunks that are needed; and
/// it has nothing else. The size that is given is that of the pixel data.
pub proof fn law_copy_chunk_by_chunk(
    file: Seq<u8>,
    front: Seq<Chunk>,
    back: Seq<Chunk>,
    keyword: Seq<u8>,
    value: Seq<u8>,
)
    requires
        begins_as_png(file),
        lists(file, 8, front + back),
        lacks(front, seq![73u8, 68, 65, 84]),
        back.len() > 0,
        back[0].kind == seq![73u8, 68, 65, 84],
        back.filter(pixel_chunks()).map_values(data_of()).flatten_alt().len() > 0,
        keyword.len() + 1 + value.len() < 4294967296,
    ensures
        ({
            let payload = back.filter(pixel_chunks()).map_values(data_of()).flatten_alt();
            let text = Chunk { kind: seq![116u8, 69, 88, 116], data: keyword + seq![0u8] + value };
            let pieces = idat_chunks(payload);
            &&& copied(file, keyword, value) matches Ok((copy, size))
            &&& size == payload.len()
            &&& begins_as_png(copy)
            &&& are_pieces(pieces, payload)
            &&& payload.len() <= 2147483647 ==> pieces == seq![Chunk { kind: seq![73u8, 68, 65, 84], data: payload }]
            &&& is_closed_list(
                copy,
                8,
                front.filter(needed()) + back.filter(headers()) + seq![text] + pieces + back.filter(needed_late()),
            )
        }),
{
    let cs = front + back;
    law_chunks_are_found(file, 8, cs);
    lemma_behind(front, back);
    let payload = idat_payload(cs);
    lemma_pieces(payload);
    let text = Chunk { kind: seq![116u8, 69, 88, 116], data: keyword + seq![0u8] + value };
    let pieces = idat_chunks(payload);
    let all = copied_chunks(cs, keyword, value);
    lemma_listed_storable(file, 8, cs);
    lemma_filter_storable(cs, front, 0, needed());
    lemma_filter_storable(cs, back, front.len() as int, headers());
    lemma_filter_storable(cs, back, front.len() as int, needed_late());
    let a = front.filter(needed());
    let b = back.filter(headers());
    let d = back.filter(needed_late());
    assert(text.kind[0] == 116);
    assert(are_storable(seq![text]));
    assert(are_storable(pieces)) by {
        assert forall|i: int| 0 <= i < pieces.len() implies is_storable(#[trigger] pieces[i]) by {
            assert(pieces[i].kind[1] == 68);
        }
    }
    lemma_storable_concat(a, b);
    lemma_storable_concat(a + b, seq![text]);
    lemma_storable_concat(a + b + seq![text], pieces);
    lemma_storable_concat(a + b + seq![text] + pieces, d);
    lemma_file_of(seq![137u8, 80, 78, 71, 13, 10, 26, 10], all);
    assert(png_file(all).take(8) =~= seq![137u8, 80, 78, 71, 13, 10, 26, 10]);
}

proof fn lemma_storable_concat(a: Seq<Chunk>, b: Seq<Chunk>)
    requires
        are_storable(a),
        are_storable(b),
    ensures
        are_storable(a + b),
{
    assert forall|i: int| 0 <= i < (a + b).len() implies is_storable(#[trigger] (a + b)[i]) by {
        if i < a.len() {
            assert(is_storable(a[i]));
        } else {
            assert(is_storable(b[i - a.len()]));
        }
    }
}

proof fn lemma_listed_storable(file: Seq<u8>, pos: int, cs: Seq<Chunk>)
    requires
        lists(file, pos, cs),
    ensures
        are_storable(cs),
    decreases cs.len(),
{
    if cs.len() > 0 {
        let rest = cs.skip(1);
        lemma_listed_storable(file, pos + 12 + cs[0].data.len(), rest);
        assert forall|i: int| 0 <= i < cs.len() implies is_storable(#[trigger] cs[i]) by {
            if i > 0 {
                assert(is_storable(rest[i - 1]));
            }
        }
    }
}

proof fn lemma_filter_storable(all: Seq<Chunk>, cs: Seq<Chunk>, at: int, wanted: spec_fn(Chunk) -> bool)
    requires
        are_storable(all),
        0 <= at,
        at + cs.len() <= all.len(),
        forall|i: int| 0 <= i < cs.len() ==> #[trigger] cs[i] == all[at + i],
    ensures
        are_storable(cs.filter(wanted)),
    decreases cs.len(),
{
    reveal(Seq::filter);
    if cs.len() > 0 {
        let t = cs.drop_last();
        assert forall|i: int| 0 <= i < t.len() implies #[trigger] t[i] == all[at + i] by {
            assert(cs[i] == all[at + i]);
        }
        lemma_filter_storable(all, t, at, wanted);
        assert(cs[cs.len() - 1] == all[at + cs.len() - 1]);
        assert(is_storable(all[at + cs.len() - 1]));
        let f = t.filter(wanted);
        assert forall|i: int| 0 <= i < cs.filter(wanted).len() implies is_storable(
            #[trigger] cs.filter(wanted)[i],
        ) by {
            if i < f.len() {
                assert(is_storable(f[i]));
            }
        }
    }
}

/// A chunk that is put into a file stands there.
proof fn lemma_put(head: Seq<u8>, c: Chunk, tail: Seq<u8>)
    requires
        c.kind.len() == 4,
        c.data.len() < 4294967296,
    ensures
        holds_chunk(head + encode_chunk(c) + tail, head.len() as int, c),
        holds_checksum(head + encode_chunk(c) + tail, head.len() as int, c),
        encode_chunk(c).len() == 12 + c.data.len(),
{
    let n = c.data.len() as int;
    let crc = chunk_crc(c.kind, c.data) as int;
    let head2 = head + be_bytes(n) + c.kind + c.data;
    lemma_four(head, n, c.kind + c.data + be_bytes(crc) + tail);
    lemma_four(head2, crc, tail);
    let file = head + encode_chunk(c) + tail;
    assert(file =~= head + be_bytes(n) + (c.kind + c.data + be_bytes(crc) + tail));
    assert(file =~= head2 + be_bytes(crc) + tail);
    let pos = head.len() as int;
    assert(file.subrange(pos + 4, pos + 8) =~= c.kind);
    assert(file.subrange(pos + 8, pos + 8 + n) =~= c.data);
}

/// The four bytes of a number stand for it.
proof fn lemma_four(head: Seq<u8>, n: int, tail: Seq<u8>)
    requires
        0 <= n < 4294967296,
    ensures
        ({
            let file = head + be_bytes(n) + tail;
            let pos = head.len() as int;
            file[pos] * 16777216 + file[pos + 1] * 65536 + file[pos + 2] * 256 + file[pos + 3] == n
        }),
{
    let file = head + be_bytes(n) + tail;
    let pos = head.len() as int;
    let b = be_bytes(n);
    assert(file[pos] == b[0] && file[pos + 1] == b[1] && file[pos + 2] == b[2] && file[pos + 3] == b[3]);
    assert(b[0] * 16777216 + b[1] * 65536 + b[2] * 256 + b[3] == n);
}

proof fn lemma_file_of(head: Seq<u8>, cs: Seq<Chunk>)
    requires
        are_storable(cs),
    ensures
        is_closed_list(
            head + encode_chunks(cs) + encode_chunk(Chunk { kind: seq![73u8, 69, 78, 68], data: Seq::empty() }),
            head.len() as int,
            cs,
        ),
    decreases cs.len(),
{
    let last = Chunk { kind: seq![73u8, 69, 78, 68], data: Seq::empty() };
    let end = encode_chunk(last);
    if cs.len() == 0 {
        assert(head + encode_chunks(cs) + end =~= head + end + Seq::<u8>::empty());
        lemma_put(head, last, Seq::empty());
    } else {
        let c = cs[0];
        let rest = cs.skip(1);
        assert(cs =~= seq![c] + rest);
        assert(is_storable(c));
        assert(are_storable(rest)) by {
            assert forall|i: int| 0 <= i < rest.len() implies is_storable(#[trigger] rest[i]) by {
                assert(is_storable(cs[i + 1]));
            }
        }
        lemma_encode_cons(c, rest);
        let one = encode_chunk(c);
        let more = encode_chunks(rest) + end;
        lemma_put(head, c, more);
        lemma_file_of(head + one, rest);
        lemma_regroup(head, one, encode_chunks(rest), end);
        assert((head + one).len() == head.len() + 12 + c.data.len());
    }
}

proof fn lemma_regroup(a: Seq<u8>, b: Seq<u8>, c: Seq<u8>, d: Seq<u8>)
    ensures
        a + (b + c) + d == a + b + (c + d),
        a + b + c + d == a + b + (c + d),
{
    assert(a + (b + c) + d =~= a + b + (c + d));
    assert(a + b + c + d =~= a + b + (c + d));
}

/// A file without pixel data is not copied.
pub proof fn law_files_without_pixels_are_refused(file: Seq<u8>, cs: Seq<Chunk>, keyword: Seq<u8>, value: Seq<u8>)
    requires
        begins_as_png(file),
        lists(file, 8, cs),
        lacks(cs, seq![73u8, 68, 65, 84]),
    ensures
        copied(file, keyword, value) == Err::<(Seq<u8>, int), Seq<char>>("No IDAT chunk found in PNG file"@),
{
    law_chunks_are_found(file, 8, cs);
    lemma_before(cs);
}

/// A file whose chunks of pixel data are all empty is not copied either.
pub proof fn law_files_with_empty_pixels_are_refused(
    file: Seq<u8>,
    front: Seq<Chunk>,
    back: Seq<Chunk>,
    keyword: Seq<u8>,
    value: Seq<u8>,
)
    requires
        begins_as_png(file),
        lists(file, 8, front + back),
        lacks(front, seq![73u8, 68, 65, 84]),
        back.len() > 0,
        back[0].kind == seq![73u8, 68, 65, 84],
        back.filter(pixel_chunks()).map_values(data_of()).flatten_alt().len() == 0,
    ensures
        copied(file, keyword, value) == Err::<(Seq<u8>, int), Seq<char>>("No IDAT chunk found in PNG file"@),
{
    law_chunks_are_found(file, 8, front + back);
    lemma_behind(front, back);
}

/// A text chunk that begins with the bytes of `optipng-rs` and a zero byte.
pub open spec fn is_own_mark(c: Chunk) -> bool {
    &&& c.kind == seq![116u8, 69, 88, 116]
    &&& c.data.len() >= 11
    &&& c.data.take(11) == seq![111u8, 112, 116, 105, 112, 110, 103, 45, 114, 115, 0]
}

/// A file counts as optimized before if, and only if, it lists a text chunk
/// with the program's own keyword.
pub proof fn law_optimized_files_are_marked(file: Seq<u8>, pos: int, cs: Seq<Chunk>)
    requires
        lists(file, pos, cs),
    ensures
        is_marked_from(file, pos, own_keyword()) <==> exists|i: int| 0 <= i < cs.len() && is_own_mark(#[trigger] cs[i]),
    decreases cs.len(),
{
    if cs.len() == 0 {
        let end = choose|end: Chunk| #[trigger] holds_chunk(file, pos, end) && end.kind == seq![73u8, 69, 78, 68];
        assert(file.subrange(pos + 4, pos + 8)[0] == 73);
    } else {
        let c = cs[0];
        let rest = cs.skip(1);
        let next = pos + 12 + c.data.len();
        law_optimized_files_are_marked(file, next, rest);
        lemma_mark(c.data);
        if is_own_mark(c) {
            assert(is_own_mark(cs[0]));
        }
        if exists|i: int| 0 <= i < rest.len() && is_own_mark(#[trigger] rest[i]) {
            let i = choose|i: int| 0 <= i < rest.len() && is_own_mark(#[trigger] rest[i]);
            assert(is_own_mark(cs[i + 1]));
        }
        if exists|i: int| 0 <= i < cs.len() && is_own_mark(#[trigger] cs[i]) {
            let i = choose|i: int| 0 <= i < cs.len() && is_own_mark(#[trigger] cs[i]);
            if i > 0 {
                assert(is_own_mark(rest[i - 1]));
            }
        }
        assert(be_number(file, pos) == c.data.len());
    }
}

/// The keyword stands in front of the first zero byte.
proof fn lemma_mark(data: Seq<u8>)
    ensures
        has_keyword(data, own_keyword()) <==> data.len() >= 11 && data.take(11) == seq![
            111u8,
            112,
            116,
            105,
            112,
            110,
            103,
            45,
            114,
            115,
            0,
        ],
{
    let mark = seq![111u8, 112, 116, 105, 112, 110, 103, 45, 114, 115, 0];
    lemma_keyword();
    lemma_zero_at(data);
    let z = zero_at(data);
    if has_keyword(data, own_keyword()) {
        assert(data.take(z).len() == 10);
        assert(data.take(11) =~= mark) by {
            assert forall|i: int| 0 <= i < 10 implies data[i] == mark[i] by {
                assert(data.take(z)[i] == own_keyword()[i]);
            }
        }
    }
    if data.len() >= 11 && data.take(11) == mark {
        assert forall|i: int| 0 <= i < 11 implies data[i] == mark[i] by {
            assert(data.take(11)[i] == mark[i]);
        }
        assert(data[10] == 0);
        assert(z == 10);
        assert(data.take(10) =~= own_keyword());
    }
}

proof fn lemma_keyword()
    ensures
        own_keyword() == seq![111u8, 112, 116, 105, 112, 110, 103, 45, 114, 115],
{
    reveal_strlit("optipng-rs");
    let s = "optipng-rs"@;
    assert(is_ascii_chars(s));
    is_ascii_chars_encode_utf8(s);
    assert forall|i: int| 0 <= i < own_keyword().len() implies own_keyword()[i] == s[i] as u8 by {
        assert(s[i] as u8 == encode_utf8(s)[i]);
    }
    assert(own_keyword() =~= seq![111u8, 112, 116, 105, 112, 110, 103, 45, 114, 115]);
}

/// The number in four bytes, lowest byte first.
pub open spec fn low_first(n: u32) -> Seq<u8> {
    seq![
        (n & 0xFF) as u8,
        ((n >> 8) & 0xFF) as u8,
        ((n >> 16) & 0xFF) as u8,
        ((n >> 24) & 0xFF) as u8,
    ]
}

/// One byte more, when the remainder before it is `k` but for the bits of
/// `c` that are still to come.
proof fn lemma_residue_step(c: u32, k: u32, b: u32, low: u32)
    requires
        b < 256,
        ((k ^ c) ^ b) & 0xFF == low,
    ensures
        crc_shifts((k ^ c) ^ b, 8) == crc_shifts(low, 8) ^ ((k >> 8) ^ (c >> 8)),
{
    lemma_crc_table((k ^ c) ^ b);
    assert(((k ^ c) ^ b) >> 8 == (k >> 8) ^ (c >> 8)) by (bit_vector)
        requires
            b < 256,
    ;
}

/// The checksum does what a checksum is for: whoever takes in the type and
/// the data of a chunk and then the checksum itself, lowest byte first, is
/// left with the same remainder for every chunk.
pub proof fn law_checksum_leaves_the_same_remainder(kind: Seq<u8>, data: Seq<u8>)
    ensures
        crc_bytes(0xFFFF_FFFF, kind + data + low_first(chunk_crc(kind, data))) == 0xDEBB_20E3,
{
    let s = kind + data;
    let c = crc_bytes(0xFFFF_FFFF, s);
    let x = !c;
    let t = low_first(x);
    let b0 = x & 0xFF;
    let b1 = (x >> 8) & 0xFF;
    let b2 = (x >> 16) & 0xFF;
    let b3 = (x >> 24) & 0xFF;
    assert(x & 0xFF < 256 && (x >> 8) & 0xFF < 256 && (x >> 16) & 0xFF < 256 && (x >> 24) & 0xFF < 256)
        by (bit_vector);
    let s1 = s.push(t[0]);
    let s2 = s1.push(t[1]);
    let s3 = s2.push(t[2]);
    let s4 = s3.push(t[3]);
    assert(s1.drop_last() =~= s && s2.drop_last() =~= s1 && s3.drop_last() =~= s2 && s4.drop_last() =~= s3);
    assert(s + t =~= s4);
    lemma_residue_constants();
    assert((0u32 ^ c) ^ (!c & 0xFF) == c ^ (!c & 0xFF) && ((0u32 ^ c) ^ (!c & 0xFF)) & 0xFF == 0xFF) by (bit_vector);
    lemma_residue_step(c, 0, b0, 0xFF);
    let c1 = c >> 8;
    assert(0x2D02EF8Du32 ^ ((0u32 >> 8) ^ (c >> 8)) == 0x2D02EF8Du32 ^ (c >> 8)) by (bit_vector);
    assert(crc_bytes(0xFFFF_FFFF, s1) == 0x2D02EF8Du32 ^ c1);
    assert(((0x2D02EF8Du32 ^ (c >> 8)) ^ ((!c >> 8) & 0xFF)) & 0xFF == 0x72) by (bit_vector);
    lemma_residue_step(c1, 0x2D02EF8D, b1, 0x72);
    let c2 = c >> 16;
    assert((c >> 8) >> 8 == c >> 16 && (c >> 16) >> 8 == c >> 24 && (c >> 24) >> 8 == 0) by (bit_vector);
    assert(0xBE0B1010u32 ^ ((0x2D02EF8Du32 >> 8) ^ (c >> 16)) == 0xBE2612FFu32 ^ (c >> 16)) by (bit_vector);
    assert(crc_bytes(0xFFFF_FFFF, s2) == 0xBE2612FFu32 ^ c2);
    assert(((0xBE2612FFu32 ^ (c >> 16)) ^ ((!c >> 16) & 0xFF)) & 0xFF == 0) by (bit_vector);
    lemma_residue_step(c2, 0xBE2612FF, b2, 0);
    let c3 = c >> 24;
    assert(0u32 ^ ((0xBE2612FFu32 >> 8) ^ (c >> 24)) == 0xBE2612u32 ^ (c >> 24)) by (bit_vector);
    assert(crc_bytes(0xFFFF_FFFF, s3) == 0xBE2612u32 ^ c3);
    assert(((0xBE2612u32 ^ (c >> 24)) ^ ((!c >> 24) & 0xFF)) & 0xFF == 0xED) by (bit_vector);
    lemma_residue_step(c3, 0xBE2612, b3, 0xED);
    assert(0xDEBB9EC5u32 ^ ((0xBE2612u32 >> 8) ^ 0) == 0xDEBB20E3u32) by (bit_vector);
}

proof fn lemma_residue_constants()
    ensures
        crc_shifts(0xFF, 8) == 0x2D02EF8D,
        crc_shifts(0x72, 8) == 0xBE0B1010,
        crc_shifts(0, 8) == 0,
        crc_shifts(0xED, 8) == 0xDEBB9EC5,
{
    lemma_crc_eight(0xFF);
    lemma_crc_eight(0x72);
    lemma_crc_eight(0);
    lemma_crc_eight(0xED);
    assert(crc_shift(crc_shift(crc_shift(crc_shift(crc_shift(crc_shift(crc_shift(crc_shift(0xFFu32))))))))
        == 0x2D02EF8D) by (bit_vector);
    assert(crc_shift(crc_shift(crc_shift(crc_shift(crc_shift(crc_shift(crc_shift(crc_shift(0x72u32))))))))
        == 0xBE0B1010) by (bit_vector);
    assert(crc_shift(crc_shift(crc_shift(crc_shift(crc_shift(crc_shift(crc_shift(crc_shift(0u32))))))))
        == 0) by (bit_vector);
    assert(crc_shift(crc_shift(crc_shift(crc_shift(crc_shift(crc_shift(crc_shift(crc_shift(0xEDu32))))))))
        == 0xDEBB9EC5) by (bit_vector);
}

}
