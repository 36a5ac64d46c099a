//! What holds of copies of PNG files that keep the compressed pixel data.
use crate::chunk_parser::{
    be_bytes, be_number, chunk_at, chunks_from, copied, copied_chunks, encode_chunk, encode_chunks, has_idat, idat,
    idat_chunks, idat_payload, iend, ihdr, is_essential, is_kept, is_marked_from, is_own_text, is_png, leading,
    lemma_encode_cons, lemma_has_idat_push, lemma_zero_at, own_keyword, png_file, png_signature, text_chunk,
    text_kind, trailing, trns, zero_at, Chunk,
};
use vstd::prelude::*;
use vstd::utf8::{encode_utf8, is_ascii_chars, is_ascii_chars_encode_utf8};

verus! {

/// Chunks that can stand in a file before `IEND`.
pub open spec fn are_storable(cs: Seq<Chunk>) -> bool {
    forall|i: int| 0 <= i < cs.len() ==> is_storable(#[trigger] cs[i])
}

pub open spec fn is_storable(c: Chunk) -> bool {
    c.kind.len() == 4 && c.kind != iend() && c.data.len() < 0x1_0000_0000
}

spec fn end_chunk() -> Chunk {
    Chunk { kind: iend(), data: Seq::empty() }
}

proof fn lemma_be(data: Seq<u8>, pos: int, n: int)
    requires
        0 <= n < 0x1_0000_0000,
        0 <= pos,
        pos + 4 <= data.len(),
        data.subrange(pos, pos + 4) == be_bytes(n),
    ensures
        be_number(data, pos) == n,
{
    let s = data.subrange(pos, pos + 4);
    assert(s[0] == data[pos] && s[1] == data[pos + 1] && s[2] == data[pos + 2] && s[3] == data[pos + 3]);
}

/// A chunk that was put into a file is found there again.
proof fn lemma_chunk_read_back(head: Seq<u8>, c: Chunk, tail: Seq<u8>)
    requires
        c.kind.len() == 4,
        c.data.len() < 0x1_0000_0000,
    ensures
        ({
            let file = head + encode_chunk(c) + tail;
            let pos = head.len() as int;
            &&& be_number(file, pos) == c.data.len()
            &&& file.subrange(pos + 4, pos + 8) == c.kind
            &&& file.subrange(pos + 8, pos + 8 + c.data.len()) == c.data
            &&& encode_chunk(c).len() == 12 + c.data.len()
        }),
{
    let file = head + encode_chunk(c) + tail;
    let pos = head.len() as int;
    assert(file.subrange(pos, pos + 4) =~= be_bytes(c.data.len() as int));
    lemma_be(file, pos, c.data.len() as int);
    assert(file.subrange(pos + 4, pos + 8) =~= c.kind);
    assert(file.subrange(pos + 8, pos + 8 + c.data.len()) =~= c.data);
}

proof fn lemma_read_on(file: Seq<u8>, pos: int, c: Chunk, rest: Seq<Chunk>)
    requires
        0 <= pos,
        pos + 12 + c.data.len() <= file.len(),
        be_number(file, pos) == c.data.len(),
        file.subrange(pos + 4, pos + 8) == c.kind,
        file.subrange(pos + 8, pos + 8 + c.data.len()) == c.data,
        c.kind != iend(),
        chunks_from(file, pos + 12 + c.data.len()) == Some(rest),
    ensures
        chunks_from(file, pos) == Some(seq![c] + rest),
{
    assert(chunk_at(file, pos) == c);
}

proof fn lemma_read_end(head: Seq<u8>)
    ensures
        chunks_from(head + encode_chunk(end_chunk()), head.len() as int) == Some(Seq::<Chunk>::empty()),
{
    let file = head + encode_chunk(end_chunk());
    assert(file =~= head + encode_chunk(end_chunk()) + Seq::<u8>::empty());
    lemma_chunk_read_back(head, end_chunk(), Seq::empty());
}

proof fn lemma_read_back(head: Seq<u8>, cs: Seq<Chunk>)
    requires
        are_storable(cs),
    ensures
        chunks_from(head + encode_chunks(cs) + encode_chunk(end_chunk()), head.len() as int) == Some(cs),
    decreases cs.len(),
{
    let end = encode_chunk(end_chunk());
    let pos = head.len() as int;
    if cs.len() == 0 {
        assert(head + encode_chunks(cs) + end =~= head + end);
        lemma_read_end(head);
        assert(cs =~= Seq::<Chunk>::empty());
    } else {
        let c = cs[0];
        let rest = cs.skip(1);
        assert(cs =~= seq![c] + rest);
        assert(is_storable(c));
        assert(are_storable(rest)) by {
            assert forall|i: int| 0 <= i < rest.len() implies is_storable(#[trigger] rest[i]) by {
                assert(is_storable(cs[i + 1]));
            }
        }
        lemma_encode_cons(c, rest);
        let more = encode_chunks(rest) + end;
        let one = encode_chunk(c);
        lemma_chunk_read_back(head, c, more);
        lemma_read_back(head + one, rest);
        lemma_regroup(head, one, encode_chunks(rest), end);
        lemma_read_on(head + one + more, pos, c, rest);
    }
}

proof fn lemma_regroup(a: Seq<u8>, b: Seq<u8>, c: Seq<u8>, d: Seq<u8>)
    ensures
        a + (b + c) + d == a + b + (c + d),
        a + b + c + d == a + b + (c + d),
{
    assert(a + (b + c) + d =~= a + b + (c + d));
    assert(a + b + c + d =~= a + b + (c + d));
}

/// A file that has a text with the keyword among its chunks is recognised by
/// it.
pub proof fn law_own_text_is_recognised(file: Seq<u8>, pos: int, keyword: Seq<u8>, k: int)
    requires
        chunks_from(file, pos) is Some,
        0 <= k < chunks_from(file, pos)->0.len(),
        is_own_text(chunks_from(file, pos)->0[k], keyword),
    ensures
        is_marked_from(file, pos, keyword),
    decreases file.len() - pos,
{
    let c = chunk_at(file, pos);
    let next = pos + 12 + be_number(file, pos);
    assert(c.data.len() == be_number(file, pos));
    if k > 0 {
        assert(chunks_from(file, next)->0[k - 1] == chunks_from(file, pos)->0[k]);
        law_own_text_is_recognised(file, next, keyword, k - 1);
    }
}

proof fn lemma_chunks_storable(data: Seq<u8>, pos: int)
    ensures
        chunks_from(data, pos) matches Some(cs) ==> are_storable(cs),
    decreases data.len() - pos,
{
    if 0 <= pos && pos + 12 <= data.len() && pos + 12 + be_number(data, pos) <= data.len() && data.subrange(
        pos + 4,
        pos + 8,
    ) != iend() {
        let next = pos + 12 + be_number(data, pos);
        lemma_chunks_storable(data, next);
        if let Some(rest) = chunks_from(data, next) {
            let c = chunk_at(data, pos);
            let cs = seq![c] + rest;
            assert(is_storable(c));
            assert forall|i: int| 0 <= i < cs.len() implies is_storable(#[trigger] cs[i]) by {
                if i > 0 {
                    assert(cs[i] == rest[i - 1]);
                }
            }
        }
    }
}

spec fn all_kept(cs: Seq<Chunk>) -> bool {
    forall|i: int| 0 <= i < cs.len() ==> is_kept(#[trigger] cs[i])
}

spec fn none_is(cs: Seq<Chunk>, kind: Seq<u8>) -> bool {
    forall|i: int| 0 <= i < cs.len() ==> (#[trigger] cs[i]).kind != kind
}

spec fn all_idat(cs: Seq<Chunk>) -> bool {
    forall|i: int| 0 <= i < cs.len() ==> (#[trigger] cs[i]).kind == idat()
}

proof fn lemma_sides(cs: Seq<Chunk>)
    requires
        are_storable(cs),
    ensures
        all_kept(leading(cs)),
        all_kept(trailing(cs)),
        none_is(trailing(cs), ihdr()),
        are_storable(leading(cs)),
        are_storable(trailing(cs)),
    decreases cs.len(),
{
    if cs.len() > 0 {
        assert(is_storable(cs[cs.len() - 1]));
        assert(are_storable(cs.drop_last())) by {
            assert forall|i: int| 0 <= i < cs.drop_last().len() implies is_storable(#[trigger] cs.drop_last()[i]) by {
                assert(is_storable(cs[i]));
            }
        }
        lemma_sides(cs.drop_last());
    }
}

/// Kept chunks in front of any pixel data are all leading.
proof fn lemma_front(cs: Seq<Chunk>)
    requires
        all_kept(cs),
    ensures
        leading(cs) == cs,
        trailing(cs) == Seq::<Chunk>::empty(),
        idat_payload(cs) == Seq::<u8>::empty(),
        !has_idat(cs),
    decreases cs.len(),
{
    if cs.len() > 0 {
        let t = cs.drop_last();
        assert(is_kept(cs[cs.len() - 1]));
        assert(all_kept(t)) by {
            assert forall|i: int| 0 <= i < t.len() implies is_kept(#[trigger] t[i]) by {
                assert(is_kept(cs[i]));
            }
        }
        lemma_front(t);
        lemma_has_idat_push(t, cs.last());
        assert(t.push(cs.last()) =~= cs);
    }
}

/// `IDAT` chunks add to the pixel data only.
proof fn lemma_middle(cs: Seq<Chunk>, p: Seq<Chunk>)
    requires
        all_idat(p),
    ensures
        leading(cs + p) == leading(cs),
        trailing(cs + p) == trailing(cs),
        idat_payload(cs + p) == idat_payload(cs) + idat_payload(p),
        has_idat(cs + p) == (has_idat(cs) || p.len() > 0),
    decreases p.len(),
{
    if p.len() == 0 {
        assert(cs + p =~= cs);
        assert(idat_payload(cs) + idat_payload(p) =~= idat_payload(cs));
    } else {
        let q = p.drop_last();
        assert(p[p.len() - 1].kind == idat());
        assert(all_idat(q)) by {
            assert forall|i: int| 0 <= i < q.len() implies (#[trigger] q[i]).kind == idat() by {
                assert(p[i].kind == idat());
            }
        }
        lemma_middle(cs, q);
        assert((cs + p).drop_last() =~= cs + q);
        assert((cs + p).last() == p.last());
        assert((cs + q).push(p.last()) =~= cs + p);
        lemma_has_idat_push(cs + q, p.last());
        assert(idat_payload(cs + p) =~= idat_payload(cs) + idat_payload(p));
    }
}

/// Kept chunks behind pixel data are all trailing.
proof fn lemma_back(cs: Seq<Chunk>, t: Seq<Chunk>)
    requires
        has_idat(cs),
        all_kept(t),
        none_is(t, ihdr()),
    ensures
        leading(cs + t) == leading(cs),
        trailing(cs + t) == trailing(cs) + t,
        idat_payload(cs + t) == idat_payload(cs),
        has_idat(cs + t),
    decreases t.len(),
{
    if t.len() == 0 {
        assert(cs + t =~= cs);
        assert(trailing(cs) + t =~= trailing(cs));
    } else {
        let q = t.drop_last();
        assert(is_kept(t[t.len() - 1]));
        assert(t[t.len() - 1].kind != ihdr());
        assert(all_kept(q)) by {
            assert forall|i: int| 0 <= i < q.len() implies is_kept(#[trigger] q[i]) by {
                assert(is_kept(t[i]));
            }
        }
        assert(none_is(q, ihdr())) by {
            assert forall|i: int| 0 <= i < q.len() implies (#[trigger] q[i]).kind != ihdr() by {
                assert(t[i].kind != ihdr());
            }
        }
        lemma_back(cs, q);
        assert((cs + t).drop_last() =~= cs + q);
        assert((cs + t).last() == t.last());
        assert((cs + q).push(t.last()) =~= cs + t);
        lemma_has_idat_push(cs + q, t.last());
        assert(trailing(cs + t) =~= trailing(cs) + t);
    }
}

proof fn lemma_payload_cons(c: Chunk, cs: Seq<Chunk>)
    requires
        c.kind == idat(),
        all_idat(cs),
    ensures
        idat_payload(seq![c] + cs) == c.data + idat_payload(cs),
{
    let one = seq![c];
    assert(one.drop_last() =~= Seq::<Chunk>::empty());
    assert(one.last() == c);
    assert(idat_payload(one.drop_last()) =~= Seq::<u8>::empty());
    assert(idat_payload(one) =~= c.data);
    lemma_middle(one, cs);
}

/// The chunks that pixel data are put into hold these pixel data.
proof fn lemma_idat_chunks(payload: Seq<u8>)
    ensures
        all_idat(idat_chunks(payload)),
        are_storable(idat_chunks(payload)),
        idat_payload(idat_chunks(payload)) == payload,
        payload.len() > 0 ==> idat_chunks(payload).len() > 0,
    decreases payload.len(),
{
    assert(idat()[1] != iend()[1]);
    if payload.len() == 0 {
        assert(idat_payload(idat_chunks(payload)) =~= payload);
    } else if payload.len() <= 0x7FFF_FFFF {
        let c = Chunk { kind: idat(), data: payload };
        lemma_payload_cons(c, Seq::empty());
        assert(seq![c] + Seq::<Chunk>::empty() =~= seq![c]);
        assert(idat_payload(seq![c]) =~= payload);
    } else {
        let c = Chunk { kind: idat(), data: payload.take(0x7FFF_FFFF) };
        let rest = payload.skip(0x7FFF_FFFF);
        lemma_idat_chunks(rest);
        lemma_payload_cons(c, idat_chunks(rest));
        assert(payload.take(0x7FFF_FFFF) + rest =~= payload);
        let all = idat_chunks(payload);
        assert forall|i: int| 0 <= i < all.len() implies (#[trigger] all[i]).kind == idat() && is_storable(all[i]) by {
            if i > 0 {
                assert(all[i] == idat_chunks(rest)[i - 1]);
            }
        }
    }
}

proof fn lemma_text_chunk(keyword: Seq<u8>, value: Seq<u8>)
    requires
        !keyword.contains(0),
    ensures
        is_own_text(text_chunk(keyword, value), keyword),
{
    let data = text_chunk(keyword, value).data;
    lemma_zero_at(data);
    let z = zero_at(data);
    assert(data[keyword.len() as int] == 0);
    if z < keyword.len() {
        assert(data[z] == keyword[z]);
    }
    assert(data.take(keyword.len() as int) =~= keyword);
}

proof fn lemma_copied_storable(cs: Seq<Chunk>, keyword: Seq<u8>, value: Seq<u8>)
    requires
        are_storable(cs),
        keyword.len() + 1 + value.len() < 0x1_0000_0000,
    ensures
        are_storable(copied_chunks(cs, keyword, value)),
{
    lemma_sides(cs);
    lemma_idat_chunks(idat_payload(cs));
    let a = leading(cs);
    let t = text_chunk(keyword, value);
    let p = idat_chunks(idat_payload(cs));
    let b = trailing(cs);
    let all = copied_chunks(cs, keyword, value);
    assert(text_kind()[0] != iend()[0]);
    assert forall|i: int| 0 <= i < all.len() implies is_storable(#[trigger] all[i]) by {
        if i < a.len() {
            assert(all[i] == a[i]);
        } else if i == a.len() {
            assert(all[i] == t);
        } else if i < a.len() + 1 + p.len() {
            assert(all[i] == p[i - a.len() - 1]);
        } else {
            assert(all[i] == b[i - a.len() - 1 - p.len()]);
        }
    }
}

/// A copy is a PNG file, and its chunks are the kept chunks, the text chunk
/// and the joined pixel data, in this order. This holds for every text that
/// fits into a chunk.
pub proof fn law_copy_reads_back(raw: Seq<u8>, keyword: Seq<u8>, value: Seq<u8>)
    requires
        copied(raw, keyword, value) is Ok,
        keyword.len() + 1 + value.len() < 0x1_0000_0000,
    ensures
        is_png(copied(raw, keyword, value)->Ok_0.0),
        chunks_from(copied(raw, keyword, value)->Ok_0.0, 8) == Some(
            copied_chunks(chunks_from(raw, 8)->0, keyword, value),
        ),
{
    let cs = chunks_from(raw, 8)->0;
    lemma_chunks_storable(raw, 8);
    let all = copied_chunks(cs, keyword, value);
    lemma_copied_storable(cs, keyword, value);
    lemma_read_back(png_signature(), all);
    assert(png_file(all).take(8) =~= png_signature());
}

/// The pixel data of a copy stand in a single chunk, unless they are larger
/// than a chunk can be.
pub proof fn law_copy_joins_pixel_data(cs: Seq<Chunk>)
    requires
        0 < idat_payload(cs).len() <= 0x7FFF_FFFF,
    ensures
        idat_chunks(idat_payload(cs)) == seq![Chunk { kind: idat(), data: idat_payload(cs) }],
{
}

/// A copy has the compressed pixel data of the file that it was made from.
pub proof fn law_copy_keeps_pixel_data(raw: Seq<u8>, keyword: Seq<u8>, value: Seq<u8>)
    requires
        copied(raw, keyword, value) is Ok,
        keyword.len() + 1 + value.len() < 0x1_0000_0000,
    ensures
        chunks_from(copied(raw, keyword, value)->Ok_0.0, 8) is Some,
        idat_payload(chunks_from(copied(raw, keyword, value)->Ok_0.0, 8)->0) == idat_payload(chunks_from(raw, 8)->0),
{
    law_copy_reads_back(raw, keyword, value);
    lemma_chunks_storable(raw, 8);
    lemma_copied_parts(chunks_from(raw, 8)->0, keyword, value);
}

proof fn lemma_copied_parts(cs: Seq<Chunk>, keyword: Seq<u8>, value: Seq<u8>)
    requires
        are_storable(cs),
        idat_payload(cs).len() > 0,
    ensures
        idat_payload(copied_chunks(cs, keyword, value)) == idat_payload(cs),
        leading(copied_chunks(cs, keyword, value)) == leading(cs),
        trailing(copied_chunks(cs, keyword, value)) == trailing(cs),
{
    lemma_sides(cs);
    lemma_idat_chunks(idat_payload(cs));
    let a = leading(cs);
    let t = text_chunk(keyword, value);
    let p = idat_chunks(idat_payload(cs));
    let b = trailing(cs);
    lemma_front(a);
    let at = a + seq![t];
    assert(at.drop_last() =~= a);
    assert(at.last() == t);
    assert(at =~= a.push(t));
    assert(text_kind()[0] != idat()[0]);
    lemma_has_idat_push(a, t);
    assert(text_kind()[1] != trns()[1]);
    assert(!is_kept(t));
    lemma_middle(at, p);
    lemma_back(at + p, b);
    assert(Seq::<u8>::empty() + idat_payload(cs) =~= idat_payload(cs));
    assert(Seq::<Chunk>::empty() + b =~= b);
}

/// A copy of a copy is a copy of the first file: the text chunk is replaced,
/// and nothing piles up. With the same text the copy does not change.
pub proof fn law_copy_of_copy(
    raw: Seq<u8>,
    keyword: Seq<u8>,
    value: Seq<u8>,
    other_keyword: Seq<u8>,
    other_value: Seq<u8>,
)
    requires
        copied(raw, keyword, value) is Ok,
        keyword.len() + 1 + value.len() < 0x1_0000_0000,
    ensures
        copied(copied(raw, keyword, value)->Ok_0.0, other_keyword, other_value) == copied(
            raw,
            other_keyword,
            other_value,
        ),
        copied(copied(raw, keyword, value)->Ok_0.0, keyword, value) == copied(raw, keyword, value),
{
    law_copy_reads_back(raw, keyword, value);
    lemma_chunks_storable(raw, 8);
    lemma_copied_parts(chunks_from(raw, 8)->0, keyword, value);
}

/// A copy has no metadata but the text that it was given: every other chunk
/// is essential.
pub proof fn law_copy_strips_metadata(cs: Seq<Chunk>, keyword: Seq<u8>, value: Seq<u8>)
    ensures
        forall|i: int|
            0 <= i < copied_chunks(cs, keyword, value).len() ==> is_essential(
                (#[trigger] copied_chunks(cs, keyword, value)[i]).kind,
            ) || copied_chunks(cs, keyword, value)[i] == text_chunk(keyword, value),
{
    lemma_sides_kept(cs);
    lemma_idat_chunks(idat_payload(cs));
    let a = leading(cs);
    let p = idat_chunks(idat_payload(cs));
    let b = trailing(cs);
    let all = copied_chunks(cs, keyword, value);
    assert forall|i: int| 0 <= i < all.len() implies is_essential((#[trigger] all[i]).kind) || all[i] == text_chunk(
        keyword,
        value,
    ) by {
        if i < a.len() {
            assert(all[i] == a[i]);
        } else if i == a.len() {
            assert(all[i] == text_chunk(keyword, value));
        } else if i < a.len() + 1 + p.len() {
            assert(all[i] == p[i - a.len() - 1]);
        } else {
            assert(all[i] == b[i - a.len() - 1 - p.len()]);
        }
    }
}

/// The header stands before all pixel data.
pub open spec fn header_leads(cs: Seq<Chunk>) -> bool {
    forall|i: int, j: int|
        0 <= i < j < cs.len() && (#[trigger] cs[i]).kind == idat() ==> (#[trigger] cs[j]).kind != ihdr()
}

/// The essential chunks beside the pixel data, in their order.
pub open spec fn essentials(cs: Seq<Chunk>) -> Seq<Chunk>
    decreases cs.len(),
{
    if cs.len() == 0 {
        cs
    } else if is_kept(cs.last()) {
        essentials(cs.drop_last()).push(cs.last())
    } else {
        essentials(cs.drop_last())
    }
}

proof fn lemma_essentials(cs: Seq<Chunk>)
    requires
        header_leads(cs),
    ensures
        essentials(cs) == leading(cs) + trailing(cs),
        !has_idat(cs) ==> trailing(cs).len() == 0,
    decreases cs.len(),
{
    if cs.len() > 0 {
        let d = cs.drop_last();
        assert(header_leads(d)) by {
            assert forall|i: int, j: int| 0 <= i < j < d.len() && (#[trigger] d[i]).kind == idat() implies (
            #[trigger] d[j]).kind != ihdr() by {
                assert(cs[i].kind == idat());
                assert(cs[j].kind != ihdr());
            }
        }
        lemma_essentials(d);
        assert(d.push(cs.last()) =~= cs);
        lemma_has_idat_push(d, cs.last());
        if has_idat(d) {
            let i = choose|i: int| 0 <= i < d.len() && (#[trigger] d[i]).kind == idat();
            assert(cs[i].kind == idat());
            assert(cs[cs.len() - 1].kind != ihdr());
        }
        assert(essentials(cs) =~= leading(cs) + trailing(cs));
    } else {
        assert(essentials(cs) =~= leading(cs) + trailing(cs));
    }
}

proof fn lemma_essentials_concat(a: Seq<Chunk>, b: Seq<Chunk>)
    ensures
        essentials(a + b) == essentials(a) + essentials(b),
    decreases b.len(),
{
    if b.len() == 0 {
        assert(a + b =~= a);
        assert(essentials(a) + essentials(b) =~= essentials(a));
    } else {
        assert((a + b).drop_last() =~= a + b.drop_last());
        assert((a + b).last() == b.last());
        lemma_essentials_concat(a, b.drop_last());
        assert(essentials(a + b) =~= essentials(a) + essentials(b));
    }
}

proof fn lemma_all_essential(cs: Seq<Chunk>)
    ensures
        all_kept(cs) ==> essentials(cs) == cs,
        all_idat(cs) ==> essentials(cs).len() == 0,
    decreases cs.len(),
{
    if cs.len() > 0 {
        let d = cs.drop_last();
        lemma_all_essential(d);
        if all_kept(cs) {
            assert(is_kept(cs[cs.len() - 1]));
            assert forall|i: int| 0 <= i < d.len() implies is_kept(#[trigger] d[i]) by {
                assert(is_kept(cs[i]));
            }
            assert(d.push(cs.last()) =~= cs);
        }
        if all_idat(cs) {
            assert(cs[cs.len() - 1].kind == idat());
            assert forall|i: int| 0 <= i < d.len() implies (#[trigger] d[i]).kind == idat() by {
                assert(cs[i].kind == idat());
            }
        }
    }
}

/// The header, the palette, the transparency and all other essential chunks
/// keep their data and their order, in every file whose header stands before
/// its pixel data.
pub proof fn law_copy_keeps_essentials(cs: Seq<Chunk>, keyword: Seq<u8>, value: Seq<u8>)
    requires
        header_leads(cs),
    ensures
        essentials(copied_chunks(cs, keyword, value)) == essentials(cs),
{
    lemma_sides_kept(cs);
    lemma_idat_chunks(idat_payload(cs));
    lemma_essentials(cs);
    let a = leading(cs);
    let t = seq![text_chunk(keyword, value)];
    let p = idat_chunks(idat_payload(cs));
    let b = trailing(cs);
    assert(text_kind()[1] != trns()[1]);
    assert(t.drop_last() =~= Seq::<Chunk>::empty());
    assert(!is_kept(t.last()));
    assert(essentials(t.drop_last()) =~= Seq::<Chunk>::empty());
    assert(essentials(t) =~= Seq::<Chunk>::empty());
    lemma_essentials_concat(a, t);
    lemma_essentials_concat(a + t, p);
    lemma_essentials_concat(a + t + p, b);
    lemma_all_essential(a);
    lemma_all_essential(p);
    lemma_all_essential(b);
    assert(essentials(copied_chunks(cs, keyword, value)) =~= a + b);
}

proof fn lemma_sides_kept(cs: Seq<Chunk>)
    ensures
        all_kept(leading(cs)),
        all_kept(trailing(cs)),
    decreases cs.len(),
{
    if cs.len() > 0 {
        lemma_sides_kept(cs.drop_last());
    }
}

/// A copy that carries the program's own text is recognised as optimized.
pub proof fn law_copy_is_recognised(raw: Seq<u8>, value: Seq<u8>)
    requires
        copied(raw, own_keyword(), value) is Ok,
        own_keyword().len() + 1 + value.len() < 0x1_0000_0000,
    ensures
        is_png(copied(raw, own_keyword(), value)->Ok_0.0),
        is_marked_from(copied(raw, own_keyword(), value)->Ok_0.0, 8, own_keyword()),
{
    let keyword = own_keyword();
    law_copy_reads_back(raw, keyword, value);
    lemma_chunks_storable(raw, 8);
    let cs = chunks_from(raw, 8)->0;
    let all = copied_chunks(cs, keyword, value);
    lemma_own_keyword();
    lemma_text_chunk(keyword, value);
    let k = leading(cs).len() as int;
    assert(all[k] == text_chunk(keyword, value));
    law_own_text_is_recognised(copied(raw, keyword, value)->Ok_0.0, 8, keyword, k);
}

proof fn lemma_own_keyword()
    ensures
        !own_keyword().contains(0),
{
    reveal_strlit("optipng-rs");
    let s = "optipng-rs"@;
    assert(is_ascii_chars(s));
    is_ascii_chars_encode_utf8(s);
    assert forall|i: int| 0 <= i < own_keyword().len() implies own_keyword()[i] != 0 by {
        assert(s[i] as u8 == encode_utf8(s)[i]);
    }
}

}
