//! The chunk structure of PNG files: checksums, recognition of files that
//! were optimized before, and copies that keep the compressed pixel data.
use vstd::prelude::*;
use vstd::utf8::encode_utf8;

verus! {

/// One step of the cyclic redundancy check: the remainder moves on by a bit.
pub open spec fn crc_shift(c: u32) -> u32 {
    if c & 1 != 0 {
        0xEDB8_8320u32 ^ (c >> 1)
    } else {
        c >> 1
    }
}

pub open spec fn crc_shifts(c: u32, n: nat) -> u32
    decreases n,
{
    if n == 0 {
        c
    } else {
        crc_shift(crc_shifts(c, (n - 1) as nat))
    }
}

/// The remainder after all bits of the given bytes, lowest bits first.
pub open spec fn crc_bytes(crc: u32, bytes: Seq<u8>) -> u32
    decreases bytes.len(),
{
    if bytes.len() == 0 {
        crc
    } else {
        crc_shifts(crc_bytes(crc, bytes.drop_last()) ^ (bytes.last() as u32), 8)
    }
}

/// The checksum of a chunk, over its type and its data.
pub open spec fn chunk_crc(kind: Seq<u8>, data: Seq<u8>) -> u32 {
    !crc_bytes(0xFFFF_FFFFu32, kind + data)
}

pub proof fn lemma_crc_eight(c: u32)
    ensures
        crc_shifts(c, 8) == crc_shift(
            crc_shift(crc_shift(crc_shift(crc_shift(crc_shift(crc_shift(crc_shift(c))))))),
        ),
{
    reveal_with_fuel(crc_shifts, 9);
}

/// Eight steps act on the lowest byte, and only move the other bits.
pub proof fn lemma_crc_table(c: u32)
    ensures
        crc_shifts(c, 8) == crc_shifts(c & 0xFF, 8) ^ (c >> 8),
{
    lemma_crc_eight(c);
    lemma_crc_eight(c & 0xFF);
    assert(crc_shift(crc_shift(crc_shift(crc_shift(crc_shift(crc_shift(crc_shift(crc_shift(c)))))))) == crc_shift(
        crc_shift(crc_shift(crc_shift(crc_shift(crc_shift(crc_shift(crc_shift(c & 0xFF))))))),
    ) ^ (c >> 8)) by (bit_vector);
}

/// The remainders of all single bytes.
pub open spec fn is_crc_table(table: Seq<u32>) -> bool {
    &&& table.len() == 256
    &&& forall|n: int| 0 <= n < 256 ==> #[trigger] table[n] == crc_shifts(n as u32, 8)
}

/// The remainder after the given bytes, looked up byte by byte in a table of
/// 256 remainders.
pub open spec fn crc_by_table(table: Seq<u32>, crc: u32, bytes: Seq<u8>) -> u32
    decreases bytes.len(),
{
    if bytes.len() == 0 {
        crc
    } else {
        let c = crc_by_table(table, crc, bytes.drop_last());
        table[((c ^ (bytes.last() as u32)) & 0xFF) as int] ^ (c >> 8)
    }
}

/// Looking up in the table of all single bytes gives the remainder.
pub proof fn law_table_gives_the_crc(table: Seq<u32>, crc: u32, bytes: Seq<u8>)
    requires
        is_crc_table(table),
    ensures
        crc_by_table(table, crc, bytes) == crc_bytes(crc, bytes),
    decreases bytes.len(),
{
    if bytes.len() > 0 {
        law_table_gives_the_crc(table, crc, bytes.drop_last());
        let c = crc_bytes(crc, bytes.drop_last());
        let b = bytes.last() as u32;
        let x = (c ^ b) & 0xFF;
        assert((c ^ b) & 0xFF < 256) by (bit_vector);
        lemma_crc_table(c ^ b);
        assert((c ^ b) >> 8 == c >> 8) by (bit_vector)
            requires
                b < 256,
        ;
        assert(table[x as int] == crc_shifts(x, 8));
    }
}

/// Bytes can be taken in piece by piece, whatever the table holds: two
/// pieces one after the other are the same as both at once, and no bytes
/// change nothing.
pub proof fn law_crc_of_two_pieces(table: Seq<u32>, crc: u32, a: Seq<u8>, b: Seq<u8>)
    ensures
        crc_by_table(table, crc, a + b) == crc_by_table(table, crc_by_table(table, crc, a), b),
        crc_by_table(table, crc, Seq::empty()) == crc,
    decreases b.len(),
{
    if b.len() == 0 {
        assert(a + b =~= a);
    } else {
        assert((a + b).drop_last() =~= a + b.drop_last());
        law_crc_of_two_pieces(table, crc, a, b.drop_last());
    }
}

/// Computes the remainders of all single bytes.
pub fn make_crc_table() -> (table: [u32; 256])
    ensures
        is_crc_table(table@),
{
    let mut table: [u32; 256] = [0; 256];
    let mut n: u32 = 0;
    while n < 256
        invariant
            n <= 256,
            table@.len() == 256,
            forall|k: int| 0 <= k < n ==> #[trigger] table@[k] == crc_shifts(k as u32, 8),
        decreases 256 - n,
    {
        let mut c: u32 = n;
        let mut k: u32 = 0;
        while k < 8
            invariant
                k <= 8,
                c == crc_shifts(n, k as nat),
            decreases 8 - k,
        {
            if c & 1 != 0 {
                c = 0xEDB8_8320u32 ^ (c >> 1);
            } else {
                c = c >> 1;
            }
            k = k + 1;
        }
        table[n as usize] = c;
        n = n + 1;
    }
    table
}

/// Takes the bytes of `buf` into a remainder, with the given table.
pub fn update_crc(crc: u32, table: &[u32; 256], buf: &[u8]) -> (r: u32)
    ensures
        r == crc_by_table(table@, crc, buf@),
        is_crc_table(table@) ==> r == crc_bytes(crc, buf@),
{
    let mut c: u32 = crc;
    let mut i: usize = 0;
    while i < buf.len()
        invariant
            i <= buf@.len(),
            table@.len() == 256,
            c == crc_by_table(table@, crc, buf@.take(i as int)),
        decreases buf@.len() - i,
    {
        let b: u32 = buf[i] as u32;
        let x: u32 = (c ^ b) & 0xFF;
        proof {
            assert((c ^ b) & 0xFF < 256) by (bit_vector);
            assert(buf@.take(i + 1).drop_last() =~= buf@.take(i as int));
        }
        c = table[x as usize] ^ (c >> 8);
        i = i + 1;
    }
    proof {
        assert(buf@.take(i as int) =~= buf@);
        if is_crc_table(table@) {
            law_table_gives_the_crc(table@, crc, buf@);
        }
    }
    c
}

/// The checksum of a chunk.
pub fn png_crc(chunk_type: &[u8], data: &[u8]) -> (crc: u32)
    ensures
        crc == chunk_crc(chunk_type@, data@),
{
    let table = make_crc_table();
    let c: u32 = update_crc(0xFFFF_FFFF, &table, chunk_type);
    proof {
        let start = 0xFFFF_FFFFu32;
        law_crc_of_two_pieces(table@, start, chunk_type@, data@);
        law_table_gives_the_crc(table@, start, chunk_type@ + data@);
    }
    !update_crc(c, &table, data)
}

/// A number in four bytes, highest byte first.
pub open spec fn be_bytes(n: int) -> Seq<u8> {
    seq![
        (n / 0x100_0000 % 256) as u8,
        (n / 0x1_0000 % 256) as u8,
        (n / 0x100 % 256) as u8,
        (n % 256) as u8,
    ]
}

/// The number in the four bytes from `pos` on.
pub open spec fn be_number(data: Seq<u8>, pos: int) -> int {
    data[pos] * 0x100_0000 + data[pos + 1] * 0x1_0000 + data[pos + 2] * 0x100 + data[pos + 3]
}

pub open spec fn png_signature() -> Seq<u8> {
    seq![0x89, 0x50, 0x4E, 0x47, 0x0D, 0x0A, 0x1A, 0x0A]
}

/// Chunk type `IHDR`.
pub open spec fn ihdr() -> Seq<u8> {
    seq![73, 72, 68, 82]
}

/// Chunk type `IDAT`.
pub open spec fn idat() -> Seq<u8> {
    seq![73, 68, 65, 84]
}

/// Chunk type `IEND`.
pub open spec fn iend() -> Seq<u8> {
    seq![73, 69, 78, 68]
}

/// Chunk type `tEXt`.
pub open spec fn text_kind() -> Seq<u8> {
    seq![116, 69, 88, 116]
}

/// Chunk type `tRNS`.
pub open spec fn trns() -> Seq<u8> {
    seq![116, 82, 78, 83]
}

/// A chunk type that the image cannot do without: transparency, and all
/// types that the format marks as critical with a capital letter in front.
pub open spec fn is_essential(kind: Seq<u8>) -> bool {
    kind[0] / 32 % 2 == 0 || kind == trns()
}

/// A chunk of a PNG file.
#[verifier::ext_equal]
pub struct Chunk {
    pub kind: Seq<u8>,
    pub data: Seq<u8>,
}

/// A chunk as it stands in a file: length, type, data and checksum.
pub open spec fn encode_chunk(c: Chunk) -> Seq<u8> {
    be_bytes(c.data.len() as int) + c.kind + c.data + be_bytes(chunk_crc(c.kind, c.data) as int)
}

/// Chunks one after the other.
pub open spec fn encode_chunks(cs: Seq<Chunk>) -> Seq<u8>
    decreases cs.len(),
{
    if cs.len() == 0 {
        Seq::empty()
    } else {
        encode_chunks(cs.drop_last()) + encode_chunk(cs.last())
    }
}

/// The chunk at `pos`.
pub open spec fn chunk_at(data: Seq<u8>, pos: int) -> Chunk {
    Chunk {
        kind: data.subrange(pos + 4, pos + 8),
        data: data.subrange(pos + 8, pos + 8 + be_number(data, pos)),
    }
}

/// The chunks from `pos` up to `IEND` or to where no further chunk fits.
/// `None` if a chunk extends beyond the end.
pub open spec fn chunks_from(data: Seq<u8>, pos: int) -> Option<Seq<Chunk>>
    decreases data.len() - pos,
{
    if pos < 0 || pos + 12 > data.len() {
        Some(Seq::empty())
    } else if pos + 12 + be_number(data, pos) > data.len() {
        None
    } else if data.subrange(pos + 4, pos + 8) == iend() {
        Some(Seq::empty())
    } else {
        match chunks_from(data, pos + 12 + be_number(data, pos)) {
            Some(rest) => Some(seq![chunk_at(data, pos)] + rest),
            None => None,
        }
    }
}

/// `data` begins with the signature of PNG files.
pub open spec fn is_png(data: Seq<u8>) -> bool {
    data.len() >= 8 && data.take(8) == png_signature()
}

/// The place of the first zero byte, or the length.
pub open spec fn zero_at(data: Seq<u8>) -> int
    decreases data.len(),
{
    if data.len() == 0 || data[0] == 0 {
        0
    } else {
        1 + zero_at(data.skip(1))
    }
}

/// A text chunk's data begin with the given keyword.
pub open spec fn has_keyword(data: Seq<u8>, keyword: Seq<u8>) -> bool {
    zero_at(data) < data.len() && data.take(zero_at(data)) == keyword
}

/// A text chunk with the given keyword.
pub open spec fn is_own_text(c: Chunk, keyword: Seq<u8>) -> bool {
    c.kind == text_kind() && has_keyword(c.data, keyword)
}

pub open spec fn has_idat(cs: Seq<Chunk>) -> bool {
    exists|i: int| 0 <= i < cs.len() && (#[trigger] cs[i]).kind == idat()
}

/// The compressed pixel data: what all `IDAT` chunks hold together.
pub open spec fn idat_payload(cs: Seq<Chunk>) -> Seq<u8>
    decreases cs.len(),
{
    if cs.len() == 0 {
        Seq::empty()
    } else if cs.last().kind == idat() {
        idat_payload(cs.drop_last()) + cs.last().data
    } else {
        idat_payload(cs.drop_last())
    }
}

/// A chunk that a copy keeps as it is. All metadata are left out.
pub open spec fn is_kept(c: Chunk) -> bool {
    c.kind != idat() && is_essential(c.kind)
}

/// The kept chunks that a copy has before the pixel data: those that stood
/// there, and `IHDR` wherever it stood.
pub open spec fn leading(cs: Seq<Chunk>) -> Seq<Chunk>
    decreases cs.len(),
{
    if cs.len() == 0 {
        cs
    } else {
        let before = leading(cs.drop_last());
        if is_kept(cs.last()) && (cs.last().kind == ihdr() || !has_idat(cs.drop_last())) {
            before.push(cs.last())
        } else {
            before
        }
    }
}

/// The kept chunks that a copy has behind the pixel data.
pub open spec fn trailing(cs: Seq<Chunk>) -> Seq<Chunk>
    decreases cs.len(),
{
    if cs.len() == 0 {
        cs
    } else {
        let before = trailing(cs.drop_last());
        if is_kept(cs.last()) && cs.last().kind != ihdr() && has_idat(cs.drop_last()) {
            before.push(cs.last())
        } else {
            before
        }
    }
}

/// The text chunk that a copy carries.
pub open spec fn text_chunk(keyword: Seq<u8>, value: Seq<u8>) -> Chunk {
    Chunk { kind: text_kind(), data: keyword + seq![0u8] + value }
}

/// The pixel data in `IDAT` chunks of the greatest size that a chunk may
/// have.
pub open spec fn idat_chunks(payload: Seq<u8>) -> Seq<Chunk>
    decreases payload.len(),
{
    if payload.len() == 0 {
        Seq::empty()
    } else if payload.len() <= 0x7FFF_FFFF {
        seq![Chunk { kind: idat(), data: payload }]
    } else {
        seq![Chunk { kind: idat(), data: payload.take(0x7FFF_FFFF) }] + idat_chunks(payload.skip(0x7FFF_FFFF))
    }
}

/// The chunks of a copy, up to `IEND`.
pub open spec fn copied_chunks(cs: Seq<Chunk>, keyword: Seq<u8>, value: Seq<u8>) -> Seq<Chunk> {
    leading(cs) + seq![text_chunk(keyword, value)] + idat_chunks(idat_payload(cs)) + trailing(cs)
}

/// A PNG file with the given chunks.
pub open spec fn png_file(cs: Seq<Chunk>) -> Seq<u8> {
    png_signature() + encode_chunks(cs) + encode_chunk(Chunk { kind: iend(), data: Seq::empty() })
}

/// The copy of a file, and the size of its compressed pixel data, or the
/// message why there is none.
pub open spec fn copied(raw: Seq<u8>, keyword: Seq<u8>, value: Seq<u8>) -> Result<(Seq<u8>, int), Seq<char>> {
    if !is_png(raw) {
        Err("Not a valid PNG file"@)
    } else {
        match chunks_from(raw, 8) {
            None => Err("PNG chunk extended beyond EOF"@),
            Some(cs) => if idat_payload(cs).len() == 0 {
                Err("No IDAT chunk found in PNG file"@)
            } else {
                Ok((png_file(copied_chunks(cs, keyword, value)), idat_payload(cs).len() as int))
            },
        }
    }
}

fn append_be(out: &mut Vec<u8>, n: u64)
    ensures
        final(out)@ == old(out)@ + be_bytes(n as int),
{
    out.push((n / 0x100_0000 % 256) as u8);
    out.push((n / 0x1_0000 % 256) as u8);
    out.push((n / 0x100 % 256) as u8);
    out.push((n % 256) as u8);
    assert(out@ =~= old(out)@ + be_bytes(n as int));
}

fn append_slice(out: &mut Vec<u8>, bytes: &[u8])
    ensures
        final(out)@ == old(out)@ + bytes@,
{
    out.extend_from_slice(bytes);
    assert(out@ =~= old(out)@ + bytes@);
}

fn append_chunk(out: &mut Vec<u8>, kind: &[u8], data: &[u8])
    ensures
        final(out)@ == old(out)@ + encode_chunk(Chunk { kind: kind@, data: data@ }),
{
    append_be(out, data.len() as u64);
    append_slice(out, kind);
    append_slice(out, data);
    append_be(out, png_crc(kind, data) as u64);
    assert(out@ =~= old(out)@ + encode_chunk(Chunk { kind: kind@, data: data@ }));
}

fn read_be(data: &[u8], pos: usize) -> (n: u32)
    requires
        pos + 4 <= data@.len(),
    ensures
        n == be_number(data@, pos as int),
{
    data[pos] as u32 * 0x100_0000 + data[pos + 1] as u32 * 0x1_0000 + data[pos + 2] as u32 * 0x100 + data[pos
        + 3] as u32
}

fn same_bytes(a: &[u8], b: &[u8]) -> (r: bool)
    ensures
        r == (a@ == b@),
{
    if a.len() != b.len() {
        return false;
    }
    let mut i: usize = 0;
    while i < a.len()
        invariant
            i <= a@.len(),
            a@.len() == b@.len(),
            forall|k: int| 0 <= k < i ==> a@[k] == b@[k],
        decreases a@.len() - i,
    {
        if a[i] != b[i] {
            return false;
        }
        i = i + 1;
    }
    assert(a@ =~= b@);
    true
}

fn starts_as_png(data: &[u8]) -> (r: bool)
    ensures
        r == is_png(data@),
{
    if data.len() < 8 {
        return false;
    }
    let signature: Vec<u8> = vec![0x89, 0x50, 0x4E, 0x47, 0x0D, 0x0A, 0x1A, 0x0A];
    assert(signature@ =~= png_signature());
    assert(data@.subrange(0, 8) =~= data@.take(8));
    same_bytes(&data[0..8], signature.as_slice())
}

pub proof fn lemma_zero_at(data: Seq<u8>)
    ensures
        0 <= zero_at(data) <= data.len(),
        zero_at(data) < data.len() ==> data[zero_at(data)] == 0,
        forall|i: int| 0 <= i < zero_at(data) ==> data[i] != 0,
    decreases data.len(),
{
    if data.len() > 0 && data[0] != 0 {
        let t = data.skip(1);
        lemma_zero_at(t);
        assert forall|i: int| 0 <= i < zero_at(data) implies data[i] != 0 by {
            if i > 0 {
                assert(t[i - 1] != 0);
            }
        }
    }
}

fn carries_keyword(data: &[u8], keyword: &[u8]) -> (r: bool)
    ensures
        r == has_keyword(data@, keyword@),
{
    let mut i: usize = 0;
    while i < data.len() && data[i] != 0
        invariant
            i <= data@.len(),
            forall|k: int| 0 <= k < i ==> data@[k] != 0,
        decreases data@.len() - i,
    {
        i = i + 1;
    }
    proof {
        lemma_zero_at(data@);
        let z = zero_at(data@);
        if z < i {
            assert(data@[z] != 0);
        }
        if i < z {
            assert(data@[i as int] != 0);
        }
        assert(data@.subrange(0, i as int) =~= data@.take(i as int));
    }
    i < data.len() && same_bytes(&data[0..i], keyword)
}

/// What a copy is put together from.
struct Parts {
    before: Vec<u8>,
    payload: Vec<u8>,
    after: Vec<u8>,
    seen_idat: bool,
}

impl Parts {
    spec fn hold(&self, cs: Seq<Chunk>) -> bool {
        &&& self.before@ == encode_chunks(leading(cs))
        &&& self.payload@ == idat_payload(cs)
        &&& self.after@ == encode_chunks(trailing(cs))
        &&& self.seen_idat == has_idat(cs)
    }

    fn take_chunk(&mut self, kind: &[u8], data: &[u8], Ghost(cs): Ghost<Seq<Chunk>>)
        requires
            old(self).hold(cs),
            kind@.len() == 4,
        ensures
            final(self).hold(cs.push(Chunk { kind: kind@, data: data@ })),
    {
        let ghost c = Chunk { kind: kind@, data: data@ };
        let ghost next = cs.push(c);
        let idat_kind: Vec<u8> = vec![73, 68, 65, 84];
        let ihdr_kind: Vec<u8> = vec![73, 72, 68, 82];
        let trns_kind: Vec<u8> = vec![116, 82, 78, 83];
        proof {
            assert(idat_kind@ =~= idat());
            assert(ihdr_kind@ =~= ihdr());
            assert(trns_kind@ =~= trns());
            assert(next.drop_last() =~= cs);
            lemma_has_idat_push(cs, c);
            assert(leading(cs).push(c).drop_last() =~= leading(cs));
            assert(trailing(cs).push(c).drop_last() =~= trailing(cs));
        }
        if same_bytes(kind, idat_kind.as_slice()) {
            self.seen_idat = true;
            append_slice(&mut self.payload, data);
        } else if kind[0] / 32 % 2 != 0 && !same_bytes(kind, trns_kind.as_slice()) {
            // Metadata are left out.
        } else if same_bytes(kind, ihdr_kind.as_slice()) || !self.seen_idat {
            append_chunk(&mut self.before, kind, data);
        } else {
            append_chunk(&mut self.after, kind, data);
        }
    }
}

pub proof fn lemma_has_idat_push(cs: Seq<Chunk>, c: Chunk)
    ensures
        has_idat(cs.push(c)) == (has_idat(cs) || c.kind == idat()),
{
    let next = cs.push(c);
    if has_idat(cs) {
        let i = choose|i: int| 0 <= i < cs.len() && (#[trigger] cs[i]).kind == idat();
        assert(next[i].kind == idat());
    }
    if c.kind == idat() {
        assert(next[cs.len() as int].kind == idat());
    }
    if has_idat(next) {
        let i = choose|i: int| 0 <= i < next.len() && (#[trigger] next[i]).kind == idat();
        if i < cs.len() {
            assert(cs[i].kind == idat());
        }
    }
}

/// `cs` and what follows from `pos` on are all the chunks.
spec fn is_read_up_to(raw: Seq<u8>, pos: int, cs: Seq<Chunk>) -> bool {
    chunks_from(raw, 8) == match chunks_from(raw, pos) {
        Some(rest) => Some(cs + rest),
        None => None,
    }
}

/// Sorts the chunks of a file. `None` if one extends beyond the end.
fn read_parts(raw: &[u8]) -> (parts: Option<Parts>)
    ensures
        match parts {
            Some(p) => chunks_from(raw@, 8) matches Some(cs) && p.hold(cs),
            None => chunks_from(raw@, 8) is None,
        },
{
    let mut parts = Parts { before: Vec::new(), payload: Vec::new(), after: Vec::new(), seen_idat: false };
    let ghost mut cs: Seq<Chunk> = Seq::empty();
    let len: usize = raw.len();
    if len < 8 {
        return Some(parts);
    }
    let mut pos: usize = 8;
    proof {
        if chunks_from(raw@, 8) is Some {
            assert(cs + chunks_from(raw@, 8)->0 =~= chunks_from(raw@, 8)->0);
        }
    }
    let iend_kind: Vec<u8> = vec![73, 69, 78, 68];
    assert(iend_kind@ =~= iend());
    while len - pos >= 12
        invariant
            8 <= pos <= len,
            len == raw@.len(),
            iend_kind@ == iend(),
            parts.hold(cs),
            is_read_up_to(raw@, pos as int, cs),
        decreases len - pos,
    {
        let n: u64 = read_be(raw, pos) as u64;
        if n > (len - pos - 12) as u64 {
            return None;
        }
        let end: usize = pos + 8 + n as usize;
        if same_bytes(&raw[pos + 4..pos + 8], iend_kind.as_slice()) {
            assert(cs + Seq::<Chunk>::empty() =~= cs);
            return Some(parts);
        }
        parts.take_chunk(&raw[pos + 4..pos + 8], &raw[pos + 8..end], Ghost(cs));
        proof {
            let c = chunk_at(raw@, pos as int);
            if let Some(rest) = chunks_from(raw@, end + 4) {
                assert(cs + (seq![c] + rest) =~= cs.push(c) + rest);
            }
            cs = cs.push(c);
        }
        pos = end + 4;
    }
    assert(cs + Seq::<Chunk>::empty() =~= cs);
    Some(parts)
}

pub proof fn lemma_encode_cons(c: Chunk, cs: Seq<Chunk>)
    ensures
        encode_chunks(seq![c] + cs) == encode_chunk(c) + encode_chunks(cs),
    decreases cs.len(),
{
    let all = seq![c] + cs;
    if cs.len() == 0 {
        assert(all.drop_last() =~= Seq::<Chunk>::empty());
        assert(all.last() == c);
        assert(encode_chunks(all.drop_last()) =~= Seq::<u8>::empty());
        assert(encode_chunks(all) =~= encode_chunk(c) + encode_chunks(cs));
    } else {
        assert(all.drop_last() =~= seq![c] + cs.drop_last());
        assert(all.last() == cs.last());
        lemma_encode_cons(c, cs.drop_last());
        assert(encode_chunks(all) =~= encode_chunk(c) + encode_chunks(cs));
    }
}

proof fn lemma_encode_concat(a: Seq<Chunk>, b: Seq<Chunk>)
    ensures
        encode_chunks(a + b) == encode_chunks(a) + encode_chunks(b),
    decreases b.len(),
{
    if b.len() == 0 {
        assert(a + b =~= a);
        assert(encode_chunks(a) + encode_chunks(b) =~= encode_chunks(a));
    } else {
        assert((a + b).drop_last() =~= a + b.drop_last());
        lemma_encode_concat(a, b.drop_last());
        assert(encode_chunks(a + b) =~= encode_chunks(a) + encode_chunks(b));
    }
}

fn append_idat(out: &mut Vec<u8>, payload: &Vec<u8>)
    ensures
        final(out)@ == old(out)@ + encode_chunks(idat_chunks(payload@)),
{
    let kind: Vec<u8> = vec![73, 68, 65, 84];
    assert(kind@ =~= idat());
    let len: usize = payload.len();
    let mut pos: usize = 0;
    let ghost all = old(out)@ + encode_chunks(idat_chunks(payload@));
    proof {
        assert(payload@.skip(0) =~= payload@);
    }
    while pos < len
        invariant
            pos <= len,
            len == payload@.len(),
            kind@ == idat(),
            all == out@ + encode_chunks(idat_chunks(payload@.skip(pos as int))),
        decreases len - pos,
    {
        let size: usize = if len - pos <= 0x7FFF_FFFF { len - pos } else { 0x7FFF_FFFF };
        let ghost rest = payload@.skip(pos as int);
        let ghost c = Chunk { kind: idat(), data: rest.take(size as int) };
        proof {
            assert(rest.skip(size as int) =~= payload@.skip(pos + size));
            if rest.len() <= 0x7FFF_FFFF {
                assert(rest.take(size as int) =~= rest);
                assert(idat_chunks(rest) =~= seq![c] + idat_chunks(payload@.skip(pos + size)));
            }
            lemma_encode_cons(c, idat_chunks(payload@.skip(pos + size)));
            assert(payload@.subrange(pos as int, pos + size) =~= c.data);
            assert(out@ + (encode_chunk(c) + encode_chunks(idat_chunks(payload@.skip(pos + size)))) =~= (out@
                + encode_chunk(c)) + encode_chunks(idat_chunks(payload@.skip(pos + size))));
        }
        append_chunk(out, kind.as_slice(), &payload[pos..pos + size]);
        pos = pos + size;
    }
    assert(all =~= out@);
}

/// Copies the compressed pixel data of a PNG file without recoding them,
/// joins the `IDAT` chunks, leaves out all metadata and puts in a text
/// chunk. Gives the new file and the size of the compressed pixel data.
pub fn copy_png_idat_and_add_text(raw_data: &[u8], text_keyword: &str, text_value: &str) -> (r: Result<
    (Vec<u8>, usize),
    String,
>)
    ensures
        match r {
            Ok((out, size)) => copied(raw_data@, encode_utf8(text_keyword@), encode_utf8(text_value@)) == Ok::<
                (Seq<u8>, int),
                Seq<char>,
            >((out@, size as int)),
            Err(text) => copied(raw_data@, encode_utf8(text_keyword@), encode_utf8(text_value@)) == Err::<
                (Seq<u8>, int),
                Seq<char>,
            >(text@),
        },
{
    if !starts_as_png(raw_data) {
        return Err("Not a valid PNG file".to_string());
    }
    let keyword = text_keyword.as_bytes();
    let value = text_value.as_bytes();
    let parts = match read_parts(raw_data) {
        Some(parts) => parts,
        None => {
            return Err("PNG chunk extended beyond EOF".to_string());
        },
    };
    if parts.payload.len() == 0 {
        return Err("No IDAT chunk found in PNG file".to_string());
    }
    let ghost cs = chunks_from(raw_data@, 8)->0;
    let mut out: Vec<u8> = vec![0x89, 0x50, 0x4E, 0x47, 0x0D, 0x0A, 0x1A, 0x0A];
    assert(out@ =~= png_signature());
    append_slice(&mut out, parts.before.as_slice());

    let mut text: Vec<u8> = Vec::new();
    append_slice(&mut text, keyword);
    text.push(0);
    append_slice(&mut text, value);
    let kind: Vec<u8> = vec![116, 69, 88, 116];
    assert(kind@ =~= text_kind());
    assert(text@ =~= text_chunk(keyword@, value@).data);
    append_chunk(&mut out, kind.as_slice(), text.as_slice());

    append_idat(&mut out, &parts.payload);
    append_slice(&mut out, parts.after.as_slice());

    let end: Vec<u8> = vec![73, 69, 78, 68];
    let nothing: Vec<u8> = Vec::new();
    assert(end@ =~= iend());
    assert(nothing@ =~= Seq::<u8>::empty());
    append_chunk(&mut out, end.as_slice(), nothing.as_slice());
    proof {
        let k = keyword@;
        let a = leading(cs);
        let t = seq![text_chunk(k, value@)];
        let p = idat_chunks(idat_payload(cs));
        lemma_encode_concat(a, t);
        lemma_encode_concat(a + t, p);
        lemma_encode_concat(a + t + p, trailing(cs));
        lemma_encode_cons(t[0], Seq::empty());
        assert(t =~= seq![t[0]] + Seq::<Chunk>::empty());
        assert(encode_chunks(t) =~= encode_chunk(t[0]));
        assert(out@ =~= png_file(copied_chunks(cs, k, value@)));
    }
    Ok((out, parts.payload.len()))
}

/// A chunk with the keyword stands at `pos` or behind it, and before `IEND`.
pub open spec fn is_marked_from(data: Seq<u8>, pos: int, keyword: Seq<u8>) -> bool
    decreases data.len() - pos,
{
    if pos < 0 || pos + 8 > data.len() {
        false
    } else {
        let kind = data.subrange(pos + 4, pos + 8);
        let n = be_number(data, pos);
        let behind = pos + 12 + n <= data.len() && is_marked_from(data, pos + 12 + n, keyword);
        if kind == text_kind() {
            pos + 8 + n <= data.len() && (has_keyword(data.subrange(pos + 8, pos + 8 + n), keyword) || behind)
        } else {
            kind != iend() && behind
        }
    }
}

/// The keyword of the text chunk in optimized files.
pub open spec fn own_keyword() -> Seq<u8> {
    encode_utf8("optipng-rs"@)
}

/// Whether `data` is a PNG file, and whether it was optimized before.
/// Forced trials take every PNG file as not optimized.
pub fn check_png_file(data: &[u8], force_trials: bool) -> (r: (bool, bool))
    ensures
        r.0 == is_png(data@),
        r.1 == (is_png(data@) && !force_trials && is_marked_from(data@, 8, own_keyword())),
{
    if !starts_as_png(data) {
        return (false, false);
    }
    if force_trials {
        return (true, false);
    }
    let keyword = "optipng-rs".as_bytes();
    let text: Vec<u8> = vec![116, 69, 88, 116];
    let end: Vec<u8> = vec![73, 69, 78, 68];
    assert(text@ =~= text_kind());
    assert(end@ =~= iend());
    let len: usize = data.len();
    let mut pos: usize = 8;
    while len - pos >= 8
        invariant
            8 <= pos <= len,
            len == data@.len(),
            text@ == text_kind(),
            end@ == iend(),
            keyword@ == own_keyword(),
            is_png(data@),
            !force_trials,
            is_marked_from(data@, 8, own_keyword()) == is_marked_from(data@, pos as int, own_keyword()),
        decreases len - pos,
    {
        let n: u64 = read_be(data, pos) as u64;
        let left: u64 = (len - pos - 8) as u64;
        let kind = &data[pos + 4..pos + 8];
        if same_bytes(kind, text.as_slice()) {
            if n > left {
                return (true, false);
            }
            if carries_keyword(&data[pos + 8..pos + 8 + n as usize], keyword) {
                return (true, true);
            }
        } else if same_bytes(kind, end.as_slice()) {
            return (true, false);
        }
        if n + 4 > left {
            return (true, false);
        }
        pos = pos + 12 + n as usize;
    }
    (true, false)
}

}
