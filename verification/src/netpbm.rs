//! Netpbm images: binary PGM and PPM, and PAM.
use crate::models::{LoadedImage, LoadedView};
use crate::text::{
    append_decimal, chars_of, decimal, find_from, is_text, lemma_find, parse_unsigned, piece, read_unsigned,
    split_once,
};
use vstd::prelude::*;
use vstd::utf8::{decode_utf8, valid_utf8};

verus! {

/// The first place at or behind `pos` where a byte is not `wanted`, or the
/// length.
pub open spec fn run_end(data: Seq<u8>, pos: int, wanted: spec_fn(u8) -> bool) -> int
    decreases data.len() - pos,
{
    if 0 <= pos < data.len() && wanted(data[pos]) {
        run_end(data, pos + 1, wanted)
    } else {
        pos
    }
}

/// A blank in the header of a PGM or PPM image.
pub open spec fn is_blank(b: u8) -> bool {
    b == 32 || b == 9 || b == 10 || b == 12 || b == 13
}

pub open spec fn blanks() -> spec_fn(u8) -> bool {
    |b: u8| is_blank(b)
}

pub open spec fn no_blanks() -> spec_fn(u8) -> bool {
    |b: u8| !is_blank(b)
}

pub open spec fn no_newlines() -> spec_fn(u8) -> bool {
    |b: u8| b != 10
}

/// A character of white space, as Unicode defines it.
pub open spec fn is_white(c: char) -> bool {
    let n = c as int;
    9 <= n <= 13 || n == 0x20 || n == 0x85 || n == 0xA0 || n == 0x1680 || 0x2000 <= n <= 0x200A || n == 0x2028 || n
        == 0x2029 || n == 0x202F || n == 0x205F || n == 0x3000
}

/// The text without white space in front.
pub open spec fn trim_front(s: Seq<char>) -> Seq<char>
    decreases s.len(),
{
    if s.len() > 0 && is_white(s[0]) {
        trim_front(s.skip(1))
    } else {
        s
    }
}

/// The text without white space at the end.
pub open spec fn trim_back(s: Seq<char>) -> Seq<char>
    decreases s.len(),
{
    if s.len() > 0 && is_white(s.last()) {
        trim_back(s.drop_last())
    } else {
        s
    }
}

pub open spec fn trimmed(s: Seq<char>) -> Seq<char> {
    trim_back(trim_front(s))
}

/// What `std::str::Utf8Error` says of bytes that are not UTF-8.
pub uninterp spec fn utf8_error_text(bytes: Seq<u8>) -> Seq<char>;

/// Calls `std::str::from_utf8`. Claimed of it: it accepts exactly the bytes
/// that are valid UTF-8 and gives the characters that they encode, and the
/// text of its error depends on the bytes alone.
#[verifier::external_body]
fn utf8_text(bytes: &[u8]) -> (r: Result<String, String>)
    ensures
        match r {
            Ok(s) => valid_utf8(bytes@) && s@ == decode_utf8(bytes@),
            Err(text) => !valid_utf8(bytes@) && text@ == utf8_error_text(bytes@),
        },
{
    match std::str::from_utf8(bytes) {
        Ok(s) => Ok(s.to_string()),
        Err(e) => Err(e.to_string()),
    }
}

/// The line at `pos` without white space around it, and the place behind
/// it, or the message why there is none.
pub open spec fn header_line(data: Seq<u8>, pos: int) -> Result<(Seq<char>, int), Seq<char>> {
    let end = run_end(data, pos, no_newlines());
    if end >= data.len() {
        Err("Unexpected EOF reading header"@)
    } else if !valid_utf8(data.subrange(pos, end)) {
        Err(utf8_error_text(data.subrange(pos, end)))
    } else {
        Ok((trimmed(decode_utf8(data.subrange(pos, end))), end + 1))
    }
}

/// What the header of a PAM image says.
#[derive(Debug, Clone, Copy, PartialEq, Eq, Structural)]
pub struct PamHeader {
    pub width: u32,
    pub height: u32,
    pub depth: u32,
    pub maxval: u32,
}

/// The number that a text stands for, 0 if it is none.
pub open spec fn number_or_zero(s: Seq<char>) -> u32 {
    match parse_unsigned(s, u32::MAX as int) {
        Some(n) => n as u32,
        None => 0,
    }
}

/// The header with one more line taken in.
pub open spec fn with_line(h: PamHeader, line: Seq<char>) -> PamHeader {
    match split_once(line, ' ') {
        None => h,
        Some((key, value)) => {
            let key = trimmed(key);
            let n = number_or_zero(trimmed(value));
            if line[0] == '#' {
                h
            } else if key == "WIDTH"@ {
                PamHeader { width: n, ..h }
            } else if key == "HEIGHT"@ {
                PamHeader { height: n, ..h }
            } else if key == "DEPTH"@ {
                PamHeader { depth: n, ..h }
            } else if key == "MAXVAL"@ {
                PamHeader { maxval: n, ..h }
            } else {
                h
            }
        },
    }
}

/// The lines from `pos` up to `ENDHDR` taken into `h`, and the place behind
/// them, or the message why they cannot be read.
pub open spec fn pam_header(data: Seq<u8>, pos: int, h: PamHeader) -> Result<(PamHeader, int), Seq<char>>
    decreases data.len() - pos,
        when 0 <= pos <= data.len()
    via pam_header_decreases
{
    match header_line(data, pos) {
        Err(message) => Err(message),
        Ok((line, next)) => if line == "ENDHDR"@ {
            Ok((h, next))
        } else {
            pam_header(data, next, with_line(h, line))
        },
    }
}

#[via_fn]
proof fn pam_header_decreases(data: Seq<u8>, pos: int, h: PamHeader) {
    lemma_run_end(data, pos, no_newlines());
}

pub open spec fn pam_depth_message(depth: u32) -> Seq<char> {
    "Unsupported PAM depth: "@ + decimal(depth as nat)
}

/// The image with `depth` samples per pixel whose pixels start at `pos`, or
/// `message` if they are not all there, or if the size of a row does not fit
/// into `usize`.
pub open spec fn raw_image(
    data: Seq<u8>,
    pos: int,
    width: u32,
    height: u32,
    color_type: u8,
    depth: int,
    maxval: u32,
    message: Seq<char>,
) -> Result<LoadedView, Seq<char>> {
    let bytes: int = if maxval <= 255 { 1 } else { 2 };
    let stride = width * depth * bytes;
    if data.len() - pos < height * stride || stride > usize::MAX {
        Err(message)
    } else {
        Ok(
            LoadedView {
                width,
                height,
                bit_depth: if maxval <= 255 { 8 } else { 16 },
                color_type,
                stride,
                pixels: data.subrange(pos, pos + height * stride),
                orig_idat_size: data.len() as int,
            },
        )
    }
}

/// The PAM image with the given header whose pixels start at `pos`.
pub open spec fn pam_image(data: Seq<u8>, pos: int, h: PamHeader) -> Result<LoadedView, Seq<char>> {
    if h.width == 0 || h.height == 0 || h.depth == 0 || h.maxval == 0 {
        Err("Invalid PAM header configuration"@)
    } else if h.depth > 4 {
        Err(pam_depth_message(h.depth))
    } else if h.maxval > 65535 {
        Err("Unsupported PAM maxval"@)
    } else {
        let color_type: u8 = if h.depth == 1 { 0 } else if h.depth == 2 { 4 } else if h.depth == 3 { 2 } else { 6 };
        raw_image(
            data,
            pos,
            h.width,
            h.height,
            color_type,
            h.depth as int,
            h.maxval,
            "PAM pixel data truncated"@,
        )
    }
}

/// Up to `n` words of the header from `pos` on, without comments and
/// without words that are not UTF-8, and the place behind them.
pub open spec fn header_words(data: Seq<u8>, pos: int, n: nat) -> (Seq<Seq<char>>, int)
    decreases data.len() - pos, n,
    via header_words_decreases
{
    let from = run_end(data, pos, blanks());
    if n == 0 || pos < 0 || pos >= data.len() {
        (Seq::empty(), pos)
    } else if from < data.len() && data[from] == 35 {
        header_words(data, run_end(data, from, no_newlines()), n)
    } else {
        let to = run_end(data, from, no_blanks());
        let word = data.subrange(from, to);
        if from < to && valid_utf8(word) {
            let rest = header_words(data, to, (n - 1) as nat);
            (seq![decode_utf8(word)] + rest.0, rest.1)
        } else {
            header_words(data, to, n)
        }
    }
}

#[via_fn]
proof fn header_words_decreases(data: Seq<u8>, pos: int, n: nat) {
    if 0 <= pos < data.len() {
        let from = run_end(data, pos, blanks());
        lemma_run_end(data, pos, blanks());
        lemma_run_end(data, from, no_newlines());
        lemma_run_end(data, from, no_blanks());
    }
}

/// `run_end` is the first place.
pub proof fn lemma_run_end(data: Seq<u8>, pos: int, wanted: spec_fn(u8) -> bool)
    requires
        0 <= pos <= data.len(),
    ensures
        pos <= run_end(data, pos, wanted) <= data.len(),
        run_end(data, pos, wanted) < data.len() ==> !wanted(data[run_end(data, pos, wanted)]),
        forall|i: int| pos <= i < run_end(data, pos, wanted) ==> wanted(#[trigger] data[i]),
        pos < data.len() && wanted(data[pos]) ==> pos < run_end(data, pos, wanted),
    decreases data.len() - pos,
{
    if pos < data.len() && wanted(data[pos]) {
        lemma_run_end(data, pos + 1, wanted);
    }
}

/// The PGM or PPM image whose header goes on at `pos`.
pub open spec fn pnm_image(data: Seq<u8>, pos: int, is_rgb: bool) -> Result<LoadedView, Seq<char>> {
    let (words, at) = header_words(data, pos, 3);
    let start = if at < data.len() && is_blank(data[at]) { at + 1 } else { at };
    if words.len() < 3 {
        Err("Invalid PPM/PGM header structure"@)
    } else if parse_unsigned(words[0], u32::MAX as int) is None {
        Err("Invalid width"@)
    } else if parse_unsigned(words[1], u32::MAX as int) is None {
        Err("Invalid height"@)
    } else if parse_unsigned(words[2], u32::MAX as int) is None {
        Err("Invalid maxval"@)
    } else {
        raw_image(
            data,
            start,
            number_or_zero(words[0]),
            number_or_zero(words[1]),
            if is_rgb { 2 } else { 0 },
            if is_rgb { 3 } else { 1 },
            number_or_zero(words[2]),
            "PPM/PGM pixel data truncated"@,
        )
    }
}

pub open spec fn empty_header() -> PamHeader {
    PamHeader { width: 0, height: 0, depth: 0, maxval: 0 }
}

/// The image of a Netpbm file, or the message why it cannot be read.
pub open spec fn netpbm_image(data: Seq<u8>) -> Result<LoadedView, Seq<char>> {
    match header_line(data, 0) {
        Err(message) => Err(message),
        Ok((magic, pos)) => if magic == "P7"@ {
            match pam_header(data, pos, empty_header()) {
                Err(message) => Err(message),
                Ok((h, start)) => pam_image(data, start, h),
            }
        } else if magic == "P5"@ || magic == "P6"@ {
            pnm_image(data, pos, magic == "P6"@)
        } else {
            Err("Unsupported Netpbm magic format"@)
        },
    }
}

fn blank(b: u8) -> (r: bool)
    ensures
        r == is_blank(b),
{
    b == 32 || b == 9 || b == 10 || b == 12 || b == 13
}

fn skip_blanks(data: &[u8], pos: usize) -> (end: usize)
    requires
        pos <= data@.len(),
    ensures
        end == run_end(data@, pos as int, blanks()),
        pos <= end <= data@.len(),
{
    let mut i: usize = pos;
    while i < data.len() && blank(data[i])
        invariant
            pos <= i <= data@.len(),
            run_end(data@, pos as int, blanks()) == run_end(data@, i as int, blanks()),
        decreases data@.len() - i,
    {
        i = i + 1;
    }
    i
}

fn skip_word(data: &[u8], pos: usize) -> (end: usize)
    requires
        pos <= data@.len(),
    ensures
        end == run_end(data@, pos as int, no_blanks()),
        pos <= end <= data@.len(),
{
    let mut i: usize = pos;
    while i < data.len() && !blank(data[i])
        invariant
            pos <= i <= data@.len(),
            run_end(data@, pos as int, no_blanks()) == run_end(data@, i as int, no_blanks()),
        decreases data@.len() - i,
    {
        i = i + 1;
    }
    i
}

fn skip_line(data: &[u8], pos: usize) -> (end: usize)
    requires
        pos <= data@.len(),
    ensures
        end == run_end(data@, pos as int, no_newlines()),
        pos <= end <= data@.len(),
{
    let mut i: usize = pos;
    while i < data.len() && data[i] != 10
        invariant
            pos <= i <= data@.len(),
            run_end(data@, pos as int, no_newlines()) == run_end(data@, i as int, no_newlines()),
        decreases data@.len() - i,
    {
        i = i + 1;
    }
    i
}

fn white(c: char) -> (r: bool)
    ensures
        r == is_white(c),
{
    let n: u32 = c as u32;
    (9 <= n && n <= 13) || n == 0x20 || n == 0x85 || n == 0xA0 || n == 0x1680 || (0x2000 <= n && n <= 0x200A) || n
        == 0x2028 || n == 0x2029 || n == 0x202F || n == 0x205F || n == 0x3000
}

fn trim(s: &Vec<char>) -> (out: Vec<char>)
    ensures
        out@ == trimmed(s@),
{
    let len: usize = s.len();
    let mut from: usize = 0;
    assert(s@.skip(0) =~= s@);
    while from < len && white(s[from])
        invariant
            from <= len,
            len == s@.len(),
            trim_front(s@) == trim_front(s@.skip(from as int)),
        decreases len - from,
    {
        proof {
            assert(s@.skip(from as int)[0] == s@[from as int]);
            assert(s@.skip(from as int).skip(1) =~= s@.skip(from + 1));
        }
        from = from + 1;
    }
    proof {
        if from < len {
            assert(s@.skip(from as int)[0] == s@[from as int]);
        }
    }
    let ghost t = s@.skip(from as int);
    assert(trim_front(s@) == t);
    let mut to: usize = len;
    assert(s@.subrange(from as int, to as int) =~= t);
    while to > from && white(s[to - 1])
        invariant
            from <= to <= len,
            len == s@.len(),
            trim_back(t) == trim_back(s@.subrange(from as int, to as int)),
        decreases to,
    {
        proof {
            let u = s@.subrange(from as int, to as int);
            assert(u.last() == s@[to - 1]);
            assert(u.drop_last() =~= s@.subrange(from as int, to - 1));
        }
        to = to - 1;
    }
    proof {
        let u = s@.subrange(from as int, to as int);
        if from < to {
            assert(u.last() == s@[to - 1]);
        }
    }
    piece(s, from, to)
}

fn read_line(data: &[u8], pos: usize) -> (r: Result<(Vec<char>, usize), String>)
    requires
        pos <= data@.len(),
    ensures
        match r {
            Ok((line, next)) => header_line(data@, pos as int) == Ok::<(Seq<char>, int), Seq<char>>(
                (line@, next as int),
            ) && pos < next <= data@.len(),
            Err(text) => header_line(data@, pos as int) == Err::<(Seq<char>, int), Seq<char>>(text@),
        },
{
    let end: usize = skip_line(data, pos);
    if end >= data.len() {
        return Err("Unexpected EOF reading header".to_string());
    }
    match utf8_text(&data[pos..end]) {
        Ok(s) => Ok((trim(&chars_of(s.as_str())), end + 1)),
        Err(text) => Err(text),
    }
}

fn read_number_or_zero(s: &Vec<char>) -> (n: u32)
    ensures
        n == number_or_zero(s@),
{
    match read_unsigned(s, 4294967295) {
        Some(n) => n as u32,
        None => 0,
    }
}

fn take_line(h: PamHeader, line: &Vec<char>) -> (out: PamHeader)
    ensures
        out == with_line(h, line@),
{
    let len: usize = line.len();
    let i: usize = find_from(line, 0, ' ');
    proof {
        assert(line@.skip(0) =~= line@);
        lemma_find(line@, ' ');
    }
    if i >= len || line[0] == '#' {
        return h;
    }
    let key = trim(&piece(line, 0, i));
    let value = trim(&piece(line, i + 1, len));
    proof {
        assert(line@.subrange(0, i as int) =~= line@.take(i as int));
        assert(line@.subrange(i + 1, len as int) =~= line@.skip(i + 1));
    }
    let n: u32 = read_number_or_zero(&value);
    let mut out = h;
    if is_text(&key, "WIDTH") {
        out.width = n;
    } else if is_text(&key, "HEIGHT") {
        out.height = n;
    } else if is_text(&key, "DEPTH") {
        out.depth = n;
    } else if is_text(&key, "MAXVAL") {
        out.maxval = n;
    }
    out
}

fn read_pam_header(data: &[u8], start: usize) -> (r: Result<(PamHeader, usize), String>)
    requires
        start <= data@.len(),
    ensures
        match r {
            Ok((h, pos)) => pam_header(data@, start as int, empty_header()) == Ok::<(PamHeader, int), Seq<char>>(
                (h, pos as int),
            ) && pos <= data@.len(),
            Err(text) => pam_header(data@, start as int, empty_header()) == Err::<(PamHeader, int), Seq<char>>(
                text@,
            ),
        },
{
    let mut h = PamHeader { width: 0, height: 0, depth: 0, maxval: 0 };
    let mut pos: usize = start;
    let ghost want = pam_header(data@, start as int, empty_header());
    loop
        invariant
            pos <= data@.len(),
            want == pam_header(data@, start as int, empty_header()),
            want == pam_header(data@, pos as int, h),
        decreases data@.len() - pos,
    {
        match read_line(data, pos) {
            Err(text) => {
                return Err(text);
            },
            Ok((line, next)) => {
                if is_text(&line, "ENDHDR") {
                    return Ok((h, next));
                }
                h = take_line(h, &line);
                pos = next;
            },
        }
    }
}

/// Takes the pixels at `pos`, if they are all there.
fn read_raw_image(
    data: &[u8],
    pos: usize,
    width: u32,
    height: u32,
    color_type: u8,
    depth: u32,
    maxval: u32,
    message: &str,
) -> (r: Result<LoadedImage, String>)
    requires
        pos <= data@.len(),
        depth <= 4,
    ensures
        match r {
            Ok(image) => raw_image(
                data@,
                pos as int,
                width,
                height,
                color_type,
                depth as int,
                maxval,
                message@,
            ) == Ok::<LoadedView, Seq<char>>(image@),
            Err(text) => raw_image(
                data@,
                pos as int,
                width,
                height,
                color_type,
                depth as int,
                maxval,
                message@,
            ) == Err::<LoadedView, Seq<char>>(text@),
        },
{
    let bytes: u64 = if maxval <= 255 { 1 } else { 2 };
    proof {
        assert(0 <= width * depth <= 4 * 4294967295) by (nonlinear_arith)
            requires
                width <= 4294967295,
                depth <= 4,
        ;
        assert(0 <= width * depth * bytes <= 8 * 4294967295) by (nonlinear_arith)
            requires
                0 <= width * depth <= 4 * 4294967295,
                bytes <= 2,
        ;
        assert(0 <= height * (width * depth * bytes) <= 8 * 4294967295 * 4294967295) by (nonlinear_arith)
            requires
                0 <= width * depth * bytes <= 8 * 4294967295,
                height <= 4294967295,
        ;
    }
    let stride: u64 = width as u64 * depth as u64 * bytes;
    let size: u128 = height as u128 * stride as u128;
    let len: usize = data.len();
    if ((len - pos) as u128) < size || stride > usize::MAX as u64 {
        return Err(message.to_string());
    }
    let end: usize = pos + size as usize;
    let mut pixels: Vec<u8> = Vec::new();
    pixels.extend_from_slice(&data[pos..end]);
    assert(pixels@ =~= data@.subrange(pos as int, end as int));
    let image = LoadedImage {
        width,
        height,
        bit_depth: if maxval <= 255 { 8 } else { 16 },
        color_type,
        stride: stride as usize,
        raw_pixels: pixels,
        orig_idat_size: len,
    };
    Ok(image)
}

fn decode_pam(data: &[u8], pos: usize, h: PamHeader) -> (r: Result<LoadedImage, String>)
    requires
        pos <= data@.len(),
    ensures
        match r {
            Ok(image) => pam_image(data@, pos as int, h) == Ok::<LoadedView, Seq<char>>(image@),
            Err(text) => pam_image(data@, pos as int, h) == Err::<LoadedView, Seq<char>>(text@),
        },
{
    if h.width == 0 || h.height == 0 || h.depth == 0 || h.maxval == 0 {
        return Err("Invalid PAM header configuration".to_string());
    }
    let color_type: u8 = match h.depth {
        1 => 0,
        2 => 4,
        3 => 2,
        4 => 6,
        _ => {
            let mut text: String = "Unsupported PAM depth: ".to_string();
            append_decimal(&mut text, h.depth as u128);
            return Err(text);
        },
    };
    if h.maxval > 65535 {
        return Err("Unsupported PAM maxval".to_string());
    }
    read_raw_image(data, pos, h.width, h.height, color_type, h.depth, h.maxval, "PAM pixel data truncated")
}

fn read_words(data: &[u8], start: usize) -> (r: (Vec<Vec<char>>, usize))
    requires
        start <= data@.len(),
    ensures
        words_of(r.0@) == header_words(data@, start as int, 3).0,
        r.1 == header_words(data@, start as int, 3).1,
        r.1 <= data@.len(),
{
    let len: usize = data.len();
    let mut words: Vec<Vec<char>> = Vec::new();
    let mut pos: usize = start;
    let ghost want = header_words(data@, start as int, 3);
    proof {
        let rest = header_words(data@, start as int, 3);
        assert(words_of(words@) + rest.0 =~= rest.0);
    }
    while words.len() < 3 && pos < len
        invariant
            words@.len() <= 3,
            pos <= len,
            len == data@.len(),
            want == header_words(data@, start as int, 3),
            want.0 == words_of(words@) + header_words(data@, pos as int, (3 - words@.len()) as nat).0,
            want.1 == header_words(data@, pos as int, (3 - words@.len()) as nat).1,
        decreases len - pos,
    {
        let from: usize = skip_blanks(data, pos);
        proof {
            lemma_run_end(data@, pos as int, blanks());
            lemma_run_end(data@, from as int, no_newlines());
            lemma_run_end(data@, from as int, no_blanks());
        }
        if from < len && data[from] == 35 {
            pos = skip_line(data, from);
        } else {
            let to: usize = skip_word(data, from);
            let ghost before = words_of(words@);
            if from < to {
                if let Ok(s) = utf8_text(&data[from..to]) {
                    let word = chars_of(s.as_str());
                    words.push(word);
                    proof {
                        let rest = header_words(data@, to as int, (3 - words@.len()) as nat).0;
                        assert(words_of(words@) =~= before.push(word@));
                        assert(before + (seq![word@] + rest) =~= before.push(word@) + rest);
                    }
                }
            }
            pos = to;
        }
    }
    proof {
        let rest = header_words(data@, pos as int, (3 - words@.len()) as nat);
        assert(rest.0 =~= Seq::<Seq<char>>::empty());
        assert(words_of(words@) + rest.0 =~= words_of(words@));
    }
    (words, pos)
}

spec fn words_of(v: Seq<Vec<char>>) -> Seq<Seq<char>> {
    v.map_values(|w: Vec<char>| w@)
}

fn decode_pnm(data: &[u8], pos: usize, is_rgb: bool) -> (r: Result<LoadedImage, String>)
    requires
        pos <= data@.len(),
    ensures
        match r {
            Ok(image) => pnm_image(data@, pos as int, is_rgb) == Ok::<LoadedView, Seq<char>>(image@),
            Err(text) => pnm_image(data@, pos as int, is_rgb) == Err::<LoadedView, Seq<char>>(text@),
        },
{
    let (words, at) = read_words(data, pos);
    if words.len() < 3 {
        return Err("Invalid PPM/PGM header structure".to_string());
    }
    proof {
        let w = words_of(words@);
        assert(w[0] == words@[0]@ && w[1] == words@[1]@ && w[2] == words@[2]@);
    }
    let start: usize = if at < data.len() && blank(data[at]) { at + 1 } else { at };
    let width: u32 = match read_unsigned(&words[0], 4294967295) {
        Some(n) => n as u32,
        None => {
            return Err("Invalid width".to_string());
        },
    };
    let height: u32 = match read_unsigned(&words[1], 4294967295) {
        Some(n) => n as u32,
        None => {
            return Err("Invalid height".to_string());
        },
    };
    let maxval: u32 = match read_unsigned(&words[2], 4294967295) {
        Some(n) => n as u32,
        None => {
            return Err("Invalid maxval".to_string());
        },
    };
    let color_type: u8 = if is_rgb { 2 } else { 0 };
    let depth: u32 = if is_rgb { 3 } else { 1 };
    read_raw_image(data, start, width, height, color_type, depth, maxval, "PPM/PGM pixel data truncated")
}

/// Decodes a Netpbm image. An `Err` holds the message for the user.
pub fn decode_netpbm(data: &[u8]) -> (r: Result<LoadedImage, String>)
    ensures
        match r {
            Ok(image) => netpbm_image(data@) == Ok::<LoadedView, Seq<char>>(image@),
            Err(text) => netpbm_image(data@) == Err::<LoadedView, Seq<char>>(text@),
        },
{
    let (magic, pos) = match read_line(data, 0) {
        Ok(line) => line,
        Err(text) => {
            return Err(text);
        },
    };
    if is_text(&magic, "P7") {
        match read_pam_header(data, pos) {
            Ok((h, start)) => decode_pam(data, start, h),
            Err(text) => Err(text),
        }
    } else if is_text(&magic, "P5") {
        proof {
            reveal_strlit("P5");
            reveal_strlit("P6");
            assert("P5"@[1] != "P6"@[1]);
        }
        decode_pnm(data, pos, false)
    } else if is_text(&magic, "P6") {
        decode_pnm(data, pos, true)
    } else {
        Err("Unsupported Netpbm magic format".to_string())
    }
}

}
