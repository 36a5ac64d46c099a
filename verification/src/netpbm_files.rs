//! Netpbm files byte by byte: what stands in a header, and which image it
//! describes.
use crate::models::LoadedView;
use crate::netpbm::{
    blanks, header_line, header_words, is_white, lemma_run_end, netpbm_image, no_blanks, no_newlines, number_or_zero,
    pam_header, run_end, trim_back, trim_front, trimmed, with_line, PamHeader,
};
use crate::text::{all_digits, decimal, digits_value, find, is_digit, lemma_find, parse_unsigned};
use vstd::prelude::*;
use vstd::utf8::{
    decode_utf8, encode_utf8, encode_utf8_decode_utf8, encode_utf8_valid_utf8, is_ascii_chars,
    is_ascii_chars_encode_utf8, valid_utf8,
};

verus! {

/// The bytes stand at `pos`.
pub open spec fn stands(data: Seq<u8>, pos: int, s: Seq<u8>) -> bool {
    0 <= pos && pos + s.len() <= data.len() && data.subrange(pos, pos + s.len()) == s
}

/// The number that a row of digits in ASCII stands for.
pub open spec fn value_of(digits: Seq<u8>) -> int
    decreases digits.len(),
{
    if digits.len() == 0 {
        0
    } else {
        10 * value_of(digits.drop_last()) + (digits.last() - 48)
    }
}

/// One or more digits in ASCII that stand for a number of at most 32 bits.
pub open spec fn is_number(digits: Seq<u8>) -> bool {
    &&& digits.len() > 0
    &&& forall|i: int| 0 <= i < digits.len() ==> 48 <= #[trigger] digits[i] <= 57
    &&& value_of(digits) <= 4294967295
}

/// A space, a tab, a line feed, a form feed or a carriage return.
pub open spec fn is_space(b: u8) -> bool {
    b == 32 || b == 9 || b == 10 || b == 12 || b == 13
}

/// One space, or a comment: from a `#` to the end of its line.
pub open spec fn is_filler(s: Seq<u8>) -> bool {
    ||| s.len() == 1 && is_space(s[0])
    ||| s.len() >= 2 && s[0] == 35 && s.last() == 10 && forall|i: int| 0 <= i < s.len() - 1 ==> #[trigger] s[i] != 10
}

/// Any number of spaces and comments.
pub open spec fn are_fillers(s: Seq<Seq<u8>>) -> bool {
    forall|i: int| 0 <= i < s.len() ==> is_filler(#[trigger] s[i])
}

/// Spaces and comments with a space in front, so that they end a word.
pub open spec fn is_gap(s: Seq<Seq<u8>>) -> bool {
    are_fillers(s) && s.len() > 0 && s[0].len() == 1
}

/// The bytes as characters.
pub open spec fn as_chars(s: Seq<u8>) -> Seq<char> {
    Seq::new(s.len(), |i: int| s[i] as char)
}

/// Bytes of ASCII are characters.
proof fn lemma_ascii(s: Seq<u8>)
    requires
        forall|i: int| 0 <= i < s.len() ==> #[trigger] s[i] < 128,
    ensures
        valid_utf8(s),
        decode_utf8(s) == as_chars(s),
{
    let c = as_chars(s);
    assert(is_ascii_chars(c));
    is_ascii_chars_encode_utf8(c);
    assert forall|i: int| 0 <= i < s.len() implies encode_utf8(c)[i] == s[i] by {
        assert(c[i] as u8 == encode_utf8(c)[i]);
    }
    assert(encode_utf8(c) =~= s);
    encode_utf8_valid_utf8(c);
    encode_utf8_decode_utf8(c);
}

proof fn lemma_digits(s: Seq<u8>)
    requires
        forall|i: int| 0 <= i < s.len() ==> 48 <= #[trigger] s[i] <= 57,
    ensures
        all_digits(as_chars(s)),
        digits_value(as_chars(s)) == value_of(s),
        value_of(s) >= 0,
    decreases s.len(),
{
    let c = as_chars(s);
    assert forall|i: int| 0 <= i < c.len() implies '0' <= #[trigger] c[i] && c[i] <= '9' by {
        assert(48 <= s[i] <= 57);
    }
    if s.len() > 0 {
        let t = s.drop_last();
        assert forall|i: int| 0 <= i < t.len() implies 48 <= #[trigger] t[i] <= 57 by {
            assert(t[i] == s[i]);
        }
        lemma_digits(t);
        assert(c.drop_last() =~= as_chars(t));
        assert(48 <= s[s.len() - 1] <= 57);
    }
}

/// A number is read as what it stands for.
proof fn lemma_number(s: Seq<u8>)
    requires
        is_number(s),
    ensures
        parse_unsigned(as_chars(s), u32::MAX as int) == Some(value_of(s)),
        number_or_zero(as_chars(s)) == value_of(s),
        0 <= value_of(s),
        is_word(s),
{
    lemma_digits(s);
    assert(48 <= s[0] <= 57);
    assert(as_chars(s)[0] != '+');
}

/// The first place is found.
proof fn lemma_run(data: Seq<u8>, pos: int, wanted: spec_fn(u8) -> bool, end: int)
    requires
        0 <= pos <= end <= data.len(),
        forall|i: int| pos <= i < end ==> wanted(#[trigger] data[i]),
        end < data.len() ==> !wanted(data[end]),
    ensures
        run_end(data, pos, wanted) == end,
{
    lemma_run_end(data, pos, wanted);
    let e = run_end(data, pos, wanted);
    if e < end {
        assert(wanted(data[e]));
    }
    if end < e {
        assert(wanted(data[end]));
    }
}

proof fn lemma_space(data: Seq<u8>, pos: int, n: nat)
    requires
        0 <= pos < data.len() - 1,
        is_space(data[pos]),
        n > 0,
    ensures
        header_words(data, pos, n) == header_words(data, pos + 1, n),
{
    assert(blanks()(data[pos]));
    assert(run_end(data, pos, blanks()) == run_end(data, pos + 1, blanks()));
}

proof fn lemma_filler(data: Seq<u8>, pos: int, s: Seq<u8>, n: nat)
    requires
        stands(data, pos, s),
        is_filler(s),
        pos + s.len() < data.len(),
        n > 0,
    ensures
        header_words(data, pos, n) == header_words(data, pos + s.len(), n),
{
    assert(s[0] == data[pos]);
    if s.len() == 1 && is_space(s[0]) {
        lemma_space(data, pos, n);
    } else {
        let end = pos + s.len() - 1;
        assert(data[end] == s[s.len() - 1]);
        assert forall|i: int| pos <= i < end implies no_newlines()(#[trigger] data[i]) by {
            assert(s[i - pos] != 10);
            assert(data[i] == s[i - pos]);
        }
        assert(!no_newlines()(data[end]));
        lemma_run(data, pos, no_newlines(), end);
        assert(!blanks()(data[pos]));
        assert(run_end(data, pos, blanks()) == pos);
        assert(header_words(data, pos, n) == header_words(data, end, n));
        lemma_space(data, end, n);
    }
}

proof fn lemma_fillers(data: Seq<u8>, pos: int, s: Seq<Seq<u8>>, n: nat)
    requires
        stands(data, pos, s.flatten()),
        are_fillers(s),
        pos + s.flatten().len() < data.len(),
        n > 0,
    ensures
        header_words(data, pos, n) == header_words(data, pos + s.flatten().len(), n),
    decreases s.len(),
{
    if s.len() > 0 {
        let rest = s.drop_first();
        let more = rest.flatten();
        assert(s.flatten() == s[0] + more);
        assert(is_filler(s[0]));
        assert(data.subrange(pos, pos + s[0].len()) =~= s[0]) by {
            assert forall|i: int| 0 <= i < s[0].len() implies data[pos + i] == s[0][i] by {
                assert(data.subrange(pos, pos + s.flatten().len())[i] == (s[0] + more)[i]);
            }
        }
        let next = pos + s[0].len();
        assert(data.subrange(next, next + more.len()) =~= more) by {
            assert forall|i: int| 0 <= i < more.len() implies data[next + i] == more[i] by {
                let k = s[0].len() + i;
                assert(data.subrange(pos, pos + s.flatten().len())[k] == (s[0] + more)[k]);
            }
        }
        lemma_filler(data, pos, s[0], n);
        assert forall|i: int| 0 <= i < rest.len() implies is_filler(#[trigger] rest[i]) by {
            assert(is_filler(s[i + 1]));
        }
        lemma_fillers(data, next, rest, n);
    }
}

/// One or more visible characters of ASCII that do not begin a comment.
pub open spec fn is_word(word: Seq<u8>) -> bool {
    &&& word.len() > 0
    &&& word[0] != 35
    &&& forall|i: int| 0 <= i < word.len() ==> 33 <= #[trigger] word[i] <= 126
}

proof fn lemma_word(data: Seq<u8>, pos: int, word: Seq<u8>, n: nat)
    requires
        stands(data, pos, word),
        is_word(word),
        pos + word.len() < data.len(),
        is_space(data[pos + word.len()]),
        n > 0,
    ensures
        ({
            let rest = header_words(data, pos + word.len(), (n - 1) as nat);
            header_words(data, pos, n) == (seq![as_chars(word)] + rest.0, rest.1)
        }),
{
    let end = pos + word.len();
    assert forall|i: int| pos <= i < end implies 33 <= #[trigger] data[i] <= 126 by {
        assert(data[i] == word[i - pos]);
    }
    assert(data[pos] == word[0]);
    assert(!blanks()(data[pos]));
    assert(run_end(data, pos, blanks()) == pos);
    assert forall|i: int| pos <= i < end implies no_blanks()(#[trigger] data[i]) by {
        assert(33 <= data[i] <= 126);
    }
    assert(!no_blanks()(data[end]));
    lemma_run(data, pos, no_blanks(), end);
    assert forall|i: int| 0 <= i < word.len() implies #[trigger] word[i] < 128 by {}
    lemma_ascii(word);
    assert(data.subrange(pos, end) == word);
}

/// The line of a magic number.
proof fn lemma_magic(data: Seq<u8>, digit: u8)
    requires
        stands(data, 0, seq![80u8, digit, 10]),
        48 <= digit <= 57,
    ensures
        header_line(data, 0) == Ok::<(Seq<char>, int), Seq<char>>((seq!['P', digit as char], 3)),
{
    let s = seq![80u8, digit, 10];
    assert(data[0] == s[0] && data[1] == s[1] && data[2] == s[2]);
    assert forall|i: int| 0 <= i < 2 implies no_newlines()(#[trigger] data[i]) by {}
    assert(!no_newlines()(data[2]));
    lemma_run(data, 0, no_newlines(), 2);
    let line = data.subrange(0, 2);
    assert forall|i: int| 0 <= i < line.len() implies #[trigger] line[i] < 128 by {}
    lemma_ascii(line);
    assert(as_chars(line) =~= seq!['P', digit as char]);
    lemma_not_trimmed(as_chars(line));
}

/// What has no white space at its ends is not trimmed.
proof fn lemma_not_trimmed(s: Seq<char>)
    requires
        s.len() > 0,
        !is_white(s[0]),
        !is_white(s.last()),
    ensures
        trimmed(s) == s,
{
}

/// A gray or color image of the old formats: a magic number, the width, the
/// height and the greatest sample value, with spaces and comments between
/// them and one space behind, and then the samples, in one byte or in two.
pub proof fn law_portable_images(
    data: Seq<u8>,
    is_rgb: bool,
    first: Seq<Seq<u8>>,
    width: Seq<u8>,
    second: Seq<Seq<u8>>,
    height: Seq<u8>,
    third: Seq<Seq<u8>>,
    maxval: Seq<u8>,
)
    requires
        are_fillers(first),
        is_gap(second),
        is_gap(third),
        is_number(width),
        is_number(height),
        is_number(maxval),
        value_of(width) * 6 <= usize::MAX,
        ({
            let a = 3 + first.flatten().len();
            let b = a + width.len();
            let c = b + second.flatten().len();
            let d = c + height.len();
            let e = d + third.flatten().len();
            let f = e + maxval.len();
            &&& stands(data, 0, seq![80u8, if is_rgb { 54 } else { 53 }, 10])
            &&& stands(data, 3, first.flatten())
            &&& stands(data, a as int, width)
            &&& stands(data, b as int, second.flatten())
            &&& stands(data, c as int, height)
            &&& stands(data, d as int, third.flatten())
            &&& stands(data, e as int, maxval)
            &&& f < data.len()
            &&& is_space(data[f as int])
        }),
    ensures
        ({
            let start = 4 + first.flatten().len() + width.len() + second.flatten().len() + height.len()
                + third.flatten().len() + maxval.len();
            let size = (if is_rgb { 3int } else { 1 }) * (if value_of(maxval) <= 255 { 1int } else { 2 });
            let bytes = value_of(height) * (value_of(width) * size);
            if data.len() < start + bytes {
                netpbm_image(data) == Err::<LoadedView, Seq<char>>("PPM/PGM pixel data truncated"@)
            } else {
                netpbm_image(data) == Ok::<LoadedView, Seq<char>>(
                    LoadedView {
                        width: value_of(width) as u32,
                        height: value_of(height) as u32,
                        bit_depth: if value_of(maxval) <= 255 { 8 } else { 16 },
                        color_type: if is_rgb { 2 } else { 0 },
                        stride: value_of(width) * size,
                        pixels: data.subrange(start as int, start + bytes),
                        orig_idat_size: data.len() as int,
                    },
                )
            }
        }),
{
    let a = 3 + first.flatten().len() as int;
    let b = a + width.len();
    let c = b + second.flatten().len();
    let d = c + height.len();
    let e = d + third.flatten().len();
    let f = e + maxval.len();
    lemma_gap_space(data, b, second);
    lemma_gap_space(data, d, third);
    lemma_magic(data, if is_rgb { 54 } else { 53 });
    lemma_fillers(data, 3, first, 3);
    lemma_number(width);
    lemma_number(height);
    lemma_number(maxval);
    lemma_word(data, a, width, 3);
    lemma_fillers(data, b, second, 2);
    lemma_word(data, c, height, 2);
    lemma_fillers(data, d, third, 1);
    lemma_word(data, e, maxval, 1);
    let words = header_words(data, 3, 3);
    assert(words.0 =~= seq![as_chars(width), as_chars(height), as_chars(maxval)]);
    assert(words.1 == f);
    lemma_literals();
    let w = value_of(width);
    let h = value_of(height);
    let is_short = value_of(maxval) <= 255;
    assert(w * 1 * 1 == w * 1 && w * 1 * 2 == w * 2 && w * 3 * 1 == w * 3 && w * 3 * 2 == w * 6);
}

proof fn lemma_gap_space(data: Seq<u8>, pos: int, gap: Seq<Seq<u8>>)
    requires
        stands(data, pos, gap.flatten()),
        is_gap(gap),
    ensures
        pos < data.len(),
        is_space(data[pos]),
{
    assert(is_filler(gap[0]));
    assert(gap.flatten() == gap[0] + gap.drop_first().flatten());
    assert(gap.flatten()[0] == gap[0][0]);
    assert(data.subrange(pos, pos + gap.flatten().len())[0] == data[pos]);
}

proof fn lemma_literals()
    ensures
        "P5"@ == seq!['P', '5'],
        "P6"@ == seq!['P', '6'],
        "P7"@ == seq!['P', '7'],
{
    reveal_strlit("P5");
    reveal_strlit("P6");
    reveal_strlit("P7");
    assert("P5"@ =~= seq!['P', '5']);
    assert("P6"@ =~= seq!['P', '6']);
    assert("P7"@ =~= seq!['P', '7']);
}

/// A line in the header of a PAM image.
pub enum PamLine {
    /// A name, a space and a number.
    Field { key: Seq<u8>, digits: Seq<u8> },
    /// A comment, or anything that is no field with a known name.
    Other { text: Seq<u8> },
}

/// `WIDTH`, `HEIGHT`, `DEPTH` or `MAXVAL` in ASCII.
pub open spec fn pam_key(k: int) -> Seq<u8> {
    if k == 0 {
        seq![87u8, 73, 68, 84, 72]
    } else if k == 1 {
        seq![72u8, 69, 73, 71, 72, 84]
    } else if k == 2 {
        seq![68u8, 69, 80, 84, 72]
    } else {
        seq![77u8, 65, 88, 86, 65, 76]
    }
}

/// The text has a space, and `word` in front of the first one.
pub open spec fn begins_with_word(text: Seq<u8>, word: Seq<u8>) -> bool {
    &&& text.len() > word.len()
    &&& text.take(word.len() as int) == word
    &&& text[word.len() as int] == 32
}

pub open spec fn is_pam_line(line: PamLine) -> bool {
    match line {
        PamLine::Field { key, digits } => is_number(digits) && exists|k: int| 0 <= k < 4
            && key == #[trigger] pam_key(k),
        PamLine::Other { text } => {
            &&& text.len() > 0
            &&& text != seq![69u8, 78, 68, 72, 68, 82]
            &&& forall|i: int| 0 <= i < text.len() ==> 32 <= #[trigger] text[i] < 127
            &&& text[0] != 32 && text.last() != 32
            &&& text[0] == 35 || forall|k: int| 0 <= k < 4 ==> !begins_with_word(text, #[trigger] pam_key(k))
        },
    }
}

/// The line as it stands in a file.
pub open spec fn pam_bytes(line: PamLine) -> Seq<u8> {
    match line {
        PamLine::Field { key, digits } => key + seq![32u8] + digits,
        PamLine::Other { text } => text,
    }
}

/// The four numbers with one more line taken in: width, height, depth and
/// greatest sample value.
pub open spec fn with_pam_line(n: (int, int, int, int), line: PamLine) -> (int, int, int, int) {
    match line {
        PamLine::Field { key, digits } => if key == pam_key(0) {
            (value_of(digits), n.1, n.2, n.3)
        } else if key == pam_key(1) {
            (n.0, value_of(digits), n.2, n.3)
        } else if key == pam_key(2) {
            (n.0, n.1, value_of(digits), n.3)
        } else {
            (n.0, n.1, n.2, value_of(digits))
        },
        PamLine::Other { text } => n,
    }
}

/// The lines stand at `pos`, each with a line feed behind it, and then
/// `ENDHDR` with a line feed, behind which `end` is.
pub open spec fn holds_lines(data: Seq<u8>, pos: int, lines: Seq<PamLine>, end: int) -> bool
    decreases lines.len(),
{
    if lines.len() == 0 {
        stands(data, pos, seq![69u8, 78, 68, 72, 68, 82, 10]) && end == pos + 7
    } else {
        &&& is_pam_line(lines[0])
        &&& stands(data, pos, pam_bytes(lines[0]) + seq![10u8])
        &&& holds_lines(data, pos + pam_bytes(lines[0]).len() + 1, lines.skip(1), end)
    }
}

/// What all lines say together. Where a name comes twice, the last line
/// counts.
pub open spec fn pam_numbers(n: (int, int, int, int), lines: Seq<PamLine>) -> (int, int, int, int)
    decreases lines.len(),
{
    if lines.len() == 0 {
        n
    } else {
        pam_numbers(with_pam_line(n, lines[0]), lines.skip(1))
    }
}

/// A line of printable ASCII is read as it stands.
proof fn lemma_line(data: Seq<u8>, pos: int, line: Seq<u8>)
    requires
        stands(data, pos, line + seq![10u8]),
        line.len() > 0,
        forall|i: int| 0 <= i < line.len() ==> 32 <= #[trigger] line[i] < 127,
        line[0] != 32,
        line.last() != 32,
    ensures
        header_line(data, pos) == Ok::<(Seq<char>, int), Seq<char>>((as_chars(line), pos + line.len() + 1)),
{
    let end = pos + line.len();
    let s = line + seq![10u8];
    assert forall|i: int| pos <= i <= end implies #[trigger] data[i] == s[i - pos] by {
        assert(data.subrange(pos, pos + s.len())[i - pos] == data[i]);
    }
    assert forall|i: int| pos <= i < end implies no_newlines()(#[trigger] data[i]) by {
        assert(data[i] == s[i - pos]);
        assert(32 <= line[i - pos]);
    }
    assert(data[end] == s[end - pos]);
    assert(!no_newlines()(data[end]));
    lemma_run(data, pos, no_newlines(), end);
    assert(data.subrange(pos, end) =~= line);
    lemma_ascii(line);
    let c = as_chars(line);
    assert(32 <= line[0] < 127 && 32 <= line[line.len() - 1] < 127);
    assert(c[0] as int == line[0] && c.last() as int == line.last());
    lemma_not_trimmed(c);
}

/// Different bytes are different characters.
proof fn lemma_chars_differ(a: Seq<u8>, b: Seq<u8>)
    ensures
        as_chars(a) == as_chars(b) ==> a == b,
{
    if as_chars(a) == as_chars(b) {
        assert(a.len() == as_chars(a).len() && b.len() == as_chars(b).len());
        assert forall|i: int| 0 <= i < a.len() implies a[i] == b[i] by {
            assert(as_chars(a)[i] == as_chars(b)[i]);
            assert(as_chars(a)[i] as u8 == a[i] && as_chars(b)[i] as u8 == b[i]);
        }
        assert(a =~= b);
    }
}

proof fn lemma_pam_literals()
    ensures
        "WIDTH"@ == as_chars(pam_key(0)),
        "HEIGHT"@ == as_chars(pam_key(1)),
        "DEPTH"@ == as_chars(pam_key(2)),
        "MAXVAL"@ == as_chars(pam_key(3)),
        "ENDHDR"@ == as_chars(seq![69u8, 78, 68, 72, 68, 82]),
{
    reveal_strlit("WIDTH");
    reveal_strlit("HEIGHT");
    reveal_strlit("DEPTH");
    reveal_strlit("MAXVAL");
    reveal_strlit("ENDHDR");
    assert("WIDTH"@ =~= as_chars(pam_key(0)));
    assert("HEIGHT"@ =~= as_chars(pam_key(1)));
    assert("DEPTH"@ =~= as_chars(pam_key(2)));
    assert("MAXVAL"@ =~= as_chars(pam_key(3)));
    assert("ENDHDR"@ =~= as_chars(seq![69u8, 78, 68, 72, 68, 82]));
}

spec fn header_of(n: (int, int, int, int)) -> PamHeader {
    PamHeader { width: n.0 as u32, height: n.1 as u32, depth: n.2 as u32, maxval: n.3 as u32 }
}

/// A field is taken in by its name.
proof fn lemma_field(n: (int, int, int, int), key: Seq<u8>, digits: Seq<u8>, k: int)
    requires
        0 <= k < 4,
        key == pam_key(k),
        is_number(digits),
    ensures
        with_line(header_of(n), as_chars(key + seq![32u8] + digits)) == header_of(
            with_pam_line(n, PamLine::Field { key, digits }),
        ),
{
    let bytes = key + seq![32u8] + digits;
    let line = as_chars(bytes);
    lemma_find(line, ' ');
    let f = find(line, ' ');
    assert(line[key.len() as int] == ' ');
    assert(f == key.len()) by {
        if f < key.len() {
            assert(bytes[f] == key[f]);
            assert(line[f] == key[f] as char);
            assert(key[f] != 32);
        }
    }
    assert(line.take(f) =~= as_chars(key));
    assert(line.skip(f + 1) =~= as_chars(digits));
    lemma_number(digits);
    assert(48 <= digits[0] <= 57 && 48 <= digits[digits.len() - 1] <= 57);
    assert(as_chars(digits)[0] as int == digits[0] && as_chars(digits).last() as int == digits.last());
    lemma_not_trimmed(as_chars(digits));
    assert(as_chars(key)[0] as int == key[0] && as_chars(key).last() as int == key.last());
    lemma_not_trimmed(as_chars(key));
    assert(line[0] == key[0] as char);
    lemma_pam_literals();
    lemma_chars_differ(key, pam_key(0));
    lemma_chars_differ(key, pam_key(1));
    lemma_chars_differ(key, pam_key(2));
    lemma_chars_differ(key, pam_key(3));
    lemma_keys_differ();
}

proof fn lemma_keys_differ()
    ensures
        forall|j: int, k: int| 0 <= j < k < 4 ==> #[trigger] pam_key(j) != #[trigger] pam_key(k),
{
    assert forall|j: int, k: int| 0 <= j < k < 4 implies #[trigger] pam_key(j) != #[trigger] pam_key(k) by {
        assert(pam_key(j)[0] != pam_key(k)[0]);
    }
}

/// Other lines are passed over.
proof fn lemma_other(h: PamHeader, text: Seq<u8>)
    requires
        is_pam_line(PamLine::Other { text }),
    ensures
        with_line(h, as_chars(text)) == h,
{
    let line = as_chars(text);
    lemma_find(line, ' ');
    let f = find(line, ' ');
    assert(line[0] as u8 == text[0]);
    if f < line.len() && text[0] != 35 {
        let front = text.take(f);
        assert(line.take(f) =~= as_chars(front));
        assert(line[f] as u8 == text[f]);
        assert(f > 0);
        assert(32 <= text[f - 1] < 127 && 32 <= text[0] < 127);
        assert(line[f - 1] != ' ');
        assert(line[f - 1] as u8 == text[f - 1]);
        let c = as_chars(front);
        assert(c[0] as int == text[0] && c.last() as int == text[f - 1]);
        lemma_not_trimmed(c);
        lemma_pam_literals();
        assert forall|k: int| 0 <= k < 4 implies as_chars(#[trigger] pam_key(k)) != c by {
            lemma_chars_differ(front, pam_key(k));
            assert(!begins_with_word(text, pam_key(k)));
        }
        assert(as_chars(pam_key(0)) != c);
        assert(as_chars(pam_key(1)) != c);
        assert(as_chars(pam_key(2)) != c);
        assert(as_chars(pam_key(3)) != c);
    }
}

proof fn lemma_lines(data: Seq<u8>, pos: int, lines: Seq<PamLine>, end: int, n: (int, int, int, int))
    requires
        holds_lines(data, pos, lines, end),
        0 <= n.0 <= u32::MAX && 0 <= n.1 <= u32::MAX && 0 <= n.2 <= u32::MAX && 0 <= n.3 <= u32::MAX,
    ensures
        pam_header(data, pos, header_of(n)) == Ok::<(PamHeader, int), Seq<char>>(
            (header_of(pam_numbers(n, lines)), end),
        ),
        ({
            let m = pam_numbers(n, lines);
            0 <= m.0 <= u32::MAX && 0 <= m.1 <= u32::MAX && 0 <= m.2 <= u32::MAX && 0 <= m.3 <= u32::MAX
        }),
        0 <= end <= data.len(),
    decreases lines.len(),
{
    lemma_pam_literals();
    if lines.len() == 0 {
        let line = seq![69u8, 78, 68, 72, 68, 82];
        assert(line + seq![10u8] =~= seq![69u8, 78, 68, 72, 68, 82, 10]);
        lemma_line(data, pos, line);
    } else {
        let bytes = pam_bytes(lines[0]);
        lemma_printable(lines[0]);
        lemma_line(data, pos, bytes);
        lemma_chars_differ(bytes, seq![69u8, 78, 68, 72, 68, 82]);
        match lines[0] {
            PamLine::Field { key, digits } => {
                let k = choose|k: int| 0 <= k < 4 && key == #[trigger] pam_key(k);
                lemma_field(n, key, digits, k);
                lemma_number(digits);
            },
            PamLine::Other { text } => {
                lemma_other(header_of(n), text);
            },
        }
        lemma_lines(data, pos + bytes.len() + 1, lines.skip(1), end, with_pam_line(n, lines[0]));
    }
}

proof fn lemma_printable(line: PamLine)
    requires
        is_pam_line(line),
    ensures
        ({
            let s = pam_bytes(line);
            &&& s.len() > 0
            &&& forall|i: int| 0 <= i < s.len() ==> 32 <= #[trigger] s[i] < 127
            &&& s[0] != 32
            &&& s.last() != 32
            &&& s != seq![69u8, 78, 68, 72, 68, 82]
        }),
{
    if let PamLine::Field { key, digits } = line {
        let s = pam_bytes(line);
        let k = choose|k: int| 0 <= k < 4 && key == #[trigger] pam_key(k);
        assert forall|i: int| 0 <= i < s.len() implies 32 <= #[trigger] s[i] < 127 by {
            if i < key.len() {
                assert(s[i] == key[i]);
            } else if i > key.len() {
                assert(s[i] == digits[i - key.len() - 1]);
            }
        }
        assert(s[0] == key[0]);
        assert(s.last() == digits[digits.len() - 1]);
        assert(key[0] != 69);
    }
}

/// A PAM image: a magic number, lines with the width, the height, the number
/// of samples per pixel and the greatest sample value, in any order and with
/// other lines between them, a line that ends the header, and the samples.
pub proof fn law_pam_images(data: Seq<u8>, lines: Seq<PamLine>, start: int)
    requires
        stands(data, 0, seq![80u8, 55, 10]),
        holds_lines(data, 3, lines, start),
        pam_numbers((0, 0, 0, 0), lines).0 * 8 <= usize::MAX,
    ensures
        ({
            let (w, h, depth, maxval) = pam_numbers((0, 0, 0, 0), lines);
            let stride = w * (depth * (if maxval <= 255 { 1int } else { 2 }));
            if w == 0 || h == 0 || depth == 0 || maxval == 0 {
                netpbm_image(data) == Err::<LoadedView, Seq<char>>("Invalid PAM header configuration"@)
            } else if depth > 4 {
                netpbm_image(data) == Err::<LoadedView, Seq<char>>("Unsupported PAM depth: "@ + decimal(depth as nat))
            } else if maxval > 65535 {
                netpbm_image(data) == Err::<LoadedView, Seq<char>>("Unsupported PAM maxval"@)
            } else if data.len() < start + h * stride {
                netpbm_image(data) == Err::<LoadedView, Seq<char>>("PAM pixel data truncated"@)
            } else {
                netpbm_image(data) == Ok::<LoadedView, Seq<char>>(
                    LoadedView {
                        width: w as u32,
                        height: h as u32,
                        bit_depth: if maxval <= 255 { 8 } else { 16 },
                        color_type: match depth as u8 {
                            1 => 0,
                            2 => 4,
                            3 => 2,
                            _ => 6,
                        },
                        stride,
                        pixels: data.subrange(start, start + h * stride),
                        orig_idat_size: data.len() as int,
                    },
                )
            }
        }),
{
    lemma_magic(data, 55);
    lemma_literals();
    lemma_lines(data, 3, lines, start, (0, 0, 0, 0));
    let (w, h, depth, maxval) = pam_numbers((0, 0, 0, 0), lines);
    let bytes: int = if maxval <= 255 { 1 } else { 2 };
    assert(w * depth * bytes == w * (depth * bytes)) by (nonlinear_arith);
    if depth <= 4 && 0 <= depth {
        assert(w * (depth * bytes) <= w * 8) by (nonlinear_arith)
            requires
                0 <= w,
                0 <= depth <= 4,
                1 <= bytes <= 2,
        ;
    }
}

/// What a Netpbm file of another kind is answered.
pub proof fn law_other_magic_numbers_are_refused(data: Seq<u8>, digit: u8)
    requires
        stands(data, 0, seq![80u8, digit, 10]),
        48 <= digit <= 57,
        digit != 53 && digit != 54 && digit != 55,
    ensures
        netpbm_image(data) == Err::<LoadedView, Seq<char>>("Unsupported Netpbm magic format"@),
{
    lemma_magic(data, digit);
    lemma_literals();
    let c = digit as char;
    assert(seq!['P', c][1] == c);
    assert(seq!['P', '5'][1] == '5' && seq!['P', '6'][1] == '6' && seq!['P', '7'][1] == '7');
}

/// White space of ASCII: tab, line feed, vertical tab, form feed, carriage
/// return, and space.
pub open spec fn is_ascii_white(c: char) -> bool {
    9 <= c as int <= 13 || c as int == 32
}

/// White space around a line of the header, or around a value in it, makes no
/// difference; and nothing else is taken away.
pub proof fn law_white_space_is_trimmed(before: Seq<char>, s: Seq<char>, behind: Seq<char>)
    requires
        forall|i: int| 0 <= i < before.len() ==> is_ascii_white(#[trigger] before[i]),
        forall|i: int| 0 <= i < behind.len() ==> is_ascii_white(#[trigger] behind[i]),
        s.len() > 0,
        32 < s[0] as int <= 126,
        32 < s.last() as int <= 126,
    ensures
        trimmed(before + s + behind) == s,
    decreases before.len() + behind.len(),
{
    let all = before + s + behind;
    lemma_trim_front(before, s + behind);
    assert(before + (s + behind) =~= all);
    assert((s + behind)[0] == s[0]);
    lemma_trim_back(s, behind);
}

proof fn lemma_trim_front(before: Seq<char>, s: Seq<char>)
    requires
        forall|i: int| 0 <= i < before.len() ==> is_ascii_white(#[trigger] before[i]),
        s.len() > 0,
        !is_white(s[0]),
    ensures
        trim_front(before + s) == s,
    decreases before.len(),
{
    if before.len() == 0 {
        assert(before + s =~= s);
    } else {
        let t = before.skip(1);
        assert(is_ascii_white(before[0]));
        assert forall|i: int| 0 <= i < t.len() implies is_ascii_white(#[trigger] t[i]) by {
            assert(is_ascii_white(before[i + 1]));
        }
        lemma_trim_front(t, s);
        assert((before + s).skip(1) =~= t + s);
        assert((before + s)[0] == before[0]);
    }
}

proof fn lemma_trim_back(s: Seq<char>, behind: Seq<char>)
    requires
        forall|i: int| 0 <= i < behind.len() ==> is_ascii_white(#[trigger] behind[i]),
        s.len() > 0,
        !is_white(s.last()),
    ensures
        trim_back(s + behind) == s,
    decreases behind.len(),
{
    if behind.len() == 0 {
        assert(s + behind =~= s);
    } else {
        let t = behind.drop_last();
        assert(is_ascii_white(behind[behind.len() - 1]));
        assert forall|i: int| 0 <= i < t.len() implies is_ascii_white(#[trigger] t[i]) by {
            assert(is_ascii_white(behind[i]));
        }
        lemma_trim_back(s, t);
        assert((s + behind).drop_last() =~= s + t);
        assert((s + behind).last() == behind.last());
    }
}

/// A word with anything but digits in it.
pub open spec fn is_bad_word(word: Seq<u8>) -> bool {
    is_word(word) && exists|i: int| 0 <= i < word.len() && !(48 <= #[trigger] word[i] <= 57) && !(i == 0
        && word[i] == 43)
}

proof fn lemma_bad_word(word: Seq<u8>)
    requires
        is_bad_word(word),
    ensures
        parse_unsigned(as_chars(word), u32::MAX as int) is None,
{
    let c = as_chars(word);
    let i = choose|i: int|
        0 <= i < word.len() && !(48 <= #[trigger] word[i] <= 57) && !(i == 0 && word[i] == 43);
    assert(c[i] as u8 == word[i]);
    assert(!is_digit(c[i]));
    assert(c[0] as u8 == word[0]);
    if c[0] == '+' {
        assert(word[0] == 43);
        assert(c.skip(1)[i - 1] == c[i]);
        assert(!is_digit(c.skip(1)[i - 1]));
    }
}

/// What is said of a gray or color image whose header has words in place of
/// numbers: the first of them counts.
pub proof fn law_bad_numbers_are_refused(
    data: Seq<u8>,
    is_rgb: bool,
    first: Seq<Seq<u8>>,
    width: Seq<u8>,
    second: Seq<Seq<u8>>,
    height: Seq<u8>,
    third: Seq<Seq<u8>>,
    maxval: Seq<u8>,
)
    requires
        are_fillers(first),
        is_gap(second),
        is_gap(third),
        is_number(width) || is_bad_word(width),
        is_number(height) || is_bad_word(height),
        is_number(maxval) || is_bad_word(maxval),
        ({
            let a = 3 + first.flatten().len();
            let b = a + width.len();
            let c = b + second.flatten().len();
            let d = c + height.len();
            let e = d + third.flatten().len();
            let f = e + maxval.len();
            &&& stands(data, 0, seq![80u8, if is_rgb { 54 } else { 53 }, 10])
            &&& stands(data, 3, first.flatten())
            &&& stands(data, a as int, width)
            &&& stands(data, b as int, second.flatten())
            &&& stands(data, c as int, height)
            &&& stands(data, d as int, third.flatten())
            &&& stands(data, e as int, maxval)
            &&& f < data.len()
            &&& is_space(data[f as int])
        }),
    ensures
        is_bad_word(width) ==> netpbm_image(data) == Err::<LoadedView, Seq<char>>("Invalid width"@),
        !is_bad_word(width) && is_bad_word(height) ==> netpbm_image(data) == Err::<LoadedView, Seq<char>>(
            "Invalid height"@,
        ),
        !is_bad_word(width) && !is_bad_word(height) && is_bad_word(maxval) ==> netpbm_image(data) == Err::<
            LoadedView,
            Seq<char>,
        >("Invalid maxval"@),
{
    let a = 3 + first.flatten().len() as int;
    let b = a + width.len();
    let c = b + second.flatten().len();
    let d = c + height.len();
    let e = d + third.flatten().len();
    lemma_gap_space(data, b, second);
    lemma_gap_space(data, d, third);
    lemma_magic(data, if is_rgb { 54 } else { 53 });
    lemma_either(width);
    lemma_either(height);
    lemma_either(maxval);
    lemma_fillers(data, 3, first, 3);
    lemma_word(data, a, width, 3);
    lemma_fillers(data, b, second, 2);
    lemma_word(data, c, height, 2);
    lemma_fillers(data, d, third, 1);
    lemma_word(data, e, maxval, 1);
    let words = header_words(data, 3, 3);
    assert(words.0 =~= seq![as_chars(width), as_chars(height), as_chars(maxval)]);
    lemma_literals();
}

proof fn lemma_either(word: Seq<u8>)
    requires
        is_number(word) || is_bad_word(word),
    ensures
        is_word(word),
        is_bad_word(word) <==> parse_unsigned(as_chars(word), u32::MAX as int) is None,
{
    if is_bad_word(word) {
        lemma_bad_word(word);
    } else {
        lemma_number(word);
    }
}

/// A file without a line feed has no header.
pub proof fn law_files_without_lines_are_refused(data: Seq<u8>)
    requires
        !data.contains(10),
    ensures
        netpbm_image(data) == Err::<LoadedView, Seq<char>>("Unexpected EOF reading header"@),
{
    assert forall|i: int| 0 <= i < data.len() implies no_newlines()(#[trigger] data[i]) by {
        assert(data.contains(data[i]));
    }
    lemma_run(data, 0, no_newlines(), data.len() as int);
}

}
