//! Names and small formatting helpers.
use crate::text::{
    append_decimal, chars_of, decimal, find_from, parse_signed, piece, read_signed, split_on, split_once,
};
use vstd::prelude::*;
use vstd::string::{StrSliceExecFns, StringExecFns};

verus! {

/// The descriptive name of a PNG color type.
pub open spec fn color_type_label(color_type: u8) -> Seq<char> {
    if color_type == 0 {
        "Y (Grayscale)"@
    } else if color_type == 2 {
        "RGB"@
    } else if color_type == 3 {
        "Palette"@
    } else if color_type == 4 {
        "YA (Grayscale+Transparency)"@
    } else if color_type == 6 {
        "RGBA (RGB+Transparency)"@
    } else {
        "Unknown"@
    }
}

/// Returns the descriptive name of a PNG color type.
pub fn color_type_name(color_type: u8) -> (s: &'static str)
    ensures
        s@ == color_type_label(color_type),
{
    match color_type {
        0 => "Y (Grayscale)",
        2 => "RGB",
        3 => "Palette",
        4 => "YA (Grayscale+Transparency)",
        6 => "RGBA (RGB+Transparency)",
        _ => "Unknown",
    }
}

/// All numbers from `a` to `b`, none if `a` is greater.
pub open spec fn number_range(a: int, b: int) -> Seq<i32> {
    Seq::new((if a <= b { b - a + 1 } else { 0 }) as nat, |i: int| (a + i) as i32)
}

/// The numbers that one part of a list stands for: a number for itself, two
/// numbers with a `-` between them for all from one to the other, anything
/// else for nothing.
pub open spec fn part_numbers(part: Seq<char>) -> Seq<i32> {
    match split_once(part, '-') {
        Some((a, b)) => match (parse_signed(a), parse_signed(b)) {
            (Some(x), Some(y)) => number_range(x, y),
            _ => Seq::empty(),
        },
        None => match parse_signed(part) {
            Some(x) => seq![x as i32],
            None => Seq::empty(),
        },
    }
}

/// The numbers of all parts, in their order.
pub open spec fn parts_numbers(parts: Seq<Seq<char>>) -> Seq<i32>
    decreases parts.len(),
{
    if parts.len() == 0 {
        Seq::empty()
    } else {
        part_numbers(parts[0]) + parts_numbers(parts.skip(1))
    }
}

/// The numbers that a comma-separated list of numbers and ranges stands for.
pub open spec fn list_numbers(s: Seq<char>) -> Seq<i32> {
    parts_numbers(split_on(s, ','))
}

/// Those numbers that fit into a byte.
pub open spec fn byte_numbers(s: Seq<i32>) -> Seq<u8>
    decreases s.len(),
{
    if s.len() == 0 {
        Seq::empty()
    } else if 0 <= s.last() <= 255 {
        byte_numbers(s.drop_last()).push(s.last() as u8)
    } else {
        byte_numbers(s.drop_last())
    }
}

fn append_range(out: &mut Vec<i32>, a: i32, b: i32)
    ensures
        final(out)@ == old(out)@ + number_range(a as int, b as int),
{
    let ghost before = out@;
    let ghost want = number_range(a as int, b as int);
    let mut v: i64 = a as i64;
    while v <= b as i64
        invariant
            a <= v,
            v <= b + 1 || v == a,
            want == number_range(a as int, b as int),
            out@ == before + want.take(v - a),
        decreases b - v + 1,
    {
        out.push(v as i32);
        assert(want.take(v - a + 1) =~= want.take(v - a).push(want[v - a]));
        v = v + 1;
    }
    assert(want.take(v - a) =~= want);
}

fn append_part(out: &mut Vec<i32>, part: &Vec<char>)
    ensures
        final(out)@ == old(out)@ + part_numbers(part@),
{
    let i: usize = find_from(part, 0, '-');
    assert(part@.skip(0) =~= part@);
    if i < part.len() {
        let a = piece(part, 0, i);
        let b = piece(part, i + 1, part.len());
        assert(a@ =~= part@.take(i as int));
        assert(b@ =~= part@.skip(i + 1));
        match (read_signed(&a), read_signed(&b)) {
            (Some(x), Some(y)) => {
                append_range(out, x, y);
            },
            _ => {
                assert(out@ =~= old(out)@ + part_numbers(part@));
            },
        }
    } else {
        match read_signed(part) {
            Some(x) => {
                out.push(x);
                assert(out@ =~= old(out)@ + part_numbers(part@));
            },
            None => {
                assert(out@ =~= old(out)@ + part_numbers(part@));
            },
        }
    }
}

/// Reads a comma-separated list of numbers and ranges.
pub fn parse_ranges_i32(input: &str) -> (out: Vec<i32>)
    ensures
        out@ == list_numbers(input@),
{
    let s = chars_of(input);
    let mut out: Vec<i32> = Vec::new();
    let mut from: usize = 0;
    assert(s@.skip(0) =~= s@);
    assert(out@ + list_numbers(s@) =~= list_numbers(s@));
    loop
        invariant
            s@ == input@,
            from <= s@.len(),
            out@ + list_numbers(s@.skip(from as int)) == list_numbers(s@),
        decreases s@.len() - from,
    {
        let to: usize = find_from(&s, from, ',');
        let ghost rest = s@.skip(from as int);
        let part = piece(&s, from, to);
        let ghost before = out@;
        append_part(&mut out, &part);
        if to == s.len() {
            proof {
                assert(part@ =~= rest);
                assert(split_on(rest, ',') =~= seq![rest]);
                assert(seq![rest].skip(1) =~= Seq::empty());
                assert(parts_numbers(seq![rest].skip(1)) =~= Seq::empty());
                assert(parts_numbers(seq![rest]) =~= part_numbers(rest));
            }
            return out;
        }
        proof {
            assert(part@ =~= rest.take(to - from));
            let tail = split_on(s@.skip(to + 1), ',');
            assert(rest.skip(to - from + 1) =~= s@.skip(to + 1));
            assert(split_on(rest, ',') == seq![part@] + tail);
            assert((seq![part@] + tail).skip(1) =~= tail);
            assert((seq![part@] + tail)[0] == part@);
            assert(list_numbers(rest) == part_numbers(part@) + parts_numbers(tail));
            assert(out@ + parts_numbers(tail) =~= before + (part_numbers(part@) + parts_numbers(tail)));
        }
        from = to + 1;
    }
}

/// Reads a comma-separated list of numbers and ranges, leaving out the
/// numbers that do not fit into a byte.
pub fn parse_ranges_u8(input: &str) -> (out: Vec<u8>)
    ensures
        out@ == byte_numbers(list_numbers(input@)),
{
    let all = parse_ranges_i32(input);
    let mut out: Vec<u8> = Vec::new();
    let mut i: usize = 0;
    assert(byte_numbers(all@.take(0)) =~= Seq::empty());
    while i < all.len()
        invariant
            i <= all@.len(),
            out@ == byte_numbers(all@.take(i as int)),
        decreases all@.len() - i,
    {
        let v: i32 = all[i];
        assert(all@.take(i + 1).drop_last() =~= all@.take(i as int));
        if 0 <= v && v <= 255 {
            out.push(v as u8);
        }
        i = i + 1;
    }
    assert(all@.take(i as int) =~= all@);
    out
}

/// The number of channels of a color type, 0 if it is unknown.
pub open spec fn channels_of(color_type: u8) -> int {
    if color_type == 0 || color_type == 3 {
        1
    } else if color_type == 2 {
        3
    } else if color_type == 4 {
        2
    } else if color_type == 6 {
        4
    } else {
        0
    }
}

/// The number of channels of a color type, 0 if it is unknown.
pub fn color_type_channels(color_type: u8) -> (n: u8)
    ensures
        n == channels_of(color_type),
{
    match color_type {
        0 => 1,
        2 => 3,
        3 => 1,
        4 => 2,
        6 => 4,
        _ => 0,
    }
}

/// A short name for a color type.
pub open spec fn short_label(color_type: u8) -> Seq<char> {
    if color_type == 0 {
        "Y"@
    } else if color_type == 2 {
        "RGB"@
    } else if color_type == 3 {
        "Palette"@
    } else if color_type == 4 {
        "YA"@
    } else if color_type == 6 {
        "RGBA"@
    } else {
        "Unknown"@
    }
}

/// A short name for a color type.
pub fn color_type_short_name(color_type: u8) -> (s: &'static str)
    ensures
        s@ == short_label(color_type),
{
    match color_type {
        0 => "Y",
        2 => "RGB",
        3 => "Palette",
        4 => "YA",
        6 => "RGBA",
        _ => "Unknown",
    }
}

/// A number with zeros in front if it has less than `width` digits.
pub open spec fn padded(n: nat, width: int) -> Seq<char> {
    let zeros = if width > decimal(n).len() { (width - decimal(n).len()) as nat } else { 0 };
    Seq::new(zeros, |i: int| '0') + decimal(n)
}

/// A length of time as hours, minutes, seconds and milliseconds, without
/// the hours if there are none, and with days if there are some.
pub open spec fn duration_text(millis: nat) -> Seq<char> {
    let seconds = millis / 1000;
    let minutes = seconds / 60;
    let hours = minutes / 60;
    let days = hours / 24;
    let rest = padded(minutes % 60, 2) + ":"@ + padded(seconds % 60, 2) + "."@ + padded(millis % 1000, 3);
    if days > 0 {
        decimal(days) + ":"@ + padded(hours % 24, 2) + ":"@ + rest
    } else if hours % 24 > 0 {
        padded(hours % 24, 2) + ":"@ + rest
    } else {
        rest
    }
}

proof fn lemma_decimal_len(n: nat)
    ensures
        decimal(n).len() >= 1,
        n < 10 ==> decimal(n).len() == 1,
        10 <= n < 100 ==> decimal(n).len() == 2,
        100 <= n ==> decimal(n).len() >= 3,
{
    reveal_with_fuel(decimal, 4);
}

fn append_padded(s: &mut String, n: u128, width: u8)
    requires
        width == 2 || width == 3,
    ensures
        final(s)@ == old(s)@ + padded(n as nat, width as int),
{
    proof {
        lemma_decimal_len(n as nat);
        reveal_strlit("0");
    }
    if n < 10 {
        s.append("0");
    }
    if n < 100 && width == 3 {
        s.append("0");
    }
    append_decimal(s, n);
    assert(s@ =~= old(s)@ + padded(n as nat, width as int));
}

/// A length of time for the user.
pub fn format_duration(total_millis: u128) -> (s: String)
    ensures
        s@ == duration_text(total_millis as nat),
{
    let millis: u128 = total_millis % 1000;
    let total_secs: u128 = total_millis / 1000;
    let secs: u128 = total_secs % 60;
    let total_mins: u128 = total_secs / 60;
    let mins: u128 = total_mins % 60;
    let total_hours: u128 = total_mins / 60;
    let hours: u128 = total_hours % 24;
    let days: u128 = total_hours / 24;
    let mut s: String = String::new();
    if days > 0 {
        append_decimal(&mut s, days);
        s.append(":");
    }
    if days > 0 || hours > 0 {
        append_padded(&mut s, hours, 2);
        s.append(":");
    }
    append_padded(&mut s, mins, 2);
    s.append(":");
    append_padded(&mut s, secs, 2);
    s.append(".");
    append_padded(&mut s, millis, 3);
    assert(s@ =~= duration_text(total_millis as nat));
    s
}

/// The widths of the columns of the progress display.
pub open spec fn column_widths(term_width: int) -> (int, int, int, int) {
    let w = if term_width > 60 { term_width } else { 60 };
    (w / 2, 20, if w - w / 2 > 37 { w - w / 2 - 37 } else { 10 }, 10)
}

/// The widths of the columns of the progress display on a terminal with
/// `term_width` columns: half of it for the file name, 20 for the trials,
/// what is left for the bar but at least 10, and 10 for the percentage. A
/// terminal counts as at least 60 columns wide.
pub fn calculate_column_widths(term_width: usize) -> (r: (usize, usize, usize, usize))
    requires
        term_width <= 0x20_0000_0000_0000,
    ensures
        (r.0 as int, r.1 as int, r.2 as int, r.3 as int) == column_widths(term_width as int),
        ({
            let w: int = if term_width > 60 { term_width as int } else { 60 };
            let used = w / 2 + 37;
            &&& r.0 == w / 2
            &&& r.1 == 20
            &&& r.2 == (if w > used { w - used } else { 10 })
            &&& r.3 == 10
        }),
{
    let w: usize = if term_width > 60 { term_width } else { 60 };
    let fn_w: usize = w / 2;
    let bar_w: usize = if w - fn_w > 37 { w - fn_w - 37 } else { 10 };
    (fn_w, 20, bar_w, 10)
}

/// A display is to be brought up to date.
pub open spec fn is_due(force: bool, is_complete: bool, millis_ago: Option<u128>) -> bool {
    force || is_complete || (millis_ago matches Some(n) ==> n >= 100)
}

/// Whether a display is to be brought up to date, when the last time was so
/// many milliseconds ago: at most ten times a second, unless it is forced or
/// the work is complete.
pub fn is_update_due(force: bool, is_complete: bool, millis_ago: Option<u128>) -> (r: bool)
    ensures
        r == is_due(force, is_complete, millis_ago),
        r == (force || is_complete || (millis_ago matches Some(n) ==> n >= 100)),
{
    force || is_complete || match millis_ago {
        Some(n) => n >= 100,
        None => true,
    }
}

/// A text with its middle left out if it is longer than `width`: what is
/// left of its end is as long as what is left of its front, or one character
/// longer. Where `width` has no room for both, the text stays.
pub open spec fn shortened(text: Seq<char>, width: int) -> Seq<char> {
    let front = (width - 1) / 2;
    let back = width - 1 - front;
    if text.len() <= width || width < 3 {
        text
    } else {
        text.take(front) + "…"@ + text.skip(text.len() - back)
    }
}

/// A text with its middle left out if it is longer than `width`.
pub fn truncate_middle(text: &str, width: usize) -> (s: String)
    ensures
        s@ == shortened(text@, width as int),
{
    let len: usize = text.unicode_len();
    if len <= width || width < 3 {
        return text.to_string();
    }
    let front: usize = (width - 1) / 2;
    let back: usize = width - 1 - front;
    let mut s: String = text.substring_char(0, front).to_string();
    s.append("…");
    s.append(text.substring_char(len - back, len));
    assert(s@ =~= shortened(text@, width as int)) by {
        assert(text@.subrange(0, front as int) =~= text@.take(front as int));
        assert(text@.subrange(len - back, len as int) =~= text@.skip(len - back));
    }
    s
}

/// A text that is shortened has exactly the width that there is for it.
pub proof fn law_shortened_texts_fit(text: Seq<char>, width: int)
    requires
        width >= 3,
    ensures
        shortened(text, width).len() == (if text.len() <= width { text.len() as int } else { width }),
{
    reveal_strlit("…");
}

}
