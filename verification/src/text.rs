//! Characters, numbers in decimal notation, and pieces of strings.
use vstd::prelude::*;
use vstd::string::{StrSliceExecFns, StringExecFns};

verus! {

/// The digit with value `d`.
pub open spec fn digit_char(d: int) -> char {
    (d + '0' as int) as char
}

/// A natural number in decimal notation, without leading zeros.
pub open spec fn decimal(n: nat) -> Seq<char>
    decreases n,
{
    if n < 10 {
        seq![digit_char(n as int)]
    } else {
        decimal(n / 10).push(digit_char((n % 10) as int))
    }
}

/// An integer in decimal notation, with a leading `-` if it is negative.
pub open spec fn signed_decimal(n: int) -> Seq<char> {
    if n < 0 {
        seq!['-'] + decimal((-n) as nat)
    } else {
        decimal(n as nat)
    }
}

fn digit_str(d: u8) -> (s: &'static str)
    requires
        d < 10,
    ensures
        s@ == seq![digit_char(d as int)],
{
    proof {
        reveal_strlit("0");
        reveal_strlit("1");
        reveal_strlit("2");
        reveal_strlit("3");
        reveal_strlit("4");
        reveal_strlit("5");
        reveal_strlit("6");
        reveal_strlit("7");
        reveal_strlit("8");
        reveal_strlit("9");
    }
    let s: &'static str = match d {
        0 => "0",
        1 => "1",
        2 => "2",
        3 => "3",
        4 => "4",
        5 => "5",
        6 => "6",
        7 => "7",
        8 => "8",
        _ => "9",
    };
    assert(s@ =~= seq![digit_char(d as int)]);
    s
}

/// Appends `n` in decimal notation.
pub fn append_decimal(s: &mut String, n: u128)
    ensures
        final(s)@ == old(s)@ + decimal(n as nat),
    decreases n,
{
    if n >= 10 {
        append_decimal(s, n / 10);
    }
    s.append(digit_str((n % 10) as u8));
    assert(s@ =~= old(s)@ + decimal(n as nat));
}

/// Appends `n` in decimal notation, with a leading `-` if it is negative.
pub fn append_signed(s: &mut String, n: i32)
    ensures
        final(s)@ == old(s)@ + signed_decimal(n as int),
{
    if n < 0 {
        proof {
            reveal_strlit("-");
            assert("-"@ =~= seq!['-']);
        }
        s.append("-");
        append_decimal(s, (-(n as i64)) as u128);
        assert(s@ =~= old(s)@ + signed_decimal(n as int));
    } else {
        append_decimal(s, n as u128);
    }
}

/// The characters of a string.
pub fn chars_of(s: &str) -> (out: Vec<char>)
    ensures
        out@ == s@,
{
    let mut out: Vec<char> = Vec::new();
    for c in it: s.chars()
        invariant
            out@ == s@.take(it.index() as int),
            it.seq() == s@,
    {
        out.push(c);
    }
    out
}

pub open spec fn is_digit(c: char) -> bool {
    '0' <= c && c <= '9'
}

pub open spec fn all_digits(s: Seq<char>) -> bool {
    forall|i: int| 0 <= i < s.len() ==> is_digit(#[trigger] s[i])
}

/// The number that a row of digits stands for.
pub open spec fn digits_value(s: Seq<char>) -> int
    decreases s.len(),
{
    if s.len() == 0 {
        0
    } else {
        digits_value(s.drop_last()) * 10 + (s.last() as int - '0' as int)
    }
}

/// The number that `s` stands for if `s` is one or more digits and the
/// number is at most `max`.
pub open spec fn parse_digits(s: Seq<char>, max: int) -> Option<int> {
    if s.len() > 0 && all_digits(s) && digits_value(s) <= max {
        Some(digits_value(s))
    } else {
        None
    }
}

/// Reads an unsigned number: digits, possibly after a `+`.
pub open spec fn parse_unsigned(s: Seq<char>, max: int) -> Option<int> {
    if s.len() > 0 && s[0] == '+' {
        parse_digits(s.skip(1), max)
    } else {
        parse_digits(s, max)
    }
}

/// Reads a 32-bit signed number: digits, possibly after a `+` or a `-`.
pub open spec fn parse_signed(s: Seq<char>) -> Option<int> {
    if s.len() > 0 && s[0] == '-' {
        match parse_digits(s.skip(1), -(i32::MIN as int)) {
            Some(n) => Some(-n),
            None => None,
        }
    } else {
        parse_unsigned(s, i32::MAX as int)
    }
}

proof fn lemma_digits_grow(s: Seq<char>, n: int)
    requires
        all_digits(s),
        0 <= n <= s.len(),
    ensures
        0 <= digits_value(s.take(n)) <= digits_value(s),
    decreases s.len(),
{
    if n == s.len() {
        assert(s.take(n) =~= s);
        if n > 0 {
            assert(is_digit(s[n - 1]));
            let t = s.drop_last();
            assert(all_digits(t)) by {
                assert forall|i: int| 0 <= i < t.len() implies is_digit(#[trigger] t[i]) by {
                    assert(is_digit(s[i]));
                }
            }
            lemma_digits_grow(t, t.len() as int);
            assert(t.take(t.len() as int) =~= t);
        }
    } else {
        let t = s.drop_last();
        assert(all_digits(t)) by {
            assert forall|i: int| 0 <= i < t.len() implies is_digit(#[trigger] t[i]) by {
                assert(is_digit(s[i]));
            }
        }
        lemma_digits_grow(t, n);
        assert(t.take(n) =~= s.take(n));
        assert(is_digit(s[s.len() - 1]));
    }
}

/// A number that was read is not negative and not above the maximum.
pub proof fn lemma_parse_unsigned(s: Seq<char>, max: int)
    ensures
        parse_unsigned(s, max) matches Some(n) ==> 0 <= n <= max,
{
    let t = if s.len() > 0 && s[0] == '+' { s.skip(1) } else { s };
    if all_digits(t) {
        lemma_digits_grow(t, t.len() as int);
        assert(t.take(t.len() as int) =~= t);
    }
}

fn read_digits(s: &Vec<char>, from: usize, max: u64) -> (r: Option<u64>)
    requires
        from <= s@.len(),
    ensures
        match r {
            Some(n) => parse_digits(s@.skip(from as int), max as int) == Some(n as int),
            None => parse_digits(s@.skip(from as int), max as int) is None,
        },
{
    let ghost t = s@.skip(from as int);
    if from == s.len() {
        return None;
    }
    let mut acc: u128 = 0;
    let mut i: usize = from;
    while i < s.len()
        invariant
            from <= i <= s@.len(),
            t == s@.skip(from as int),
            forall|k: int| 0 <= k < i - from ==> is_digit(#[trigger] t[k]),
            acc == digits_value(t.take(i - from)),
            acc <= max,
        decreases s@.len() - i,
    {
        let c: char = s[i];
        assert(t[i - from] == c);
        if !(c >= '0' && c <= '9') {
            assert(!is_digit(t[i - from]));
            return None;
        }
        assert(t.take(i - from + 1).drop_last() =~= t.take(i - from));
        acc = acc * 10 + (c as u32 - '0' as u32) as u128;
        if acc > max as u128 {
            proof {
                if all_digits(t) {
                    lemma_digits_grow(t, i - from + 1);
                }
            }
            return None;
        }
        i = i + 1;
    }
    assert(t.take(i - from) =~= t);
    Some(acc as u64)
}

/// Reads an unsigned number of at most `max`.
pub fn read_unsigned(s: &Vec<char>, max: u64) -> (r: Option<u64>)
    ensures
        match r {
            Some(n) => parse_unsigned(s@, max as int) == Some(n as int),
            None => parse_unsigned(s@, max as int) is None,
        },
{
    if s.len() > 0 && s[0] == '+' {
        read_digits(s, 1, max)
    } else {
        assert(s@.skip(0) =~= s@);
        read_digits(s, 0, max)
    }
}

/// Reads a 32-bit signed number.
pub fn read_signed(s: &Vec<char>) -> (r: Option<i32>)
    ensures
        match r {
            Some(n) => parse_signed(s@) == Some(n as int),
            None => parse_signed(s@) is None,
        },
{
    if s.len() > 0 && s[0] == '-' {
        match read_digits(s, 1, 2147483648) {
            Some(n) => {
                proof {
                    let t = s@.skip(1);
                    lemma_digits_grow(t, t.len() as int);
                    assert(t.take(t.len() as int) =~= t);
                }
                Some((-(n as i64)) as i32)
            },
            None => None,
        }
    } else {
        match read_unsigned(s, 2147483647) {
            Some(n) => Some(n as i32),
            None => None,
        }
    }
}

/// The place of the first `c` in `s`, or the length of `s`.
pub open spec fn find(s: Seq<char>, c: char) -> int
    decreases s.len(),
{
    if s.len() == 0 || s[0] == c {
        0
    } else {
        1 + find(s.skip(1), c)
    }
}

/// `find` is the first place, and there is none before it.
pub proof fn lemma_find(s: Seq<char>, c: char)
    ensures
        0 <= find(s, c) <= s.len(),
        find(s, c) < s.len() ==> s[find(s, c)] == c,
        forall|i: int| 0 <= i < find(s, c) ==> s[i] != c,
    decreases s.len(),
{
    if s.len() > 0 && s[0] != c {
        let t = s.skip(1);
        lemma_find(t, c);
        assert forall|i: int| 0 <= i < find(s, c) implies s[i] != c by {
            if i > 0 {
                assert(t[i - 1] != c);
            }
        }
    }
}

/// The pieces of `s` between occurrences of `sep`.
pub open spec fn split_on(s: Seq<char>, sep: char) -> Seq<Seq<char>>
    decreases s.len(),
    via split_on_decreases
{
    let i = find(s, sep);
    if i < s.len() {
        seq![s.take(i)] + split_on(s.skip(i + 1), sep)
    } else {
        seq![s]
    }
}

#[via_fn]
proof fn split_on_decreases(s: Seq<char>, sep: char) {
    lemma_find(s, sep);
}

/// The parts of `s` before and after the first `sep`.
pub open spec fn split_once(s: Seq<char>, sep: char) -> Option<(Seq<char>, Seq<char>)> {
    let i = find(s, sep);
    if i < s.len() {
        Some((s.take(i), s.skip(i + 1)))
    } else {
        None
    }
}

/// The place of the first `c` at or after `from`, or the length of `s`.
pub fn find_from(s: &Vec<char>, from: usize, c: char) -> (i: usize)
    requires
        from <= s@.len(),
    ensures
        i - from == find(s@.skip(from as int), c),
        from <= i <= s@.len(),
{
    let ghost t = s@.skip(from as int);
    let mut i: usize = from;
    while i < s.len() && s[i] != c
        invariant
            from <= i <= s@.len(),
            t == s@.skip(from as int),
            forall|k: int| 0 <= k < i - from ==> t[k] != c,
        decreases s@.len() - i,
    {
        i = i + 1;
    }
    proof {
        lemma_find(t, c);
        let f = find(t, c);
        if f < i - from {
            assert(t[f] != c);
        }
        if i - from < f {
            assert(t[i - from] != c);
        }
    }
    i
}

/// Copies the characters `from..to`.
pub fn piece(s: &Vec<char>, from: usize, to: usize) -> (out: Vec<char>)
    requires
        from <= to <= s@.len(),
    ensures
        out@ == s@.subrange(from as int, to as int),
{
    let mut out: Vec<char> = Vec::new();
    let mut i: usize = from;
    while i < to
        invariant
            from <= i <= to <= s@.len(),
            out@ == s@.subrange(from as int, i as int),
        decreases to - i,
    {
        out.push(s[i]);
        assert(s@.subrange(from as int, i + 1) =~= s@.subrange(from as int, i as int).push(s@[i as int]));
        i = i + 1;
    }
    out
}

/// The texts of a list of strings.
pub open spec fn texts(v: Seq<String>) -> Seq<Seq<char>> {
    v.map_values(|s: String| s@)
}

/// The text of a string, if there is one.
pub open spec fn text_of(s: Option<String>) -> Option<Seq<char>> {
    match s {
        Some(t) => Some(t@),
        None => None,
    }
}

/// `s` begins with `prefix`.
pub open spec fn has_prefix(s: Seq<char>, prefix: Seq<char>) -> bool {
    prefix.len() <= s.len() && s.take(prefix.len() as int) == prefix
}

/// The texts with `sep` between each two of them.
pub open spec fn joined(v: Seq<Seq<char>>, sep: Seq<char>) -> Seq<char>
    decreases v.len(),
{
    if v.len() == 0 {
        Seq::empty()
    } else if v.len() == 1 {
        v[0]
    } else {
        joined(v.drop_last(), sep) + sep + v.last()
    }
}

/// Joins strings with `sep` between each two of them.
pub fn join_strings(v: &Vec<String>, sep: &str) -> (out: String)
    ensures
        out@ == joined(texts(v@), sep@),
{
    let ghost t = texts(v@);
    let mut out: String = String::new();
    let mut i: usize = 0;
    while i < v.len()
        invariant
            i <= v@.len(),
            t == texts(v@),
            out@ == joined(t.take(i as int), sep@),
        decreases v@.len() - i,
    {
        assert(t[i as int] == v@[i as int]@);
        assert(t.take(i + 1).drop_last() =~= t.take(i as int));
        if i > 0 {
            out.append(sep);
        }
        out.append(v[i].as_str());
        assert(out@ =~= joined(t.take(i + 1), sep@));
        i = i + 1;
    }
    assert(t.take(i as int) =~= t);
    out
}

/// Whether the characters are exactly those of `text`.
pub fn is_text(s: &Vec<char>, text: &str) -> (r: bool)
    ensures
        r == (s@ == text@),
{
    let t = chars_of(text);
    if s.len() != t.len() {
        return false;
    }
    let mut i: usize = 0;
    while i < s.len()
        invariant
            i <= s@.len(),
            s@.len() == t@.len(),
            t@ == text@,
            forall|k: int| 0 <= k < i ==> s@[k] == t@[k],
        decreases s@.len() - i,
    {
        if s[i] != t[i] {
            return false;
        }
        i = i + 1;
    }
    assert(s@ =~= text@);
    true
}

/// Whether the characters begin with those of `prefix`.
pub fn begins_with(s: &Vec<char>, prefix: &str) -> (r: bool)
    ensures
        r == has_prefix(s@, prefix@),
{
    let t = chars_of(prefix);
    if s.len() < t.len() {
        return false;
    }
    let mut i: usize = 0;
    while i < t.len()
        invariant
            i <= t@.len() <= s@.len(),
            t@ == prefix@,
            forall|k: int| 0 <= k < i ==> s@[k] == t@[k],
        decreases t@.len() - i,
    {
        if s[i] != t[i] {
            assert(s@.take(t@.len() as int)[i as int] != t@[i as int]);
            return false;
        }
        i = i + 1;
    }
    assert(s@.take(t@.len() as int) =~= prefix@);
    true
}

/// Whether all characters from `from` on are digits.
pub fn digits_from(s: &Vec<char>, from: usize) -> (r: bool)
    requires
        from <= s@.len(),
    ensures
        r == all_digits(s@.skip(from as int)),
{
    let ghost t = s@.skip(from as int);
    let mut i: usize = from;
    while i < s.len()
        invariant
            from <= i <= s@.len(),
            t == s@.skip(from as int),
            forall|k: int| 0 <= k < i - from ==> is_digit(#[trigger] t[k]),
        decreases s@.len() - i,
    {
        let c: char = s[i];
        assert(t[i - from] == c);
        if !(c >= '0' && c <= '9') {
            assert(!is_digit(t[i - from]));
            return false;
        }
        i = i + 1;
    }
    true
}

}
