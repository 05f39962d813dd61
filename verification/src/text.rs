//! Text as sequences of characters: splitting it, and reading and writing numbers.
//!
//! The tables under `/proc` are plain text. Everything the crate knows about
//! rows, columns, hexadecimal and decimal numbers is defined here once, as
//! spec functions on `Seq<char>`, next to the executable functions that
//! compute them.

use vstd::prelude::*;
use vstd::slice::slice_subrange;

verus! {

/// The Unicode property `White_Space`.
pub open spec fn is_white_space(c: char) -> bool {
    ||| '\u{9}' <= c <= '\u{d}'
    ||| c == ' '
    ||| c == '\u{85}'
    ||| c == '\u{a0}'
    ||| c == '\u{1680}'
    ||| '\u{2000}' <= c <= '\u{200a}'
    ||| c == '\u{2028}'
    ||| c == '\u{2029}'
    ||| c == '\u{202f}'
    ||| c == '\u{205f}'
    ||| c == '\u{3000}'
}

/// Whether `c` is white space.
pub fn is_whitespace(c: char) -> (yes: bool)
    ensures
        yes == is_white_space(c),
{
    ('\u{9}' <= c && c <= '\u{d}') || c == ' ' || c == '\u{85}' || c == '\u{a0}' || c == '\u{1680}'
        || ('\u{2000}' <= c && c <= '\u{200a}') || c == '\u{2028}' || c == '\u{2029}' || c
        == '\u{202f}' || c == '\u{205f}' || c == '\u{3000}'
}

/// The pieces of `s` between the elements that `sep` picks. There is always
/// one piece more than there are separators; pieces may be empty.
pub open spec fn split_where<T>(s: Seq<T>, sep: spec_fn(T) -> bool) -> Seq<Seq<T>>
    decreases s.len(),
{
    if s.len() == 0 {
        seq![Seq::empty()]
    } else {
        let head = split_where(s.drop_last(), sep);
        if sep(s.last()) {
            head.push(Seq::empty())
        } else {
            head.drop_last().push(head.last().push(s.last()))
        }
    }
}

/// The pieces that hold something, in order.
pub open spec fn non_empty<T>(pieces: Seq<Seq<T>>) -> Seq<Seq<T>> {
    pieces.filter(|piece: Seq<T>| piece.len() > 0)
}

/// `parts` in order, with `sep` between neighbours.
pub open spec fn join(parts: Seq<Seq<char>>, sep: Seq<char>) -> Seq<char>
    decreases parts.len(),
{
    if parts.len() == 0 {
        Seq::empty()
    } else if parts.len() == 1 {
        parts[0]
    } else {
        join(parts.drop_last(), sep) + sep + parts.last()
    }
}

/// The lines of `text`, without their line feeds.
pub open spec fn lines(text: Seq<char>) -> Seq<Seq<char>> {
    split_where(text, |c: char| c == '\n')
}

/// The columns of `line`: its longest runs without white space.
pub open spec fn fields(line: Seq<char>) -> Seq<Seq<char>> {
    non_empty(split_where(line, |c: char| is_white_space(c)))
}

/// `s` from its first character on that is no white space.
pub open spec fn trim_start(s: Seq<char>) -> Seq<char>
    decreases s.len(),
{
    if s.len() > 0 && is_white_space(s[0]) {
        trim_start(s.skip(1))
    } else {
        s
    }
}

/// `s` up to its last character that is no white space.
pub open spec fn trim_end(s: Seq<char>) -> Seq<char>
    decreases s.len(),
{
    if s.len() > 0 && is_white_space(s.last()) {
        trim_end(s.drop_last())
    } else {
        s
    }
}

/// `s` without the white space around it.
pub open spec fn trim(s: Seq<char>) -> Seq<char> {
    trim_end(trim_start(s))
}

/// What stands before and after the first `sep` in `s`.
pub open spec fn split_once(s: Seq<char>, sep: char) -> Option<(Seq<char>, Seq<char>)> {
    match s.index_of_first(sep) {
        Some(k) => Some((s.take(k), s.skip(k + 1))),
        None => None,
    }
}

/// The value of `c` as a digit to base `radix` (at most 36); letters of either
/// case stand for ten and up.
pub open spec fn digit_value(c: char, radix: int) -> Option<int> {
    let d = if '0' <= c <= '9' {
        c as int - '0' as int
    } else if 'a' <= c <= 'z' {
        c as int - 'a' as int + 10
    } else if 'A' <= c <= 'Z' {
        c as int - 'A' as int + 10
    } else {
        radix
    };
    if d < radix {
        Some(d)
    } else {
        None
    }
}

/// The value of a run of digits to base `radix`, most significant first.
pub open spec fn digits_value(s: Seq<char>, radix: int) -> Option<int>
    decreases s.len(),
{
    if s.len() == 0 {
        Some(0)
    } else {
        match (digits_value(s.drop_last(), radix), digit_value(s.last(), radix)) {
            (Some(high), Some(low)) => Some(high * radix + low),
            _ => None,
        }
    }
}

/// The number from 0 to `max` that `s` writes to base `radix`: one digit or
/// more, after at most one plus sign.
pub open spec fn parse_number(s: Seq<char>, radix: int, max: int) -> Option<int> {
    let digits = if s.len() > 0 && s[0] == '+' {
        s.skip(1)
    } else {
        s
    };
    match digits_value(digits, radix) {
        Some(value) => if digits.len() > 0 && value <= max {
            Some(value)
        } else {
            None
        },
        None => None,
    }
}

/// The digit for `d`, which is below 16; lower case from ten on.
pub open spec fn digit_char(d: int) -> char {
    if d == 0 {
        '0'
    } else if d == 1 {
        '1'
    } else if d == 2 {
        '2'
    } else if d == 3 {
        '3'
    } else if d == 4 {
        '4'
    } else if d == 5 {
        '5'
    } else if d == 6 {
        '6'
    } else if d == 7 {
        '7'
    } else if d == 8 {
        '8'
    } else if d == 9 {
        '9'
    } else if d == 10 {
        'a'
    } else if d == 11 {
        'b'
    } else if d == 12 {
        'c'
    } else if d == 13 {
        'd'
    } else if d == 14 {
        'e'
    } else {
        'f'
    }
}

/// `n` in decimal, without leading zeros.
pub open spec fn decimal(n: nat) -> Seq<char>
    decreases n,
{
    if n < 10 {
        seq![digit_char(n as int)]
    } else {
        decimal(n / 10).push(digit_char((n % 10) as int))
    }
}

/// `b` as two hexadecimal digits.
pub open spec fn hex_byte(b: u8) -> Seq<char> {
    seq![digit_char(b as int / 16), digit_char(b as int % 16)]
}

/// The characters that each of a list of vectors holds.
pub open spec fn char_rows(rows: Seq<Vec<char>>) -> Seq<Seq<char>> {
    rows.map_values(|row: Vec<char>| row@)
}

/// The characters that each of a list of strings holds.
pub open spec fn string_rows(rows: Seq<String>) -> Seq<Seq<char>> {
    rows.map_values(|row: String| row@)
}

/// There is always a piece.
pub proof fn lemma_split_where_len<T>(s: Seq<T>, sep: spec_fn(T) -> bool)
    ensures
        split_where(s, sep).len() >= 1,
    decreases s.len(),
{
    if s.len() > 0 {
        lemma_split_where_len(s.drop_last(), sep);
    }
}

/// The characters of `s` as a vector.
pub fn chars_of(s: &str) -> (out: Vec<char>)
    ensures
        out@ == s@,
{
    let mut out: Vec<char> = Vec::new();
    for c in it: s.chars()
        invariant
            out@ == it.seq().take(it.index()),
            it.seq() == s@,
    {
        out.push(c);
    }
    out
}

/// The lines of `text`.
pub fn split_lines(text: &[char]) -> (out: Vec<Vec<char>>)
    ensures
        char_rows(out@) == lines(text@),
{
    let ghost sep = |c: char| c == '\n';
    let mut done: Vec<Vec<char>> = Vec::new();
    let mut current: Vec<char> = Vec::new();
    for i in 0..text.len()
        invariant
            sep == (|c: char| c == '\n'),
            split_where(text@.take(i as int), sep) == char_rows(done@).push(current@),
    {
        proof {
            assert(text@.take(i + 1).drop_last() == text@.take(i as int));
        }
        let c = text[i];
        if c == '\n' {
            done.push(current);
            current = Vec::new();
        } else {
            current.push(c);
        }
        assert(split_where(text@.take(i + 1), sep) == char_rows(done@).push(current@));
    }
    assert(text@.take(text@.len() as int) == text@);
    done.push(current);
    done
}

/// The pieces of `s` that hold something, between the elements that `is_sep`
/// picks, which are those that `sep` does.
pub(crate) fn split_filled<T: Copy, F: Fn(T) -> bool>(
    s: &[T],
    is_sep: F,
    Ghost(sep): Ghost<spec_fn(T) -> bool>,
) -> (out: Vec<Vec<T>>)
    requires
        forall|c: T| is_sep.requires((c,)),
        forall|c: T, yes: bool| is_sep.ensures((c,), yes) ==> yes == sep(c),
    ensures
        out@.map_values(|piece: Vec<T>| piece@) == non_empty(split_where(s@, sep)),
{
    let ghost holds = |piece: Seq<T>| piece.len() > 0;
    let ghost view = |piece: Vec<T>| piece@;
    let mut done: Vec<Vec<T>> = Vec::new();
    let mut current: Vec<T> = Vec::new();
    for i in 0..s.len()
        invariant
            forall|c: T| is_sep.requires((c,)),
            forall|c: T, yes: bool| is_sep.ensures((c,), yes) ==> yes == sep(c),
            holds == (|piece: Seq<T>| piece.len() > 0),
            view == (|piece: Vec<T>| piece@),
            split_where(s@.take(i as int), sep).len() >= 1,
            split_where(s@.take(i as int), sep).last() == current@,
            split_where(s@.take(i as int), sep).drop_last().filter(holds) == done@.map_values(view),
    {
        let ghost pieces = split_where(s@.take(i as int), sep);
        proof {
            assert(s@.take(i + 1).drop_last() == s@.take(i as int));
            assert(pieces.drop_last().push(current@) == pieces);
            pieces.drop_last().lemma_filter_push(current@, holds);
        }
        let c = s[i];
        if is_sep(c) {
            assert(split_where(s@.take(i + 1), sep).drop_last() == pieces);
            if current.len() > 0 {
                let ghost before = done@.map_values(view);
                done.push(current);
                assert(done@.map_values(view) == before.push(current@));
            }
            current = Vec::new();
        } else {
            current.push(c);
            assert(split_where(s@.take(i + 1), sep).drop_last() == pieces.drop_last());
        }
    }
    proof {
        let pieces = split_where(s@, sep);
        assert(s@.take(s@.len() as int) == s@);
        assert(pieces.drop_last().push(current@) == pieces);
        pieces.drop_last().lemma_filter_push(current@, holds);
    }
    if current.len() > 0 {
        let ghost before = done@.map_values(view);
        done.push(current);
        assert(done@.map_values(view) == before.push(current@));
    }
    done
}

/// The columns of `line`.
pub fn split_fields(line: &[char]) -> (out: Vec<Vec<char>>)
    ensures
        char_rows(out@) == fields(line@),
{
    let is_sep = |c: char| -> (yes: bool)
        ensures
            yes == is_white_space(c),
    {
        is_whitespace(c)
    };
    split_filled(line, is_sep, Ghost(|c: char| is_white_space(c)))
}

/// `s` without the white space around it.
#[verifier::rlimit(40)]
pub fn trimmed(s: &str) -> (out: String)
    ensures
        out@ == trim(s@),
{
    let chars = chars_of(s);
    let mut from: usize = 0;
    assert(s@.skip(0) == s@);
    while from < chars.len() && is_whitespace(chars[from])
        invariant
            chars@ == s@,
            from <= chars@.len(),
            trim_start(s@) == trim_start(s@.skip(from as int)),
        decreases chars@.len() - from,
    {
        assert(s@.skip(from as int).skip(1) == s@.skip(from + 1));
        from = from + 1;
    }
    let ghost rest = s@.skip(from as int);
    let mut to: usize = chars.len();
    assert(rest.take(to - from) == rest);
    while from < to && is_whitespace(chars[to - 1])
        invariant
            chars@ == s@,
            from <= to <= chars@.len(),
            rest == s@.skip(from as int),
            trim_end(rest) == trim_end(rest.take(to - from)),
        decreases to,
    {
        assert(rest.take(to - from).drop_last() == rest.take(to - 1 - from));
        to = to - 1;
    }
    assert(rest.take(to - from) == s@.subrange(from as int, to as int));
    s.substring_char(from, to).to_owned()
}

/// The parts of `s` before and after the first `sep`.
pub fn cut_once(s: &[char], sep: char) -> (out: Option<(&[char], &[char])>)
    ensures
        match out {
            Some((before, after)) => split_once(s@, sep) == Some((before@, after@)),
            None => split_once(s@, sep) is None,
        },
{
    for i in 0..s.len()
        invariant
            forall|j: int| 0 <= j < i ==> s@[j] != sep,
    {
        if s[i] == sep {
            proof {
                s@.index_of_first_ensures(sep);
            }
            return Some((slice_subrange(s, 0, i), slice_subrange(s, i + 1, s.len())));
        }
    }
    proof {
        s@.index_of_first_ensures(sep);
    }
    None
}

/// The value of `c` as a digit to base `radix`.
fn digit_of(c: char, radix: u64) -> (out: Option<u64>)
    requires
        radix <= 36,
    ensures
        match out {
            Some(d) => digit_value(c, radix as int) == Some(d as int),
            None => digit_value(c, radix as int) is None,
        },
{
    let d: u64 = if '0' <= c && c <= '9' {
        (c as u32 - '0' as u32) as u64
    } else if 'a' <= c && c <= 'z' {
        (c as u32 - 'a' as u32) as u64 + 10
    } else if 'A' <= c && c <= 'Z' {
        (c as u32 - 'A' as u32) as u64 + 10
    } else {
        radix
    };
    if d < radix {
        Some(d)
    } else {
        None
    }
}

/// Reads the number from 0 to `max` that `s` writes to base `radix`.
pub fn read_number(s: &[char], radix: u64, max: u64) -> (out: Option<u64>)
    requires
        2 <= radix <= 36,
    ensures
        match out {
            Some(n) => parse_number(s@, radix as int, max as int) == Some(n as int),
            None => parse_number(s@, radix as int, max as int) is None,
        },
{
    let from: usize = if s.len() > 0 && s[0] == '+' {
        1
    } else {
        0
    };
    if s.len() == from {
        return None;
    }
    let ghost digits = s@.skip(from as int);
    assert(from == 0 ==> digits == s@);
    let mut value: u128 = 0;
    let mut too_large: bool = false;
    for i in from..s.len()
        invariant
            2 <= radix <= 36,
            from <= i,
            digits == s@.skip(from as int),
            digits == (if s@.len() > 0 && s@[0] == '+' {
                s@.skip(1)
            } else {
                s@
            }),
            s@.len() > from,
            digits_value(digits.take(i - from), radix as int) is Some,
            too_large ==> digits_value(digits.take(i - from), radix as int)->0 > max,
            !too_large ==> digits_value(digits.take(i - from), radix as int)->0 == value,
            !too_large ==> value <= max,
    {
        let ghost high = digits_value(digits.take(i - from), radix as int)->0;
        proof {
            assert(digits.take(i + 1 - from).drop_last() == digits.take(i - from));
        }
        match digit_of(s[i], radix) {
            None => {
                proof {
                    lemma_bad_digit(digits, radix as int, i + 1 - from);
                }
                return None;
            },
            Some(d) => {
                if too_large {
                    assert(high * radix + d > max) by (nonlinear_arith)
                        requires
                            high > max,
                            radix >= 2,
                            d >= 0,
                            max >= 0,
                    ;
                } else {
                    assert(0 <= value * radix <= value * 36) by (nonlinear_arith)
                        requires
                            2 <= radix <= 36,
                            value >= 0,
                    ;
                    value = value * (radix as u128) + d as u128;
                    if value > max as u128 {
                        too_large = true;
                    }
                }
            },
        }
    }
    assert(digits.take(digits.len() as int) == digits);
    if too_large {
        None
    } else {
        Some(value as u64)
    }
}

/// A run that is no number does not become one by what follows it.
proof fn lemma_bad_digit(s: Seq<char>, radix: int, k: int)
    requires
        0 <= k <= s.len(),
        digits_value(s.take(k), radix) is None,
    ensures
        digits_value(s, radix) is None,
    decreases s.len(),
{
    if k == s.len() {
        assert(s.take(k) == s);
    } else {
        assert(s.drop_last().take(k) == s.take(k));
        lemma_bad_digit(s.drop_last(), radix, k);
    }
}

/// The digit for `d`.
fn digit_text(d: u64) -> (out: &'static str)
    requires
        d < 16,
    ensures
        out@ == seq![digit_char(d as int)],
{
    proof {
        reveal_strlit("0");
        reveal_strlit("1");
        reveal_strlit("2");
        reveal_strlit("3");
        reveal_strlit("4");
        reveal_strlit("5");
        reveal_strlit("6");
        reveal_strlit("7");
        reveal_strlit("8");
        reveal_strlit("9");
        reveal_strlit("a");
        reveal_strlit("b");
        reveal_strlit("c");
        reveal_strlit("d");
        reveal_strlit("e");
        reveal_strlit("f");
    }
    match d {
        0 => "0",
        1 => "1",
        2 => "2",
        3 => "3",
        4 => "4",
        5 => "5",
        6 => "6",
        7 => "7",
        8 => "8",
        9 => "9",
        10 => "a",
        11 => "b",
        12 => "c",
        13 => "d",
        14 => "e",
        _ => "f",
    }
}

/// Writes `n` in decimal at the end of `out`.
pub fn push_decimal(out: &mut String, n: u64)
    ensures
        final(out)@ == old(out)@ + decimal(n as nat),
    decreases n,
{
    if n >= 10 {
        push_decimal(out, n / 10);
    }
    out.append(digit_text(n % 10));
}

/// Writes `b` as two hexadecimal digits at the end of `out`.
pub fn push_hex_byte(out: &mut String, b: u8)
    ensures
        final(out)@ == old(out)@ + hex_byte(b),
{
    out.append(digit_text((b / 16) as u64));
    out.append(digit_text((b % 16) as u64));
}

/// `parts` in order, with `sep` between neighbours.
pub fn join_strings(parts: &[String], sep: &str) -> (out: String)
    ensures
        out@ == join(string_rows(parts@), sep@),
{
    let mut out = String::new();
    for i in 0..parts.len()
        invariant
            out@ == join(string_rows(parts@).take(i as int), sep@),
    {
        if i > 0 {
            out.append(sep);
        }
        out.append(parts[i].as_str());
        assert(string_rows(parts@).take(i + 1).drop_last() == string_rows(parts@).take(i as int));
    }
    assert(string_rows(parts@).take(parts@.len() as int) == string_rows(parts@));
    out
}

/// Trimming takes nothing but white space away, and all of it at both ends.
pub proof fn law_trim(s: Seq<char>)
    ensures
        exists|from: int, to: int|
            #![trigger s.subrange(from, to)]
            {
                &&& 0 <= from <= to <= s.len()
                &&& trim(s) == s.subrange(from, to)
                &&& forall|i: int|
                    0 <= i < from || to <= i < s.len() ==> is_white_space(#[trigger] s[i])
            },
        trim(s).len() > 0 ==> !is_white_space(trim(s)[0]) && !is_white_space(trim(s).last()),
{
    let from = lemma_trim_start(s);
    let to = lemma_trim_end(trim_start(s)) + from;
    let rest = trim_start(s);
    assert(rest.take(to - from) == s.subrange(from, to));
    assert forall|i: int| 0 <= i < from || to <= i < s.len() implies is_white_space(
        #[trigger] s[i],
    ) by {
        if to <= i {
            assert(rest[i - from] == s[i]);
        }
    }
    if trim(s).len() > 0 {
        assert(trim(s)[0] == rest[0]);
    }
}

/// Where what is trimmed at the start ends.
proof fn lemma_trim_start(s: Seq<char>) -> (from: int)
    ensures
        0 <= from <= s.len(),
        trim_start(s) == s.skip(from),
        forall|i: int| 0 <= i < from ==> is_white_space(#[trigger] s[i]),
        from < s.len() ==> !is_white_space(s[from]),
    decreases s.len(),
{
    if s.len() > 0 && is_white_space(s[0]) {
        let k = lemma_trim_start(s.skip(1));
        assert(s.skip(1).skip(k) == s.skip(k + 1));
        assert forall|i: int| 0 <= i < k + 1 implies is_white_space(#[trigger] s[i]) by {
            if i > 0 {
                assert(s.skip(1)[i - 1] == s[i]);
            }
        }
        k + 1
    } else {
        assert(s.skip(0) == s);
        0
    }
}

/// Where what is trimmed at the end begins.
proof fn lemma_trim_end(s: Seq<char>) -> (to: int)
    ensures
        0 <= to <= s.len(),
        trim_end(s) == s.take(to),
        forall|i: int| to <= i < s.len() ==> is_white_space(#[trigger] s[i]),
        to > 0 ==> !is_white_space(s[to - 1]),
    decreases s.len(),
{
    if s.len() > 0 && is_white_space(s.last()) {
        let k = lemma_trim_end(s.drop_last());
        assert(s.drop_last().take(k) == s.take(k));
        assert forall|i: int| k <= i < s.len() implies is_white_space(#[trigger] s[i]) by {
            if i < s.len() - 1 {
                assert(s.drop_last()[i] == s[i]);
            }
        }
        k
    } else {
        assert(s.take(s.len() as int) == s);
        s.len() as int
    }
}

/// Splitting after a separator opens an empty piece.
pub proof fn lemma_split_at_separator<T>(s: Seq<T>, c: T, sep: spec_fn(T) -> bool)
    requires
        sep(c),
    ensures
        split_where(s.push(c), sep) == split_where(s, sep).push(Seq::empty()),
{
    assert(s.push(c).drop_last() == s);
}

/// A run without separators grows the last piece.
pub proof fn lemma_split_run<T>(s: Seq<T>, run: Seq<T>, sep: spec_fn(T) -> bool)
    requires
        forall|i: int| 0 <= i < run.len() ==> !sep(run[i]),
    ensures
        split_where(s + run, sep) == split_where(s, sep).drop_last().push(
            split_where(s, sep).last() + run,
        ),
    decreases run.len(),
{
    let pieces = split_where(s, sep);
    lemma_split_where_len(s, sep);
    if run.len() == 0 {
        assert(s + run == s);
        assert(pieces.last() + run == pieces.last());
        assert(pieces.drop_last().push(pieces.last()) == pieces);
    } else {
        lemma_split_run(s, run.drop_last(), sep);
        assert((s + run).drop_last() == s + run.drop_last());
        let shorter = split_where(s + run.drop_last(), sep);
        assert(shorter.drop_last() == pieces.drop_last());
        assert((pieces.last() + run.drop_last()).push(run.last()) == pieces.last() + run);
    }
}

/// Parts that hold no separator, joined with one and split again, come back
/// as they were.
pub proof fn law_split_undoes_join(parts: Seq<Seq<char>>, c: char, sep: spec_fn(char) -> bool)
    requires
        parts.len() > 0,
        sep(c),
        forall|i: int, j: int|
            0 <= i < parts.len() && 0 <= j < parts[i].len() ==> !sep(#[trigger] parts[i][j]),
    ensures
        split_where(join(parts, seq![c]), sep) == parts,
    decreases parts.len(),
{
    if parts.len() == 1 {
        lemma_split_run(Seq::empty(), parts[0], sep);
        assert(Seq::<char>::empty() + parts[0] == parts[0]);
        assert(split_where(Seq::<char>::empty(), sep) == seq![Seq::<char>::empty()]);
        assert(parts == seq![parts[0]]);
        assert(split_where(parts[0], sep) == parts);
    } else {
        let init = parts.drop_last();
        let head = join(init, seq![c]);
        assert forall|i: int, j: int| 0 <= i < init.len() && 0 <= j < init[i].len() implies !sep(
            #[trigger] init[i][j],
        ) by {
            assert(init[i] == parts[i]);
            assert(!sep(parts[i][j]));
        }
        law_split_undoes_join(init, c, sep);
        assert(head + seq![c] == head.push(c));
        lemma_split_at_separator(head, c, sep);
        let last = parts.last();
        assert forall|j: int| 0 <= j < last.len() implies !sep(last[j]) by {
            assert(!sep(parts[parts.len() - 1][j]));
        }
        lemma_split_run(head.push(c), last, sep);
        assert(Seq::<char>::empty() + last == last);
        assert(init.push(Seq::empty()).drop_last() == init);
        assert(init.push(last) == parts);
    }
}

/// `columns` with a gap before, between and after them.
pub open spec fn spaced(columns: Seq<Seq<char>>, gaps: Seq<Seq<char>>) -> Seq<char>
    decreases columns.len(),
{
    if columns.len() == 0 {
        gaps[0]
    } else {
        spaced(columns.drop_last(), gaps.drop_last()) + columns.last() + gaps.last()
    }
}

/// Whether `gaps` keep `columns` apart: they are white space, and only the
/// first and the last may be empty.
pub open spec fn keep_apart(columns: Seq<Seq<char>>, gaps: Seq<Seq<char>>) -> bool {
    &&& gaps.len() == columns.len() + 1
    &&& forall|i: int| 0 < i < columns.len() ==> (#[trigger] gaps[i]).len() > 0
    &&& forall|i: int, j: int|
        0 <= i < gaps.len() && 0 <= j < gaps[i].len() ==> is_white_space(#[trigger] gaps[i][j])
}

/// White space at the end of a line adds no column, and closes the last one.
proof fn lemma_gap_adds_nothing(s: Seq<char>, gap: Seq<char>)
    requires
        forall|j: int| 0 <= j < gap.len() ==> is_white_space(#[trigger] gap[j]),
    ensures
        fields(s + gap) == fields(s),
        gap.len() > 0 ==> split_where(s + gap, |c: char| is_white_space(c)).last().len() == 0,
    decreases gap.len(),
{
    let sep = |c: char| is_white_space(c);
    let holds = |piece: Seq<char>| piece.len() > 0;
    if gap.len() == 0 {
        assert(s + gap == s);
    } else {
        let init = gap.drop_last();
        assert forall|j: int| 0 <= j < init.len() implies is_white_space(#[trigger] init[j]) by {
            assert(is_white_space(gap[j]));
        }
        lemma_gap_adds_nothing(s, init);
        assert(is_white_space(gap[gap.len() - 1]));
        assert((s + init).push(gap.last()) == s + gap);
        lemma_split_at_separator(s + init, gap.last(), sep);
        split_where(s + init, sep).lemma_filter_push(Seq::empty(), holds);
    }
}

/// Columns that hold something and no white space, printed with any white
/// space between and around them, are read back as they were.
pub proof fn law_fields_of_a_row(columns: Seq<Seq<char>>, gaps: Seq<Seq<char>>)
    requires
        keep_apart(columns, gaps),
        forall|i: int| 0 <= i < columns.len() ==> (#[trigger] columns[i]).len() > 0,
        forall|i: int, j: int|
            0 <= i < columns.len() && 0 <= j < columns[i].len() ==> !is_white_space(
                #[trigger] columns[i][j],
            ),
    ensures
        fields(spaced(columns, gaps)) == columns,
{
    lemma_fields_of_a_row(columns, gaps);
}

/// The columns are read back, and a gap at the end leaves none open.
proof fn lemma_fields_of_a_row(columns: Seq<Seq<char>>, gaps: Seq<Seq<char>>)
    requires
        keep_apart(columns, gaps),
        forall|i: int| 0 <= i < columns.len() ==> (#[trigger] columns[i]).len() > 0,
        forall|i: int, j: int|
            0 <= i < columns.len() && 0 <= j < columns[i].len() ==> !is_white_space(
                #[trigger] columns[i][j],
            ),
    ensures
        fields(spaced(columns, gaps)) == columns,
        columns.len() == 0 || gaps.last().len() > 0 ==> split_where(
            spaced(columns, gaps),
            |c: char| is_white_space(c),
        ).last().len() == 0,
    decreases columns.len(),
{
    let sep = |c: char| is_white_space(c);
    let holds = |piece: Seq<char>| piece.len() > 0;
    let last_gap = gaps.last();
    assert forall|j: int| 0 <= j < last_gap.len() implies is_white_space(
        #[trigger] last_gap[j],
    ) by {
        assert(is_white_space(gaps[gaps.len() - 1][j]));
    }
    if columns.len() == 0 {
        let none = Seq::<char>::empty();
        lemma_gap_adds_nothing(none, last_gap);
        assert(none + last_gap == gaps[0]);
        assert(split_where(none, sep) == Seq::<Seq<char>>::empty().push(none));
        Seq::<Seq<char>>::empty().lemma_filter_push(none, holds);
        reveal(Seq::filter);
        assert(fields(none) == columns);
    } else {
        let init = columns.drop_last();
        let gaps_before = gaps.drop_last();
        let last = columns.last();
        assert(keep_apart(init, gaps_before)) by {
            assert forall|i: int, j: int|
                0 <= i < gaps_before.len() && 0 <= j < gaps_before[i].len() implies is_white_space(
                #[trigger] gaps_before[i][j],
            ) by {
                assert(is_white_space(gaps[i][j]));
            }
        }
        assert forall|i: int, j: int| 0 <= i < init.len() && 0 <= j < init[i].len() implies
            !is_white_space(#[trigger] init[i][j]) by {
            assert(!is_white_space(columns[i][j]));
        }
        lemma_fields_of_a_row(init, gaps_before);
        let head = spaced(init, gaps_before);
        let pieces = split_where(head, sep);
        assert(pieces.last().len() == 0) by {
            if init.len() > 0 {
                assert(gaps[init.len() as int].len() > 0);
                assert(gaps_before.last() == gaps[init.len() as int]);
            }
        }
        assert forall|j: int| 0 <= j < last.len() implies !sep(last[j]) by {
            assert(!is_white_space(columns[columns.len() - 1][j]));
        }
        lemma_split_where_len(head, sep);
        lemma_split_run(head, last, sep);
        assert(pieces.last() + last == last);
        assert(pieces.drop_last().push(pieces.last()) == pieces);
        pieces.drop_last().lemma_filter_push(pieces.last(), holds);
        pieces.drop_last().lemma_filter_push(last, holds);
        assert(columns[columns.len() - 1].len() > 0);
        assert(fields(head + last) == init.push(last));
        assert(init.push(last) == columns);
        lemma_gap_adds_nothing(head + last, last_gap);
    }
}

/// A filter that drops nothing changes nothing.
pub proof fn lemma_filter_all<T>(s: Seq<T>, keep: spec_fn(T) -> bool)
    requires
        forall|i: int| 0 <= i < s.len() ==> keep(#[trigger] s[i]),
    ensures
        s.filter(keep) == s,
    decreases s.len(),
{
    reveal(Seq::filter);
    if s.len() > 0 {
        assert forall|i: int| 0 <= i < s.drop_last().len() implies keep(
            #[trigger] s.drop_last()[i],
        ) by {
            assert(keep(s[i]));
        }
        lemma_filter_all(s.drop_last(), keep);
        assert(keep(s[s.len() - 1]));
        assert(s.drop_last().push(s.last()) == s);
    }
}

/// The digits of a decimal number have its value, and the first is no sign.
pub proof fn lemma_decimal(n: nat)
    ensures
        decimal(n).len() > 0,
        '0' <= decimal(n)[0] <= '9',
        digits_value(decimal(n), 10) == Some(n as int),
    decreases n,
{
    reveal_with_fuel(digits_value, 2);
    if n < 10 {
        assert(seq![digit_char(n as int)].drop_last() == Seq::<char>::empty());
    } else {
        lemma_decimal(n / 10);
        assert(decimal(n).drop_last() == decimal(n / 10));
    }
}

/// A number written in decimal is read back as it was.
pub proof fn law_decimal_is_read_back(n: nat, max: int)
    requires
        n <= max,
    ensures
        parse_number(decimal(n), 10, max) == Some(n as int),
{
    lemma_decimal(n);
}

/// The last digit of a number is its remainder by ten, and the digits before
/// it are those of the number without it.
pub proof fn law_decimal_digits(n: nat)
    ensures
        decimal(n).len() > 0,
        decimal(n).last() as int == '0' as int + n % 10,
        n < 10 ==> decimal(n).len() == 1,
        n >= 10 ==> decimal(n).drop_last() == decimal(n / 10),
{
    if n >= 10 {
        assert(decimal(n).drop_last() == decimal(n / 10));
    }
}

/// Different numbers are written differently.
pub proof fn law_decimals_differ(m: nat, n: nat)
    requires
        decimal(m) == decimal(n),
    ensures
        m == n,
{
    lemma_decimal(m);
    lemma_decimal(n);
}

/// A byte is written as its high and its low half, each as a digit or, from
/// ten on, as a lower-case letter.
pub proof fn law_hex_byte_digits(b: u8)
    ensures
        hex_byte(b).len() == 2,
        hex_byte(b)[0] as int == if b < 160 {
            '0' as int + b / 16
        } else {
            'a' as int + b / 16 - 10
        },
        hex_byte(b)[1] as int == if b % 16 < 10 {
            '0' as int + b % 16
        } else {
            'a' as int + b % 16 - 10
        },
{
}

/// A character is the digit `d` exactly if it is the one `d` places after `0`
/// or, from ten on, the one so many places after `a` or `A`.
pub proof fn law_digit_is_its_value(c: char, radix: int, d: int)
    requires
        2 <= radix <= 36,
    ensures
        digit_value(c, radix) == Some(d) <==> 0 <= d < radix && if d < 10 {
            c as int == '0' as int + d
        } else {
            c as int == 'a' as int + d - 10 || c as int == 'A' as int + d - 10
        },
{
}

/// Each digit that follows multiplies what stands before it by the base, and
/// what is no number does not become one.
pub proof fn law_digits_add_up(s: Seq<char>, c: char, radix: int)
    ensures
        digits_value(Seq::empty(), radix) == Some(0int),
        digits_value(s, radix) matches Some(high) ==> digit_value(c, radix) matches Some(low)
            ==> digits_value(s.push(c), radix) == Some(high * radix + low),
        digits_value(s, radix) is None || digit_value(c, radix) is None ==> digits_value(
            s.push(c),
            radix,
        ) is None,
{
    assert(s.push(c).drop_last() == s);
}

/// A number is a run of digits whose value is not too large, with or without a
/// plus sign before it; and no digits are no number.
pub proof fn law_number_is_its_digits(s: Seq<char>, radix: int, max: int, n: int)
    requires
        s.len() > 0,
        2 <= radix <= 36,
    ensures
        s[0] != '+' ==> (parse_number(s, radix, max) == Some(n) <==> digits_value(s, radix) == Some(n)
            && n <= max),
        parse_number(seq!['+'] + s, radix, max) == Some(n) <==> digits_value(s, radix) == Some(n)
            && n <= max,
        parse_number(seq!['+'], radix, max) is None,
        parse_number(Seq::empty(), radix, max) is None,
{
    assert((seq!['+'] + s).skip(1) == s);
    assert(seq!['+'].skip(1) == Seq::<char>::empty());
}

/// Each part that follows comes after the separator; nothing stands before the
/// first part or after the last.
pub proof fn law_join_adds_a_part(parts: Seq<Seq<char>>, part: Seq<char>, sep: Seq<char>)
    ensures
        join(Seq::empty(), sep).len() == 0,
        join(seq![part], sep) == part,
        parts.len() > 0 ==> join(parts.push(part), sep) == join(parts, sep) + sep + part,
{
    assert(parts.push(part).drop_last() == parts);
}

/// A text without a line feed is one line, and after a line feed there begins
/// another.
pub proof fn law_line_feeds_end_lines(text: Seq<char>, line: Seq<char>)
    requires
        forall|i: int| 0 <= i < line.len() ==> line[i] != '\n',
    ensures
        lines(line) == seq![line],
        lines(text + seq!['\n'] + line) == lines(text).push(line),
{
    let sep = |c: char| c == '\n';
    let none = Seq::<char>::empty();
    lemma_split_run(none, line, sep);
    assert(none + line == line);
    assert(split_where(none, sep) == seq![none]);
    assert(seq![none].drop_last().push(line) == seq![line]);
    lemma_split_at_separator(text, '\n', sep);
    assert(text.push('\n') == text + seq!['\n']);
    lemma_split_run(text.push('\n'), line, sep);
    assert(lines(text).push(none).drop_last() == lines(text));
}

/// White space holds no column, and a run without white space, after white
/// space or at the start of a line, is one column more.
pub proof fn law_white_space_ends_columns(line: Seq<char>, column: Seq<char>, gap: Seq<char>)
    requires
        line.len() == 0 || is_white_space(line.last()),
        column.len() > 0,
        forall|i: int| 0 <= i < column.len() ==> !is_white_space(#[trigger] column[i]),
        forall|i: int| 0 <= i < gap.len() ==> is_white_space(#[trigger] gap[i]),
    ensures
        fields(gap).len() == 0,
        fields(line + column + gap) == fields(line).push(column),
{
    let sep = |c: char| is_white_space(c);
    let holds = |piece: Seq<char>| piece.len() > 0;
    let none = Seq::<char>::empty();
    lemma_gap_adds_nothing(none, gap);
    assert(none + gap == gap);
    assert(split_where(none, sep) == Seq::<Seq<char>>::empty().push(none));
    Seq::<Seq<char>>::empty().lemma_filter_push(none, holds);
    assert(fields(none).len() == 0) by {
        reveal(Seq::filter);
    }
    let pieces = split_where(line, sep);
    lemma_split_where_len(line, sep);
    assert(pieces.last().len() == 0);
    lemma_split_run(line, column, sep);
    assert(pieces.last() + column == column);
    assert(pieces.drop_last().push(pieces.last()) == pieces);
    pieces.drop_last().lemma_filter_push(pieces.last(), holds);
    pieces.drop_last().lemma_filter_push(column, holds);
    assert(fields(line + column) == fields(line).push(column));
    lemma_gap_adds_nothing(line + column, gap);
}

/// What is left of a text is what stands between the white space around it,
/// however long, and nothing where there is only white space.
pub proof fn law_trim_leaves_the_rest(before: Seq<char>, rest: Seq<char>, after: Seq<char>)
    requires
        forall|i: int| 0 <= i < before.len() ==> is_white_space(#[trigger] before[i]),
        forall|i: int| 0 <= i < after.len() ==> is_white_space(#[trigger] after[i]),
        rest.len() > 0 ==> !is_white_space(rest[0]) && !is_white_space(rest.last()),
    ensures
        trim(before + rest + after) == rest,
{
    let s = before + rest + after;
    law_trim(s);
    let (from, to) = choose|from: int, to: int|
        #![trigger s.subrange(from, to)]
        {
            &&& 0 <= from <= to <= s.len()
            &&& trim(s) == s.subrange(from, to)
            &&& forall|i: int|
                0 <= i < from || to <= i < s.len() ==> is_white_space(#[trigger] s[i])
        };
    let b = before.len() as int;
    let e = b + rest.len();
    assert forall|i: int| 0 <= i < b implies s[i] == before[i] by {}
    assert forall|i: int| e <= i < s.len() implies s[i] == after[i - e] by {}
    if rest.len() > 0 {
        assert(s[b] == rest[0]);
        assert(s[e - 1] == rest.last());
        assert(from <= b && e <= to);
        assert(trim(s)[0] == s[from]);
        assert(trim(s).last() == s[to - 1]);
        if from < b {
            assert(is_white_space(before[from]));
        }
        if e < to {
            assert(is_white_space(after[to - 1 - e]));
        }
        assert(s.subrange(b, e) == rest);
    } else if trim(s).len() > 0 {
        assert(trim(s)[0] == s[from]);
        if from < b {
            assert(is_white_space(before[from]));
        } else {
            assert(is_white_space(after[from - e]));
        }
    }
}

/// A text is cut where the separator stands first, and not cut where there is
/// none.
pub proof fn law_cut_at_the_first(before: Seq<char>, sep: char, after: Seq<char>)
    requires
        forall|i: int| 0 <= i < before.len() ==> before[i] != sep,
    ensures
        split_once(before + seq![sep] + after, sep) == Some((before, after)),
        split_once(before, sep) is None,
{
    let s = before + seq![sep] + after;
    s.index_of_first_ensures(sep);
    before.index_of_first_ensures(sep);
    let k = s.index_of_first(sep)->0;
    assert(s[before.len() as int] == sep);
    assert(s.contains(sep));
    if k < before.len() {
        assert(s[k] == before[k]);
    }
    assert(s.take(k) == before);
    assert(s.skip(k + 1) == after);
}

/// A list of texts says what each of its texts says, in order.
pub proof fn law_rows_are_their_texts(strings: Seq<String>, rows: Seq<Vec<char>>)
    ensures
        string_rows(strings).len() == strings.len(),
        forall|i: int| 0 <= i < strings.len() ==> #[trigger] string_rows(strings)[i] == strings[i]@,
        char_rows(rows).len() == rows.len(),
        forall|i: int| 0 <= i < rows.len() ==> #[trigger] char_rows(rows)[i] == rows[i]@,
{
}

/// White space is the space, the controls from tab to carriage return and the
/// next line, and the separators of Unicode; no letter, digit or other mark.
pub proof fn law_white_space_characters(c: char)
    ensures
        is_white_space(c) <==> {
            let code = c as int;
            ||| code == 0x20
            ||| 0x9 <= code <= 0xd
            ||| code == 0x85 || code == 0xa0 || code == 0x1680
            ||| 0x2000 <= code <= 0x200a
            ||| code == 0x2028 || code == 0x2029 || code == 0x202f || code == 0x205f
            ||| code == 0x3000
        },
{
}

} // verus!
