//! Small operations on text: lines, surrounding white space, decimal numbers.

use vstd::prelude::*;
use vstd::utf8::{decode_utf8, valid_utf8};

verus! {

/// The position of the first `c` in `s`, or the length of `s` where it has none.
pub open spec fn position_of(s: Seq<char>, c: char) -> nat
    decreases s.len(),
{
    if s.len() == 0 || s[0] == c {
        0
    } else {
        1 + position_of(s.drop_first(), c)
    }
}

proof fn lemma_position_of(s: Seq<char>, c: char)
    ensures
        position_of(s, c) <= s.len(),
        position_of(s, c) < s.len() ==> s[position_of(s, c) as int] == c,
        forall|i: int| 0 <= i < position_of(s, c) ==> s[i] != c,
    decreases s.len(),
{
    if s.len() > 0 && s[0] != c {
        lemma_position_of(s.drop_first(), c);
        assert forall|i: int| 0 <= i < position_of(s, c) implies s[i] != c by {
            if i > 0 {
                assert(s.drop_first()[i - 1] != c);
            }
        }
    }
}

/// The position of a character is that of the first one that there is, or the
/// text's length.
pub proof fn law_position_of(s: Seq<char>, c: char)
    ensures
        position_of(s, c) <= s.len(),
        position_of(s, c) < s.len() ==> s[position_of(s, c) as int] == c,
        forall|i: int| 0 <= i < position_of(s, c) ==> s[i] != c,
{
    lemma_position_of(s, c);
}

/// The character before which no other is `c` is the first.
proof fn lemma_is_position_of(s: Seq<char>, c: char, k: int)
    requires
        0 <= k <= s.len(),
        k < s.len() ==> s[k] == c,
        forall|i: int| 0 <= i < k ==> s[i] != c,
    ensures
        position_of(s, c) == k,
{
    lemma_position_of(s, c);
}

/// Whether `c` has the Unicode property White_Space.
pub open spec fn is_white_space_spec(c: char) -> bool {
    ||| '\u{9}' <= c <= '\u{d}'
    ||| c == '\u{20}'
    ||| c == '\u{85}'
    ||| c == '\u{a0}'
    ||| c == '\u{1680}'
    ||| '\u{2000}' <= c <= '\u{200a}'
    ||| c == '\u{2028}'
    ||| c == '\u{2029}'
    ||| c == '\u{202f}'
    ||| c == '\u{205f}'
    ||| c == '\u{3000}'
}

/// Whether `c` has the Unicode property White_Space.
pub fn is_white_space(c: char) -> (yes: bool)
    ensures
        yes == is_white_space_spec(c),
{
    ('\u{9}' <= c && c <= '\u{d}') || c == '\u{20}' || c == '\u{85}' || c == '\u{a0}' || c
        == '\u{1680}' || ('\u{2000}' <= c && c <= '\u{200a}') || c == '\u{2028}' || c == '\u{2029}'
        || c == '\u{202f}' || c == '\u{205f}' || c == '\u{3000}'
}

/// `s` from its first character on that is no white space.
pub open spec fn trimmed_start(s: Seq<char>) -> Seq<char>
    decreases s.len(),
{
    if s.len() > 0 && is_white_space_spec(s[0]) {
        trimmed_start(s.drop_first())
    } else {
        s
    }
}

/// `s` up to its last character that is no white space.
pub open spec fn trimmed_end(s: Seq<char>) -> Seq<char>
    decreases s.len(),
{
    if s.len() > 0 && is_white_space_spec(s.last()) {
        trimmed_end(s.drop_last())
    } else {
        s
    }
}

/// `s` without the white space around it.
pub open spec fn trimmed(s: Seq<char>) -> Seq<char> {
    trimmed_end(trimmed_start(s))
}

/// `s` without the white space around it.
pub fn trim(s: &str) -> (t: &str)
    ensures
        t@ == trimmed(s@),
{
    let n = s.unicode_len();
    let mut from: usize = 0;
    assert(s@.skip(0) =~= s@);
    while from < n && is_white_space(s.get_char(from))
        invariant
            n == s@.len(),
            from <= n,
            trimmed_start(s@) == trimmed_start(s@.skip(from as int)),
        decreases n - from,
    {
        assert(s@.skip(from as int).drop_first() =~= s@.skip(from + 1));
        from = from + 1;
    }
    assert(trimmed_start(s@) == s@.skip(from as int));
    let mut to: usize = n;
    assert(s@.subrange(from as int, n as int) =~= s@.skip(from as int));
    while from < to && is_white_space(s.get_char(to - 1))
        invariant
            n == s@.len(),
            from <= to <= n,
            trimmed(s@) == trimmed_end(s@.subrange(from as int, to as int)),
        decreases to,
    {
        assert(s@.subrange(from as int, to as int).drop_last() =~= s@.subrange(
            from as int,
            to - 1,
        ));
        to = to - 1;
    }
    s.substring_char(from, to)
}

/// The lines of `s`: what stands between the line feeds.
pub open spec fn lines(s: Seq<char>) -> Seq<Seq<char>>
    decreases s.len(),
{
    let k = position_of(s, '\n') as int;
    if k < s.len() {
        seq![s.take(k)] + lines(s.skip(k + 1))
    } else {
        seq![s]
    }
}

/// The lines without the white space around each, and without the blank ones.
pub open spec fn trimmed_non_blank(lines: Seq<Seq<char>>) -> Seq<Seq<char>>
    decreases lines.len(),
{
    if lines.len() == 0 {
        Seq::empty()
    } else {
        let before = trimmed_non_blank(lines.drop_last());
        let line = trimmed(lines.last());
        if line.len() == 0 {
            before
        } else {
            before.push(line)
        }
    }
}

/// Puts the characters of `s` between `from` and `to` down as a line, without
/// the white space around them, unless nothing is left.
fn push_line(s: &str, from: usize, to: usize, kept: &mut Vec<String>)
    requires
        from <= to <= s@.len(),
    ensures
        ({
            let line = trimmed(s@.subrange(from as int, to as int));
            final(kept).deep_view() == if line.len() == 0 {
                old(kept).deep_view()
            } else {
                old(kept).deep_view().push(line)
            }
        }),
{
    let line = trim(s.substring_char(from, to));
    let ghost before = kept.deep_view();
    if !line.is_empty() {
        kept.push(line.to_owned());
        assert(kept.deep_view() =~= before.push(line@));
    }
}

/// The lines of `s` that are not blank, without the white space around each.
pub fn non_blank_lines(s: &str) -> (kept: Vec<String>)
    ensures
        kept.deep_view() == trimmed_non_blank(lines(s@)),
{
    let mut kept: Vec<String> = Vec::new();
    let ghost mut done: Seq<Seq<char>> = Seq::empty();
    let mut from: usize = 0;
    let mut at: usize = 0;
    let n = s.unicode_len();
    assert(kept.deep_view() =~= Seq::empty());
    assert(s@.skip(0) =~= s@);
    for c in it: s.chars()
        invariant
            it.seq() == s@,
            n == s@.len(),
            at == it.index(),
            from <= at <= n,
            lines(s@) =~= done + lines(s@.skip(from as int)),
            forall|i: int| from <= i < at ==> s@[i] != '\n',
            kept.deep_view() == trimmed_non_blank(done),
    {
        if c == '\n' {
            proof {
                let rest = s@.skip(from as int);
                let line = s@.subrange(from as int, at as int);
                lemma_is_position_of(rest, '\n', at - from);
                assert(rest.take(at - from) =~= line);
                assert(rest.skip(at - from + 1) =~= s@.skip(at + 1));
                assert(done.push(line).drop_last() =~= done);
                done = done.push(line);
            }
            push_line(s, from, at, &mut kept);
            from = at + 1;
        }
        at = at + 1;
    }
    proof {
        let rest = s@.skip(from as int);
        let line = s@.subrange(from as int, n as int);
        lemma_is_position_of(rest, '\n', n - from);
        assert(rest =~= line);
        assert(done.push(line).drop_last() =~= done);
        assert(done.push(line) =~= lines(s@));
    }
    push_line(s, from, n, &mut kept);
    kept
}

/// The parts one after the other, with `separator` between them.
pub open spec fn joined(parts: Seq<Seq<char>>, separator: Seq<char>) -> Seq<char>
    decreases parts.len(),
{
    if parts.len() == 0 {
        Seq::empty()
    } else if parts.len() == 1 {
        parts[0]
    } else {
        joined(parts.drop_last(), separator) + separator + parts.last()
    }
}

/// The decimal digit for `d`.
pub open spec fn digit(d: nat) -> char {
    ('0' as u32 + d) as char
}

/// `n` in decimal, without leading zeros.
pub open spec fn decimal_text(n: nat) -> Seq<char>
    decreases n,
{
    if n < 10 {
        seq![digit(n)]
    } else {
        decimal_text(n / 10).push(digit(n % 10))
    }
}

fn digit_str(d: u32) -> (text: &'static str)
    requires
        d < 10,
    ensures
        text@ == seq![digit(d as nat)],
{
    proof {
        reveal_strlit("0");
        reveal_strlit("1");
        reveal_strlit("2");
        reveal_strlit("3");
        reveal_strlit("4");
        reveal_strlit("5");
        reveal_strlit("6");
        reveal_strlit("7");
        reveal_strlit("8");
        reveal_strlit("9");
    }
    let text = match d {
        0 => "0",
        1 => "1",
        2 => "2",
        3 => "3",
        4 => "4",
        5 => "5",
        6 => "6",
        7 => "7",
        8 => "8",
        _ => "9",
    };
    assert(text@ =~= seq![digit(d as nat)]);
    text
}

/// `n` in decimal.
pub fn decimal(n: u32) -> (text: String)
    ensures
        text@ == decimal_text(n as nat),
    decreases n,
{
    if n < 10 {
        digit_str(n).to_owned()
    } else {
        let mut text = decimal(n / 10);
        text.append(digit_str(n % 10));
        assert(text@ =~= decimal_text(n as nat));
        text
    }
}

pub open spec fn is_digit(c: char) -> bool {
    '0' <= c <= '9'
}

/// The number that the decimal digits `s` stand for.
pub open spec fn digits_value(s: Seq<char>) -> nat
    decreases s.len(),
{
    if s.len() == 0 {
        0
    } else {
        10 * digits_value(s.drop_last()) + (s.last() as nat - '0' as nat) as nat
    }
}

pub open spec fn all_digits(s: Seq<char>) -> bool {
    forall|i: int| 0 <= i < s.len() ==> is_digit(#[trigger] s[i])
}

/// The number that `s` spells in decimal digits, one at least, where a `u32`
/// can hold it.
pub open spec fn parsed_digits(s: Seq<char>) -> Option<u32> {
    if s.len() > 0 && all_digits(s) && digits_value(s) <= u32::MAX {
        Some(digits_value(s) as u32)
    } else {
        None
    }
}

/// The number that `s` spells in decimal, with or without a `+` before it,
/// where a `u32` can hold it.
pub open spec fn parsed_u32(s: Seq<char>) -> Option<u32> {
    if s.len() > 0 && s[0] == '+' {
        parsed_digits(s.drop_first())
    } else {
        parsed_digits(s)
    }
}

proof fn lemma_digits_value_grows(s: Seq<char>, k: int)
    requires
        0 <= k <= s.len(),
    ensures
        digits_value(s.take(k)) <= digits_value(s),
    decreases s.len() - k,
{
    if k < s.len() {
        lemma_digits_value_grows(s, k + 1);
        assert(s.take(k + 1).drop_last() =~= s.take(k));
    } else {
        assert(s.take(k) =~= s);
    }
}

/// The number that `s` spells.
pub fn parse_u32(s: &str) -> (number: Option<u32>)
    ensures
        number == parsed_u32(s@),
{
    let n = s.unicode_len();
    let signed = n > 0 && s.get_char(0) == '+';
    let digits: &str = if signed {
        s.substring_char(1, n)
    } else {
        s
    };
    assert(signed ==> digits@ =~= s@.drop_first());
    if digits.is_empty() {
        return None;
    }
    let mut value: u32 = 0;
    for c in it: digits.chars()
        invariant
            it.seq() == digits@,
            digits@.len() > 0,
            parsed_u32(s@) == parsed_digits(digits@),
            forall|i: int| 0 <= i < it.index() ==> is_digit(#[trigger] digits@[i]),
            value == digits_value(digits@.take(it.index() as int)),
    {
        let ghost k = it.index() as int;
        assert(c == digits@[k]);
        if c < '0' || c > '9' {
            return None;
        }
        let d: u32 = c as u32 - '0' as u32;
        let next: u64 = value as u64 * 10 + d as u64;
        proof {
            assert(digits@.take(k + 1).drop_last() =~= digits@.take(k));
            lemma_digits_value_grows(digits@, k + 1);
        }
        if next > u32::MAX as u64 {
            return None;
        }
        value = next as u32;
    }
    assert(digits@.take(digits@.len() as int) =~= digits@);
    Some(value)
}

proof fn lemma_decimal_text(n: nat)
    ensures
        decimal_text(n).len() > 0,
        decimal_text(n)[0] != '+',
        all_digits(decimal_text(n)),
        digits_value(decimal_text(n)) == n,
    decreases n,
{
    if n < 10 {
        reveal_with_fuel(digits_value, 2);
        assert(decimal_text(n).drop_last() =~= Seq::empty());
    } else {
        lemma_decimal_text(n / 10);
        assert(decimal_text(n).drop_last() =~= decimal_text(n / 10));
    }
}

/// A number that was written in decimal reads back as itself.
pub proof fn law_decimal_round_trip(n: u32)
    ensures
        parsed_u32(decimal_text(n as nat)) == Some(n),
{
    lemma_decimal_text(n as nat);
}

proof fn lemma_nothing_to_trim(s: Seq<char>)
    requires
        forall|i: int| 0 <= i < s.len() ==> !is_white_space_spec(#[trigger] s[i]),
    ensures
        trimmed(s) == s,
{
}

/// Trimming leaves a number in decimal as it is.
pub proof fn law_decimal_is_trimmed(n: nat)
    ensures
        trimmed(decimal_text(n)) == decimal_text(n),
{
    lemma_decimal_text(n);
    assert forall|i: int| 0 <= i < decimal_text(n).len() implies !is_white_space_spec(
        #[trigger] decimal_text(n)[i],
    ) by {
        assert(is_digit(decimal_text(n)[i]));
    }
    lemma_nothing_to_trim(decimal_text(n));
}

/// Text that was trimmed has no white space left around it.
pub proof fn law_trimmed(s: Seq<char>)
    ensures
        trimmed(s).len() > 0 ==> !is_white_space_spec(trimmed(s)[0]) && !is_white_space_spec(
            trimmed(s).last(),
        ),
        trimmed(trimmed(s)) == trimmed(s),
{
    lemma_trimmed_start(s);
    lemma_trimmed_end(trimmed_start(s));
}

proof fn lemma_trimmed_start(s: Seq<char>)
    ensures
        trimmed_start(s).len() > 0 ==> !is_white_space_spec(trimmed_start(s)[0]),
    decreases s.len(),
{
    if s.len() > 0 && is_white_space_spec(s[0]) {
        lemma_trimmed_start(s.drop_first());
    }
}

proof fn lemma_trimmed_end(s: Seq<char>)
    ensures
        trimmed_end(s).len() > 0 ==> !is_white_space_spec(trimmed_end(s).last()) && trimmed_end(
            s,
        )[0] == s[0],
    decreases s.len(),
{
    if s.len() > 0 && is_white_space_spec(s.last()) {
        lemma_trimmed_end(s.drop_last());
    }
}

/// `String::from_utf8` of std: the text that the bytes encode, where they are
/// valid UTF-8.
#[verifier::external_body]
pub(crate) fn text_from_utf8(bytes: Vec<u8>) -> (text: Option<String>)
    ensures
        text is Some <==> valid_utf8(bytes@),
        text matches Some(t) ==> t@ == decode_utf8(bytes@),
{
    String::from_utf8(bytes).ok()
}

/// What `String::from_utf8_lossy` of std makes of bytes: U+FFFD stands for
/// each part of them that is no UTF-8.
pub uninterp spec fn lossy_text(bytes: Seq<u8>) -> Seq<char>;

/// `String::from_utf8_lossy` of std. Of bytes that are valid UTF-8 it is the
/// text that they encode. Into which parts it divides other bytes is left
/// unsaid.
#[verifier::external_body]
pub(crate) fn text_from_utf8_lossy(bytes: &Vec<u8>) -> (text: String)
    ensures
        text@ == lossy_text(bytes@),
        valid_utf8(bytes@) ==> text@ == decode_utf8(bytes@),
{
    String::from_utf8_lossy(bytes).into_owned()
}

/// Of the lines without the blank ones, each holds something, and has no white
/// space around it.
pub proof fn law_kept_lines_are_not_blank(lines: Seq<Seq<char>>, i: int)
    requires
        0 <= i < trimmed_non_blank(lines).len(),
    ensures
        trimmed_non_blank(lines)[i].len() > 0,
        trimmed(trimmed_non_blank(lines)[i]) == trimmed_non_blank(lines)[i],
    decreases lines.len(),
{
    let before = trimmed_non_blank(lines.drop_last());
    if i < before.len() {
        law_kept_lines_are_not_blank(lines.drop_last(), i);
    } else {
        law_trimmed(lines.last());
    }
}

/// White space is what Unicode lists as such, by code point.
pub proof fn law_white_space(c: char, yes: bool)
    requires
        call_ensures(is_white_space, (c,), yes),
    ensures
        yes <==> seq![
            0x9u32, 0xa, 0xb, 0xc, 0xd, 0x20, 0x85, 0xa0, 0x1680, 0x2000, 0x2001, 0x2002, 0x2003,
            0x2004, 0x2005, 0x2006, 0x2007, 0x2008, 0x2009, 0x200a, 0x2028, 0x2029, 0x202f, 0x205f,
            0x3000,
        ].contains(c as u32),
        yes == is_white_space_spec(c),
{
    let all = seq![
        0x9u32, 0xa, 0xb, 0xc, 0xd, 0x20, 0x85, 0xa0, 0x1680, 0x2000, 0x2001, 0x2002, 0x2003,
        0x2004, 0x2005, 0x2006, 0x2007, 0x2008, 0x2009, 0x200a, 0x2028, 0x2029, 0x202f, 0x205f,
        0x3000,
    ];
    let n = c as u32;
    if yes {
        let i: int = if n <= 0xd {
            n - 0x9
        } else if n == 0x20 {
            5
        } else if n == 0x85 {
            6
        } else if n == 0xa0 {
            7
        } else if n == 0x1680 {
            8
        } else if n <= 0x200a {
            9 + (n - 0x2000)
        } else if n == 0x2028 {
            20
        } else if n == 0x2029 {
            21
        } else if n == 0x202f {
            22
        } else if n == 0x205f {
            23
        } else {
            24
        };
        assert(all[i] == n);
    }
}

/// Where the text without the white space around it begins and ends.
proof fn lemma_trimmed_middle(s: Seq<char>) -> (r: (int, int))
    ensures
        0 <= r.0 <= r.1 <= s.len(),
        trimmed(s) == s.subrange(r.0, r.1),
        forall|i: int| 0 <= i < r.0 || r.1 <= i < s.len() ==> is_white_space_spec(#[trigger] s[i]),
        r.0 < r.1 ==> !is_white_space_spec(s[r.0]) && !is_white_space_spec(s[r.1 - 1]),
    decreases s.len(),
{
    if s.len() > 0 && is_white_space_spec(s[0]) {
        let t = s.drop_first();
        let (a, b) = lemma_trimmed_middle(t);
        assert forall|i: int| 0 <= i < a + 1 || b + 1 <= i < s.len() implies is_white_space_spec(
            #[trigger] s[i],
        ) by {
            if i > 0 {
                assert(t[i - 1] == s[i]);
            }
        }
        assert(t.subrange(a, b) =~= s.subrange(a + 1, b + 1));
        assert(a < b ==> t[a] == s[a + 1] && t[b - 1] == s[b]);
        (a + 1, b + 1)
    } else {
        let b = lemma_trimmed_end_at(s);
        assert(s.take(b) =~= s.subrange(0, b));
        (0, b)
    }
}

proof fn lemma_trimmed_end_at(s: Seq<char>) -> (b: int)
    ensures
        0 <= b <= s.len(),
        trimmed_end(s) == s.take(b),
        forall|i: int| b <= i < s.len() ==> is_white_space_spec(#[trigger] s[i]),
        b > 0 ==> !is_white_space_spec(s[b - 1]),
    decreases s.len(),
{
    if s.len() > 0 && is_white_space_spec(s.last()) {
        let t = s.drop_last();
        let b = lemma_trimmed_end_at(t);
        assert forall|i: int| b <= i < s.len() implies is_white_space_spec(#[trigger] s[i]) by {
            if i < t.len() {
                assert(t[i] == s[i]);
            }
        }
        assert(t.take(b) =~= s.take(b));
        b
    } else {
        assert(s.take(s.len() as int) =~= s);
        s.len() as int
    }
}

/// What [`trim`] returns is what is left of a text when all the white space is
/// taken from its ends, and nothing else: only white space stands before and
/// after it, and it neither begins nor ends with any.
pub proof fn law_trim(s: &str, t: &str)
    requires
        call_ensures(trim, (s,), t),
    ensures
        exists|a: int, b: int|
            {
                &&& 0 <= a <= b <= s@.len()
                &&& t@ == #[trigger] s@.subrange(a, b)
                &&& forall|i: int|
                    0 <= i < a || b <= i < s@.len() ==> is_white_space_spec(#[trigger] s@[i])
                &&& a < b ==> !is_white_space_spec(s@[a]) && !is_white_space_spec(s@[b - 1])
            },
{
    let (a, b) = lemma_trimmed_middle(s@);
    assert(t@ == s@.subrange(a, b));
}

/// A text is blank just when all of it is white space.
proof fn lemma_blank(s: Seq<char>)
    ensures
        trimmed(s).len() == 0 <==> forall|i: int|
            0 <= i < s.len() ==> is_white_space_spec(#[trigger] s[i]),
{
    let (a, b) = lemma_trimmed_middle(s);
    assert(trimmed(s).len() == b - a);
}

/// A text without a line feed is a single line.
pub proof fn law_single_line(s: Seq<char>)
    requires
        !s.contains('\n'),
    ensures
        lines(s) == seq![s],
{
    lemma_is_position_of(s, '\n', s.len() as int);
}

/// A line feed ends a line: the lines of two texts with a line feed between them
/// are those of the first, and after them those of the second.
pub proof fn law_line_feed_parts_lines(a: Seq<char>, b: Seq<char>)
    ensures
        lines(a + seq!['\n'] + b) == lines(a) + lines(b),
    decreases a.len(),
{
    let s = a + seq!['\n'] + b;
    let k = position_of(a, '\n') as int;
    lemma_position_of(a, '\n');
    assert forall|i: int| 0 <= i < k implies s[i] != '\n' by {
        assert(s[i] == a[i]);
    }
    lemma_is_position_of(s, '\n', k);
    assert(s.take(k) =~= a.take(k));
    if k < a.len() {
        let rest = a.skip(k + 1);
        law_line_feed_parts_lines(rest, b);
        assert(s.skip(k + 1) =~= rest + seq!['\n'] + b);
        assert(lines(s) =~= lines(a) + lines(b));
    } else {
        assert(s.skip(k + 1) =~= b);
        assert(a.take(k) =~= a);
    }
}

proof fn lemma_non_blank_append(a: Seq<Seq<char>>, b: Seq<Seq<char>>)
    ensures
        trimmed_non_blank(a + b) == trimmed_non_blank(a) + trimmed_non_blank(b),
    decreases b.len(),
{
    if b.len() == 0 {
        assert(a + b =~= a);
        assert(trimmed_non_blank(a + b) =~= trimmed_non_blank(a) + trimmed_non_blank(b));
    } else {
        lemma_non_blank_append(a, b.drop_last());
        assert((a + b).drop_last() =~= a + b.drop_last());
        assert((a + b).last() == b.last());
        assert(trimmed_non_blank(a + b) =~= trimmed_non_blank(a) + trimmed_non_blank(b));
    }
}

/// The lines that are kept of a text are those kept of what stands before one of
/// its line feeds, and then those kept of what stands after it.
pub proof fn law_kept_lines_of_parts(
    s: &str,
    kept: Vec<String>,
    a: &str,
    kept_a: Vec<String>,
    b: &str,
    kept_b: Vec<String>,
)
    requires
        call_ensures(non_blank_lines, (s,), kept),
        call_ensures(non_blank_lines, (a,), kept_a),
        call_ensures(non_blank_lines, (b,), kept_b),
        s@ == a@ + seq!['\n'] + b@,
    ensures
        kept.deep_view() == kept_a.deep_view() + kept_b.deep_view(),
{
    law_line_feed_parts_lines(a@, b@);
    lemma_non_blank_append(lines(a@), lines(b@));
}

/// Of a text without a line feed nothing is kept where all of it is white space,
/// and else the text, trimmed.
pub proof fn law_kept_line(s: &str, kept: Vec<String>, t: &str)
    requires
        call_ensures(non_blank_lines, (s,), kept),
        call_ensures(trim, (s,), t),
        !s@.contains('\n'),
    ensures
        (forall|i: int| 0 <= i < s@.len() ==> is_white_space_spec(#[trigger] s@[i]))
            ==> kept.deep_view() == Seq::<Seq<char>>::empty(),
        (exists|i: int| 0 <= i < s@.len() && !is_white_space_spec(#[trigger] s@[i]))
            ==> kept.deep_view() == seq![t@],
{
    law_single_line(s@);
    lemma_blank(s@);
    reveal_with_fuel(trimmed_non_blank, 2);
    assert(seq![s@].drop_last() =~= Seq::<Seq<char>>::empty());
    assert(seq![s@].last() == s@);
    if trimmed(s@).len() > 0 {
        assert(kept.deep_view() =~= seq![t@]);
    }
}

/// Every line that is not blank is kept, trimmed, and nothing else is: the lines
/// at the positions `at`, one after the other, are all those that hold something
/// but white space.
pub proof fn law_every_line_is_kept(s: &str, kept: Vec<String>)
    requires
        call_ensures(non_blank_lines, (s,), kept),
    ensures
        exists|at: Seq<int>|
            {
                &&& #[trigger] at.len() == kept.len()
                &&& forall|j: int, k: int| 0 <= j < k < at.len() ==> #[trigger] at[j] < #[trigger] at[k]
                &&& forall|j: int|
                    0 <= j < at.len() ==> 0 <= #[trigger] at[j] < lines(s@).len() && kept[j]@
                        == trimmed(lines(s@)[at[j]])
                &&& forall|i: int|
                    0 <= i < lines(s@).len() ==> (at.contains(i) <==> exists|m: int|
                        0 <= m < (#[trigger] lines(s@)[i]).len() && !is_white_space_spec(
                            #[trigger] lines(s@)[i][m],
                        ))
            },
{
    let at = lemma_kept_positions(lines(s@));
    assert(kept.deep_view().len() == kept.len());
    assert forall|j: int| 0 <= j < at.len() implies 0 <= #[trigger] at[j] < lines(s@).len()
        && kept[j]@ == trimmed(lines(s@)[at[j]]) by {
        assert(kept.deep_view()[j] == kept[j]@);
    }
    assert forall|i: int| 0 <= i < lines(s@).len() implies (at.contains(i) <==> exists|m: int|
        0 <= m < (#[trigger] lines(s@)[i]).len() && !is_white_space_spec(
            #[trigger] lines(s@)[i][m],
        )) by {
        lemma_blank(lines(s@)[i]);
    }
    assert(at.len() == kept.len());
}

proof fn lemma_kept_positions(lines: Seq<Seq<char>>) -> (at: Seq<int>)
    ensures
        at.len() == trimmed_non_blank(lines).len(),
        forall|j: int, k: int| 0 <= j < k < at.len() ==> #[trigger] at[j] < #[trigger] at[k],
        forall|j: int|
            0 <= j < at.len() ==> 0 <= #[trigger] at[j] < lines.len() && trimmed_non_blank(lines)[j]
                == trimmed(lines[at[j]]),
        forall|i: int|
            0 <= i < lines.len() ==> (at.contains(i) <==> trimmed(#[trigger] lines[i]).len() > 0),
    decreases lines.len(),
{
    if lines.len() == 0 {
        Seq::empty()
    } else {
        let rest = lines.drop_last();
        let n = rest.len() as int;
        let before = lemma_kept_positions(rest);
        let at = if trimmed(lines.last()).len() == 0 {
            before
        } else {
            before.push(n)
        };
        assert forall|i: int| 0 <= i < lines.len() implies (at.contains(i) <==> trimmed(
            #[trigger] lines[i],
        ).len() > 0) by {
            if i < n {
                assert(rest[i] == lines[i]);
                if before.contains(i) {
                    let j = choose|j: int| 0 <= j < before.len() && before[j] == i;
                    assert(at[j] == i);
                }
                if at.contains(i) {
                    let j = choose|j: int| 0 <= j < at.len() && at[j] == i;
                    assert(before[j] == i);
                }
            } else {
                if trimmed(lines.last()).len() > 0 {
                    assert(at[before.len() as int] == n);
                } else if at.contains(i) {
                    let j = choose|j: int| 0 <= j < at.len() && at[j] == i;
                    assert(before[j] < n);
                }
            }
        }
        assert forall|j: int| 0 <= j < at.len() implies 0 <= #[trigger] at[j] < lines.len()
            && trimmed_non_blank(lines)[j] == trimmed(lines[at[j]]) by {
            if j < before.len() {
                assert(before[j] == at[j]);
                assert(rest[before[j]] == lines[before[j]]);
            }
        }
        at
    }
}

/// Joined parts stand side by side: joining two groups of them joins the one,
/// then puts the separator, then joins the other. A single part stays as it is,
/// and of none nothing comes.
pub proof fn law_joined(a: Seq<Seq<char>>, b: Seq<Seq<char>>, part: Seq<char>, separator: Seq<char>)
    ensures
        joined(Seq::empty(), separator) == Seq::<char>::empty(),
        joined(seq![part], separator) == part,
        a.len() > 0 && b.len() > 0 ==> joined(a + b, separator) == joined(a, separator) + separator
            + joined(b, separator),
    decreases b.len(),
{
    if a.len() > 0 && b.len() > 0 {
        let rest = b.drop_last();
        law_joined(a, rest, part, separator);
        assert((a + b).drop_last() =~= a + rest);
        assert((a + b).last() == b.last());
        if rest.len() == 0 {
            assert(a + rest =~= a);
        }
        assert(joined(a + b, separator) =~= joined(a, separator) + separator + joined(
            b,
            separator,
        ));
    }
}

/// A digit more makes the number ten times as large, and adds the digit. Where
/// there was no number already, there is none then, unless the digit is the
/// first.
pub proof fn law_digits_count(s: &str, n: Option<u32>, t: &str, m: Option<u32>, c: char)
    requires
        call_ensures(parse_u32, (s,), n),
        call_ensures(parse_u32, (t,), m),
        t@ == s@.push(c),
    ensures
        !('0' <= c <= '9') ==> m is None,
        '0' <= c <= '9' && (s@.len() == 0 || s@ == seq!['+']) ==> m == Some(
            (c as u32 - '0' as u32) as u32,
        ),
        '0' <= c <= '9' && s@.len() > 0 && s@ != seq!['+'] ==> m == match n {
            Some(v) if 10 * v + (c as u32 - '0' as u32) <= u32::MAX => Some(
                (10 * v + (c as u32 - '0' as u32)) as u32,
            ),
            _ => None,
        },
{
    let signed = t@[0] == '+';
    let d = if signed && t@.len() > 1 {
        t@.drop_first()
    } else {
        t@
    };
    if signed && s@.len() == 0 {
        assert(t@.drop_first() =~= Seq::empty());
    } else {
        let e = if signed {
            s@.drop_first()
        } else {
            s@
        };
        assert(d =~= e.push(c));
        assert(d.drop_last() =~= e);
        assert(d.last() == c);
        assert(signed ==> s@[0] == '+');
        assert(!signed && s@.len() > 0 ==> s@[0] != '+');
        assert(parsed_u32(t@) == parsed_digits(d));
        assert(digits_value(d) == 10 * digits_value(e) + (c as nat - '0' as nat) as nat);
        if signed && e.len() == 0 {
            assert(s@ =~= seq!['+']);
        }
        if s@ == seq!['+'] {
            assert(e =~= Seq::empty());
        }
        if all_digits(d) {
            assert forall|i: int| 0 <= i < e.len() implies is_digit(#[trigger] e[i]) by {
                assert(d[i] == e[i]);
            }
            assert(is_digit(d[e.len() as int]));
        } else if all_digits(e) && is_digit(c) {
            assert forall|i: int| 0 <= i < d.len() implies is_digit(#[trigger] d[i]) by {
                if i < e.len() {
                    assert(d[i] == e[i]);
                }
            }
        }
    }
}

/// The empty text is no number.
pub proof fn law_no_digits_no_number(s: &str, n: Option<u32>)
    requires
        call_ensures(parse_u32, (s,), n),
        s@.len() == 0,
    ensures
        n is None,
{
}

/// A number in decimal consists of digits, the first of them 0 only for 0
/// itself, and reads back as the number.
pub proof fn law_decimal(n: u32, text: String, s: &str, m: Option<u32>)
    requires
        call_ensures(decimal, (n,), text),
        call_ensures(parse_u32, (s,), m),
        s@ == text@,
    ensures
        m == Some(n),
        forall|i: int| 0 <= i < text@.len() ==> '0' <= #[trigger] text@[i] <= '9',
        text@[0] == '0' ==> n == 0 && text@.len() == 1,
{
    law_decimal_round_trip(n);
    lemma_decimal_text(n as nat);
    lemma_no_leading_zero(n as nat);
    assert forall|i: int| 0 <= i < text@.len() implies '0' <= #[trigger] text@[i] <= '9' by {
        assert(is_digit(decimal_text(n as nat)[i]));
    }
}

proof fn lemma_no_leading_zero(n: nat)
    ensures
        decimal_text(n).len() > 0,
        decimal_text(n)[0] == '0' ==> n == 0 && decimal_text(n).len() == 1,
    decreases n,
{
    if n >= 10 {
        lemma_no_leading_zero(n / 10);
        assert(decimal_text(n)[0] == decimal_text(n / 10)[0]);
    }
}

} // verus!
