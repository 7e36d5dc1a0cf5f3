//! JSON text, as a hook prints it.

use vstd::prelude::*;

verus! {

/// A hexadecimal digit, in lower case.
pub open spec fn hex_digit(d: nat) -> char {
    if d < 10 {
        ('0' as u32 + d) as char
    } else {
        ('a' as u32 + (d - 10)) as char
    }
}

/// How `c` is written inside a JSON string.
pub open spec fn escaped_char(c: char) -> Seq<char> {
    if c == '"' || c == '\\' {
        seq!['\\', c]
    } else if c == '\u{8}' {
        seq!['\\', 'b']
    } else if c == '\u{9}' {
        seq!['\\', 't']
    } else if c == '\u{a}' {
        seq!['\\', 'n']
    } else if c == '\u{c}' {
        seq!['\\', 'f']
    } else if c == '\u{d}' {
        seq!['\\', 'r']
    } else if c <= '\u{1f}' {
        seq!['\\', 'u', '0', '0', hex_digit(c as nat / 16), hex_digit(c as nat % 16)]
    } else {
        seq![c]
    }
}

/// How `s` is written inside a JSON string.
pub open spec fn escaped(s: Seq<char>) -> Seq<char>
    decreases s.len(),
{
    if s.len() == 0 {
        Seq::empty()
    } else {
        escaped_char(s[0]) + escaped(s.drop_first())
    }
}

/// The JSON string for `s`.
pub open spec fn string_text(s: Seq<char>) -> Seq<char> {
    seq!['"'] + escaped(s) + seq!['"']
}

/// The JSON object with a single member, whose value is written `value`.
pub open spec fn object_text(member: Seq<char>, value: Seq<char>) -> Seq<char> {
    seq!['{'] + string_text(member) + seq![':'] + value + seq!['}']
}

/// `Display` of `serde_json::Value` for the value
/// `{ <object>: { <member>: <text> } }`: JSON without white space between the
/// tokens. In strings the quote, the backslash and the control characters up to
/// U+001F are escaped, and nothing else.
#[verifier::external_body]
pub(crate) fn nested_object(object: &str, member: &str, text: &str) -> (json: String)
    ensures
        json@ == object_text(object@, object_text(member@, string_text(text@))),
{
    let mut inner = serde_json::Map::new();
    inner.insert(member.to_owned(), serde_json::Value::String(text.to_owned()));
    let mut outer = serde_json::Map::new();
    outer.insert(object.to_owned(), serde_json::Value::Object(inner));
    serde_json::Value::Object(outer).to_string()
}

/// The character that the escape sequence at the start of `s` stands for, and
/// the length of the sequence.
pub open spec fn unescaped_char(s: Seq<char>) -> (char, nat) {
    if s[0] != '\\' {
        (s[0], 1)
    } else if s[1] == 'b' {
        ('\u{8}', 2)
    } else if s[1] == 't' {
        ('\u{9}', 2)
    } else if s[1] == 'n' {
        ('\u{a}', 2)
    } else if s[1] == 'f' {
        ('\u{c}', 2)
    } else if s[1] == 'r' {
        ('\u{d}', 2)
    } else if s[1] == 'u' {
        ((4096 * hex_digit_value(s[2]) + 256 * hex_digit_value(s[3]) + 16 * hex_digit_value(s[4])
            + hex_digit_value(s[5])) as char, 6)
    } else {
        (s[1], 2)
    }
}

pub open spec fn hex_digit_value(c: char) -> nat {
    match crate::id::hex_value(c) {
        Some(d) => d,
        None => 0,
    }
}

/// What the inside of a JSON string stands for.
pub open spec fn unescaped(s: Seq<char>) -> Seq<char>
    decreases s.len(),
{
    let (c, n) = unescaped_char(s);
    if s.len() == 0 {
        Seq::empty()
    } else if n > s.len() {
        Seq::empty()
    } else {
        seq![c] + unescaped(s.skip(n as int))
    }
}

proof fn lemma_escaped_char(c: char, rest: Seq<char>)
    ensures
        unescaped_char(escaped_char(c) + rest) == (c, escaped_char(c).len()),
        forall|i: int| 0 <= i < escaped_char(c).len() ==> #[trigger] escaped_char(c)[i] >= ' ',
{
    let s = escaped_char(c) + rest;
    let n = c as nat;
    assert(s[0] == escaped_char(c)[0]);
    if escaped_char(c).len() >= 2 {
        assert(s[1] == escaped_char(c)[1]);
    }
    if escaped_char(c).len() == 6 {
        assert(n < 32);
        assert(s[2] == '0' && s[3] == '0');
        assert(s[4] == hex_digit(n / 16) && s[5] == hex_digit(n % 16));
        assert(hex_digit_value('0') == 0);
        assert(hex_digit_value(hex_digit(n / 16)) == n / 16);
        assert(hex_digit_value(hex_digit(n % 16)) == n % 16);
        assert(16 * (n / 16) + n % 16 == n);
    }
}

/// Text in a JSON string reads back as it was.
pub proof fn law_string_reads_back(s: Seq<char>)
    ensures
        unescaped(escaped(s)) == s,
    decreases s.len(),
{
    if s.len() > 0 {
        let head = escaped_char(s[0]);
        let tail = escaped(s.drop_first());
        law_string_reads_back(s.drop_first());
        assert(head + tail == escaped(s));
        assert((head + tail).skip(head.len() as int) =~= tail);
        lemma_escaped_char(s[0], tail);
        assert(seq![s[0]] + s.drop_first() =~= s);
    }
}

/// A JSON string holds no control character up to U+001F, so it takes a single
/// line.
pub proof fn law_string_is_one_line(s: Seq<char>)
    ensures
        forall|i: int| 0 <= i < string_text(s).len() ==> #[trigger] string_text(s)[i] >= ' ',
{
    lemma_escaped_is_one_line(s);
}

proof fn lemma_escaped_is_one_line(s: Seq<char>)
    ensures
        forall|i: int| 0 <= i < escaped(s).len() ==> #[trigger] escaped(s)[i] >= ' ',
    decreases s.len(),
{
    if s.len() > 0 {
        lemma_escaped_is_one_line(s.drop_first());
        lemma_escaped_char(s[0], escaped(s.drop_first()));
    }
}

/// Text is written into a JSON string piece by piece, and what is no quote, no
/// backslash and no control character up to U+001F is written as it is.
pub proof fn law_escaped_piece_by_piece(a: Seq<char>, b: Seq<char>)
    ensures
        escaped(a + b) == escaped(a) + escaped(b),
        (forall|i: int|
            0 <= i < a.len() ==> #[trigger] a[i] > '\u{1f}' && a[i] != '"' && a[i] != '\\')
            ==> escaped(a) == a,
    decreases a.len(),
{
    if a.len() == 0 {
        assert(a + b =~= b);
        assert(escaped(a + b) =~= escaped(a) + escaped(b));
        assert(escaped(a) =~= a);
    } else {
        let rest = a.drop_first();
        law_escaped_piece_by_piece(rest, b);
        assert((a + b).drop_first() =~= rest + b);
        assert(escaped(a + b) =~= escaped(a) + escaped(b));
        if forall|i: int|
            0 <= i < a.len() ==> #[trigger] a[i] > '\u{1f}' && a[i] != '"' && a[i] != '\\' {
            assert forall|i: int| 0 <= i < rest.len() implies #[trigger] rest[i] > '\u{1f}'
                && rest[i] != '"' && rest[i] != '\\' by {
                assert(rest[i] == a[i + 1]);
            }
            assert(a[0] > '\u{1f}');
            assert(escaped(a) =~= a);
        }
    }
}

/// How each of the other characters is written: the quote and the backslash
/// after a backslash, five control characters by a letter, and the rest by
/// number.
pub proof fn law_escapes(c: char)
    ensures
        c == '"' ==> escaped(seq![c]) == seq!['\\', '"'],
        c == '\\' ==> escaped(seq![c]) == seq!['\\', '\\'],
        c as u32 == 8 ==> escaped(seq![c]) == seq!['\\', 'b'],
        c as u32 == 9 ==> escaped(seq![c]) == seq!['\\', 't'],
        c as u32 == 10 ==> escaped(seq![c]) == seq!['\\', 'n'],
        c as u32 == 12 ==> escaped(seq![c]) == seq!['\\', 'f'],
        c as u32 == 13 ==> escaped(seq![c]) == seq!['\\', 'r'],
        (c as u32) < 32 && !(8 <= c as u32 <= 10) && !(12 <= c as u32 <= 13) ==> {
            let e = escaped(seq![c]);
            &&& e.len() == 6
            &&& e.take(4) == seq!['\\', 'u', '0', '0']
            &&& e[4] as int - '0' as int == c as int / 16
            &&& e[5] as int == c as int % 16 + if c as int % 16 < 10 {
                '0' as int
            } else {
                'a' as int - 10
            }
        },
{
    reveal_with_fuel(escaped, 2);
    assert(seq![c].drop_first() =~= Seq::<char>::empty());
    let e = escaped(seq![c]);
    assert(e =~= escaped_char(c));
    if (c as u32) < 32 && !(8 <= c as u32 <= 10) && !(12 <= c as u32 <= 13) {
        assert(e.take(4) =~= seq!['\\', 'u', '0', '0']);
    }
}

/// A JSON string is the text as it is written into one, between quotes, and an
/// object with a single member is the member's name, as a string, and its value
/// after a colon, between braces.
pub proof fn law_object(member: Seq<char>, value: Seq<char>)
    ensures
        string_text(value).len() == escaped(value).len() + 2,
        string_text(value)[0] == '"' && string_text(value).last() == '"',
        string_text(value).subrange(1, string_text(value).len() - 1) == escaped(value),
        ({
            let text = object_text(member, value);
            let name = string_text(member);
            let n = name.len() as int;
            &&& text.len() == name.len() + value.len() + 3
            &&& text[0] == '{' && text.last() == '}'
            &&& text.subrange(1, n + 1) == name
            &&& text[n + 1] == ':'
            &&& text.subrange(n + 2, text.len() - 1) == value
        }),
{
    let text = object_text(member, value);
    let name = string_text(member);
    let n = name.len() as int;
    assert(string_text(value).subrange(1, string_text(value).len() - 1) =~= escaped(value));
    assert(text.subrange(1, n + 1) =~= name);
    assert(text.subrange(n + 2, text.len() - 1) =~= value);
}

} // verus!
