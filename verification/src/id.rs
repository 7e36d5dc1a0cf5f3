//! Identifiers of commits and changes, as jj writes them.

use vstd::prelude::*;

verus! {

/// How much of a change's identifier is shown.
pub const SHORT_ID_LEN: usize = 12;

/// The digit for `d` in the identifier of a change: `z` for 0 down to `k` for 15.
pub open spec fn reverse_hex_digit(d: nat) -> char {
    ('z' as u32 - d) as char
}

/// The identifier of a change as jj shows it: two digits for each byte.
pub open spec fn reverse_hex_text(id: Seq<u8>) -> Seq<char> {
    Seq::new(
        2 * id.len(),
        |i: int|
            if i % 2 == 0 {
                reverse_hex_digit((id[i / 2] / 16) as nat)
            } else {
                reverse_hex_digit((id[i / 2] % 16) as nat)
            },
    )
}

/// The part of a change's identifier that is shown.
pub open spec fn short_id(id: Seq<u8>) -> Seq<char> {
    let text = reverse_hex_text(id);
    if text.len() <= SHORT_ID_LEN {
        text
    } else {
        text.take(SHORT_ID_LEN as int)
    }
}

/// `ChangeId`'s `Display` in jj-lib: the identifier's bytes, two digits each,
/// with `z` to `k` for digits.
#[verifier::external_body]
fn change_id_text(id: &Vec<u8>) -> (text: String)
    ensures
        text@ == reverse_hex_text(id@),
{
    jj_lib::backend::ChangeId::from_bytes(id).to_string()
}

/// The part that is shown of the identifier of the change `id`.
pub fn change_id_short(id: &Vec<u8>) -> (short: String)
    ensures
        short@ == short_id(id@),
{
    let full = change_id_text(id);
    proof {
        assert forall|i: int| 0 <= i < full@.len() implies '\0' <= #[trigger] full@[i]
            <= '\u{7f}' by {
            let b = id@[i / 2];
            assert(b / 16 < 16 && b % 16 < 16);
        }
    }
    let text = full.as_str();
    let len = text.unicode_len();
    let end: usize = if len <= SHORT_ID_LEN {
        len
    } else {
        SHORT_ID_LEN
    };
    let short = text.substring_ascii(0, end);
    assert(short@ =~= short_id(id@));
    short.to_owned()
}

/// The value of a hexadecimal digit.
pub open spec fn hex_value(c: char) -> Option<nat> {
    if '0' <= c <= '9' {
        Some((c as nat - '0' as nat) as nat)
    } else if 'a' <= c <= 'f' {
        Some((c as nat - 'a' as nat + 10) as nat)
    } else if 'A' <= c <= 'F' {
        Some((c as nat - 'A' as nat + 10) as nat)
    } else {
        None
    }
}

/// The bytes that `hex` spells, two hexadecimal digits for each.
pub open spec fn decoded_hex(hex: Seq<char>) -> Option<Seq<u8>> {
    if hex.len() % 2 == 0 && (forall|i: int|
        0 <= i < hex.len() ==> hex_value(#[trigger] hex[i]) is Some) {
        Some(
            Seq::new(
                hex.len() / 2,
                |i: int|
                    (16 * hex_value(hex[2 * i])->Some_0 + hex_value(hex[2 * i + 1])->Some_0) as u8,
            ),
        )
    } else {
        None
    }
}

/// `CommitId::try_from_hex` of jj-lib: the bytes that the text spells, where it
/// consists of pairs of hexadecimal digits, in lower or in upper case.
#[verifier::external_body]
pub(crate) fn commit_id_from_hex(hex: &str) -> (id: Option<Vec<u8>>)
    ensures
        id is Some <==> decoded_hex(hex@) is Some,
        id matches Some(bytes) ==> decoded_hex(hex@) == Some(bytes@),
{
    match jj_lib::backend::CommitId::try_from_hex(hex.as_bytes()) {
        Some(id) => Some(jj_lib::object_id::ObjectId::to_bytes(&id)),
        None => None,
    }
}

proof fn lemma_reverse_hex_digit(d: nat)
    requires
        d < 16,
    ensures
        reverse_hex_digit(d) as int == 'z' as int - d,
{
}

/// Two changes that are shown alike in full have the same identifier.
pub proof fn law_change_id_text_is_unique(a: Seq<u8>, b: Seq<u8>)
    requires
        reverse_hex_text(a) == reverse_hex_text(b),
    ensures
        a == b,
{
    assert(2 * a.len() == reverse_hex_text(a).len());
    assert(2 * b.len() == reverse_hex_text(b).len());
    assert forall|i: int| 0 <= i < a.len() implies a[i] == b[i] by {
        let (x, y) = (a[i], b[i]);
        assert((2 * i) / 2 == i && (2 * i + 1) / 2 == i);
        assert(reverse_hex_text(a)[2 * i] == reverse_hex_digit((x / 16) as nat));
        assert(reverse_hex_text(b)[2 * i] == reverse_hex_digit((y / 16) as nat));
        assert(reverse_hex_text(a)[2 * i + 1] == reverse_hex_digit((x % 16) as nat));
        assert(reverse_hex_text(b)[2 * i + 1] == reverse_hex_digit((y % 16) as nat));
        lemma_reverse_hex_digit((x / 16) as nat);
        lemma_reverse_hex_digit((y / 16) as nat);
        lemma_reverse_hex_digit((x % 16) as nat);
        lemma_reverse_hex_digit((y % 16) as nat);
        assert(x / 16 == y / 16 && x % 16 == y % 16);
    }
    assert(a =~= b);
}

/// What is shown of a change's identifier are its first six bytes, or all of
/// them where it has fewer: for each byte the digit of its upper half and that
/// of its lower one, counted down from `z`.
pub proof fn law_change_id_short(id: Vec<u8>, short: String)
    requires
        call_ensures(change_id_short, (&id,), short),
    ensures
        short@.len() == if id.len() < 6 {
            2 * id.len() as int
        } else {
            12
        },
        forall|i: int|
            0 <= i < short@.len() && i % 2 == 0 ==> 'z' as int - #[trigger] short@[i] as int
                == id[i / 2] / 16,
        forall|i: int|
            0 <= i < short@.len() && i % 2 == 1 ==> 'z' as int - #[trigger] short@[i] as int
                == id[i / 2] % 16,
{
    assert forall|i: int| 0 <= i < short@.len() && i % 2 == 0 implies 'z' as int
        - #[trigger] short@[i] as int == id[i / 2] / 16 by {
        lemma_reverse_hex_digit((id@[i / 2] / 16) as nat);
    }
    assert forall|i: int| 0 <= i < short@.len() && i % 2 == 1 implies 'z' as int
        - #[trigger] short@[i] as int == id[i / 2] % 16 by {
        lemma_reverse_hex_digit((id@[i / 2] % 16) as nat);
    }
}

/// A text is a commit's identifier just when it has an even number of
/// characters, all of them hexadecimal digits, in either case.
pub proof fn law_hex_is_pairs_of_digits(hex: Seq<char>)
    ensures
        decoded_hex(hex) is Some <==> hex.len() % 2 == 0 && forall|i: int|
            0 <= i < hex.len() ==> {
                ||| '0' <= #[trigger] hex[i] <= '9'
                ||| 'a' <= hex[i] <= 'f'
                ||| 'A' <= hex[i] <= 'F'
            },
{
    if decoded_hex(hex) is Some {
        assert forall|i: int| 0 <= i < hex.len() implies {
            ||| '0' <= #[trigger] hex[i] <= '9'
            ||| 'a' <= hex[i] <= 'f'
            ||| 'A' <= hex[i] <= 'F'
        } by {
            assert(hex_value(hex[i]) is Some);
        }
    }
}

/// Of the bytes that a text spells, each has its upper half from one digit and
/// its lower half from the next: `0` to `9` for as many, and the letters from
/// `a`, in either case, for 10 and on.
pub proof fn law_hex_digits_are_half_bytes(hex: Seq<char>, bytes: Seq<u8>, i: int)
    requires
        decoded_hex(hex) == Some(bytes),
        0 <= i < hex.len(),
    ensures
        2 * bytes.len() == hex.len(),
        ({
            let half: int = if i % 2 == 0 {
                bytes[i / 2] as int / 16
            } else {
                bytes[i / 2] as int % 16
            };
            &&& '0' <= hex[i] <= '9' ==> half == hex[i] as int - '0' as int
            &&& 'a' <= hex[i] <= 'f' ==> half == hex[i] as int - 'a' as int + 10
            &&& 'A' <= hex[i] <= 'F' ==> half == hex[i] as int - 'A' as int + 10
        }),
{
    let j = i / 2;
    assert(hex_value(hex[2 * j]) is Some);
    assert(hex_value(hex[2 * j + 1]) is Some);
    let high = hex_value(hex[2 * j])->Some_0;
    let low = hex_value(hex[2 * j + 1])->Some_0;
    assert(high < 16 && low < 16);
    assert(bytes[j] == (16 * high + low) as u8);
    assert(bytes[j] as int / 16 == high && bytes[j] as int % 16 == low);
}

} // verus!
