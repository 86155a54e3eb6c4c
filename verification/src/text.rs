//! Text comparisons and decimal numbers.
use vstd::prelude::*;
use vstd::string::StringExecFns;
use vstd::string::StrSliceExecFns;

verus! {

/// An ASCII capital letter in lower case, any other character unchanged.
pub open spec fn ascii_lower(c: char) -> char {
    if 'A' <= c && c <= 'Z' {
        ((c as u32) + 32) as char
    } else {
        c
    }
}

/// A text with its ASCII capital letters in lower case.
pub open spec fn lowered(text: Seq<char>) -> Seq<char> {
    text.map_values(|c: char| ascii_lower(c))
}

fn lower_char(c: char) -> (lower: char)
    ensures
        lower == ascii_lower(c),
{
    if 'A' <= c && c <= 'Z' {
        (c as u8 + 32) as char
    } else {
        c
    }
}

/// Whether `text`, in lower case, is `expected`.
pub fn lowered_equals(text: &str, expected: &str) -> (equal: bool)
    ensures
        equal == (lowered(text@) == expected@),
{
    let length: usize = text.unicode_len();
    if length != expected.unicode_len() {
        assert(lowered(text@).len() == text@.len());
        return false;
    }
    let equal: bool = lowered_starts_with(text, expected);
    assert(lowered(text@).take(expected@.len() as int) =~= lowered(text@));
    equal
}

/// Whether `text`, in lower case, starts with `prefix`.
pub fn lowered_starts_with(text: &str, prefix: &str) -> (starts: bool)
    ensures
        starts == (text@.len() >= prefix@.len() && lowered(text@).take(prefix@.len() as int)
            == prefix@),
{
    let length: usize = prefix.unicode_len();
    if text.unicode_len() < length {
        return false;
    }
    let ghost front = lowered(text@).take(length as int);
    let mut i: usize = 0;
    while i < length
        invariant
            i <= length,
            length == prefix@.len(),
            length <= text@.len(),
            front == lowered(text@).take(length as int),
            forall|j: int| 0 <= j < i ==> #[trigger] front[j] == prefix@[j],
        decreases length - i,
    {
        let c: char = lower_char(text.get_char(i));
        assert(front[i as int] == c);
        if c != prefix.get_char(i) {
            return false;
        }
        i = i + 1;
    }
    assert(front =~= prefix@);
    true
}

/// `String::from_utf8`: the text that bytes encode in UTF-8; none for bytes that encode
/// no text.
#[verifier::external_body]
pub(crate) fn string_from_utf8(bytes: Vec<u8>) -> (text: Option<String>)
    ensures
        match text {
            Some(decoded) => vstd::utf8::valid_utf8(bytes@) && decoded@
                == vstd::utf8::decode_utf8(bytes@),
            None => !vstd::utf8::valid_utf8(bytes@),
        },
{
    String::from_utf8(bytes).ok()
}

/// The character of a digit.
pub open spec fn digit(value: nat) -> char {
    (('0' as nat) + value) as char
}

/// A number in decimal.
pub open spec fn decimal(value: nat) -> Seq<char>
    decreases value,
{
    if value < 10 {
        seq![digit(value)]
    } else {
        decimal(value / 10).push(digit(value % 10))
    }
}

fn digit_text(value: u64) -> (text: &'static str)
    requires
        value < 10,
    ensures
        text@ == seq![digit(value as nat)],
{
    proof {
        reveal_strlit("0");
        reveal_strlit("1");
        reveal_strlit("2");
        reveal_strlit("3");
        reveal_strlit("4");
        reveal_strlit("5");
        reveal_strlit("6");
        reveal_strlit("7");
        reveal_strlit("8");
        reveal_strlit("9");
    }
    match value {
        0 => "0",
        1 => "1",
        2 => "2",
        3 => "3",
        4 => "4",
        5 => "5",
        6 => "6",
        7 => "7",
        8 => "8",
        _ => "9",
    }
}

/// Writes a number in decimal at the end of a text.
pub fn append_decimal(out: &mut String, value: u64)
    ensures
        final(out)@ == old(out)@ + decimal(value as nat),
    decreases value,
{
    if value >= 10 {
        append_decimal(out, value / 10);
    }
    out.append(digit_text(value % 10));
    proof {
        if value >= 10 {
            assert(decimal(value as nat) == decimal((value / 10) as nat).push(
                digit((value % 10) as nat),
            ));
            assert(out@ =~= old(out)@ + decimal(value as nat));
        }
    }
}

/// Lowering changes capital letters to the small ones, which stand 32 places behind them, and
/// nothing else. Text that is lowered once more stays.
pub proof fn law_lowering_changes_capitals_only(text: Seq<char>, i: int)
    requires
        0 <= i < text.len(),
    ensures
        lowered(text).len() == text.len(),
        65 <= text[i] as int <= 90 ==> lowered(text)[i] as int == text[i] as int + 32,
        !(65 <= text[i] as int <= 90) ==> lowered(text)[i] == text[i],
        lowered(lowered(text)) == lowered(text),
{
    assert(lowered(lowered(text)) =~= lowered(text));
}

/// A number is spelled with digits, the last of which is its remainder by ten, behind the
/// spelling of the rest. Only zero begins with a zero, and no two numbers are spelled alike.
pub proof fn law_numbers_are_spelled_in_decimal(value: nat, other: nat)
    ensures
        decimal(value).len() > 0,
        forall|i: int|
            0 <= i < decimal(value).len() ==> 48 <= (#[trigger] decimal(value)[i]) as int <= 57,
        decimal(value).last() as int - 48 == value as int % 10,
        value >= 10 ==> decimal(value).drop_last() == decimal(value / 10),
        value > 0 ==> decimal(value)[0] as int > 48,
        decimal(value) == decimal(other) ==> value == other,
    decreases value,
{
    lemma_spelling(value);
    lemma_spelling(other);
    if decimal(value) == decimal(other) {
        assert(value % 10 == other % 10);
        if value >= 10 && other >= 10 {
            law_numbers_are_spelled_in_decimal(value / 10, other / 10);
        }
        if value >= 10 && other < 10 {
            lemma_spelling(value / 10);
        }
        if other >= 10 && value < 10 {
            lemma_spelling(other / 10);
        }
    }
}

proof fn lemma_spelling(value: nat)
    ensures
        decimal(value).len() > 0,
        value >= 10 ==> decimal(value).len() > 1,
        value < 10 ==> decimal(value).len() == 1,
        forall|i: int|
            0 <= i < decimal(value).len() ==> 48 <= (#[trigger] decimal(value)[i]) as int <= 57,
        decimal(value).last() as int - 48 == value as int % 10,
        value >= 10 ==> decimal(value).drop_last() == decimal(value / 10),
        value > 0 ==> decimal(value)[0] as int > 48,
    decreases value,
{
    if value >= 10 {
        lemma_spelling(value / 10);
        assert(decimal(value).drop_last() =~= decimal(value / 10));
        assert(decimal(value)[0] == decimal(value / 10)[0]);
    }
}

} // verus!
