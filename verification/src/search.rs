//! Finding text in bytes and reading decimal numbers from it.
use crate::text::{decimal, law_numbers_are_spelled_in_decimal};
use vstd::prelude::*;

verus! {

/// Whether `pattern` stands at position `at` of `text`.
pub open spec fn occurs_at(text: Seq<u8>, pattern: Seq<u8>, at: int) -> bool {
    &&& 0 <= at
    &&& at + pattern.len() <= text.len()
    &&& text.subrange(at, at + pattern.len()) == pattern
}

/// Whether `found` is the first position of `pattern` from `from` on.
pub open spec fn is_first_match(
    text: Seq<u8>,
    pattern: Seq<u8>,
    from: int,
    found: Option<usize>,
) -> bool {
    match found {
        Some(at) => {
            &&& from <= at
            &&& occurs_at(text, pattern, at as int)
            &&& forall|j: int| from <= j < at ==> !#[trigger] occurs_at(text, pattern, j)
        },
        None => forall|j: int| from <= j ==> !#[trigger] occurs_at(text, pattern, j),
    }
}

fn matches_at(text: &[u8], pattern: &[u8], at: usize) -> (matches: bool)
    requires
        at + pattern@.len() <= text@.len(),
    ensures
        matches == occurs_at(text@, pattern@, at as int),
{
    let ghost part = text@.subrange(at as int, at + pattern@.len());
    let length: usize = text.len();
    let mut i: usize = 0;
    while i < pattern.len()
        invariant
            i <= pattern@.len(),
            at + pattern@.len() <= text@.len(),
            length == text@.len(),
            part == text@.subrange(at as int, at + pattern@.len()),
            forall|j: int| 0 <= j < i ==> #[trigger] part[j] == pattern@[j],
        decreases pattern@.len() - i,
    {
        assert(part[i as int] == text@[at + i]);
        if text[at + i] != pattern[i] {
            return false;
        }
        i = i + 1;
    }
    assert(part =~= pattern@);
    true
}

/// Whether `text` starts with `pattern`.
pub fn starts_with(text: &[u8], pattern: &[u8]) -> (starts: bool)
    ensures
        starts == occurs_at(text@, pattern@, 0),
{
    if text.len() < pattern.len() {
        return false;
    }
    matches_at(text, pattern, 0)
}

/// The first position of `pattern` from `from` on.
pub fn find(text: &[u8], pattern: &[u8], from: usize) -> (found: Option<usize>)
    requires
        from <= text@.len(),
    ensures
        is_first_match(text@, pattern@, from as int, found),
{
    if text.len() < pattern.len() || from > text.len() - pattern.len() {
        return None;
    }
    let last: usize = text.len() - pattern.len();
    let mut at: usize = from;
    while at < last
        invariant
            from <= at <= last,
            last == text@.len() - pattern@.len(),
            forall|j: int| from <= j < at ==> !#[trigger] occurs_at(text@, pattern@, j),
        decreases last - at,
    {
        if matches_at(text, pattern, at) {
            return Some(at);
        }
        at = at + 1;
    }
    if matches_at(text, pattern, at) {
        Some(at)
    } else {
        None
    }
}

/// The first position of `pattern` from `from` on.
pub open spec fn first_match(text: Seq<u8>, pattern: Seq<u8>, from: int) -> Option<usize> {
    choose|found: Option<usize>| is_first_match(text, pattern, from, found)
}

/// A first position is the only one.
pub proof fn lemma_first_match(text: Seq<u8>, pattern: Seq<u8>, from: int, found: Option<usize>)
    requires
        is_first_match(text, pattern, from, found),
    ensures
        first_match(text, pattern, from) == found,
{
    let chosen = first_match(text, pattern, from);
    assert(is_first_match(text, pattern, from, chosen));
    match (chosen, found) {
        (Some(a), Some(b)) => {
            if a < b {
                assert(!occurs_at(text, pattern, a as int));
            } else if b < a {
                assert(!occurs_at(text, pattern, b as int));
            }
        },
        (Some(a), None) => {
            assert(!occurs_at(text, pattern, a as int));
        },
        (None, Some(b)) => {
            assert(!occurs_at(text, pattern, b as int));
        },
        (None, None) => {},
    }
}

/// The first position of `pattern` from `from` on.
pub fn find_first(text: &[u8], pattern: &[u8], from: usize) -> (found: Option<usize>)
    requires
        from <= text@.len(),
    ensures
        found == first_match(text@, pattern@, from as int),
        found matches Some(at) ==> from <= at && at + pattern@.len() <= text@.len(),
{
    let found: Option<usize> = find(text, pattern, from);
    proof {
        lemma_first_match(text@, pattern@, from as int, found);
    }
    found
}

/// The bytes of a text.
pub open spec fn text_bytes(text: &str) -> Seq<u8> {
    vstd::utf8::encode_utf8(text@)
}

/// Whether a byte is an ASCII digit.
pub open spec fn is_digit(byte: u8) -> bool {
    48 <= byte <= 57
}

/// The position behind the digits that stand at `from`.
pub open spec fn digits_end(text: Seq<u8>, from: int) -> int
    decreases text.len() - from,
{
    if 0 <= from < text.len() && is_digit(text[from]) {
        digits_end(text, from + 1)
    } else {
        from
    }
}

/// The number that a sequence of digits writes.
pub open spec fn decimal_value(digits: Seq<u8>) -> nat
    decreases digits.len(),
{
    if digits.len() == 0 {
        0
    } else {
        decimal_value(digits.drop_last()) * 10 + (digits.last() - 48) as nat
    }
}

/// The number that the digits at `from` write; none where there is no digit, or where
/// the number does not fit 16 bits.
pub open spec fn u16_at(text: Seq<u8>, from: int) -> Option<u16> {
    let digits = text.subrange(from, digits_end(text, from));
    if digits.len() == 0 || decimal_value(digits) > u16::MAX {
        None
    } else {
        Some(decimal_value(digits) as u16)
    }
}

proof fn lemma_digits_end(text: Seq<u8>, from: int, at: int)
    requires
        0 <= from <= at <= text.len(),
        forall|j: int| from <= j < at ==> is_digit(#[trigger] text[j]),
    ensures
        digits_end(text, from) == digits_end(text, at),
    decreases at - from,
{
    if from < at {
        assert(is_digit(text[from]));
        lemma_digits_end(text, from + 1, at);
    }
}

proof fn lemma_digits_end_bound(text: Seq<u8>, from: int)
    requires
        0 <= from <= text.len(),
    ensures
        from <= digits_end(text, from) <= text.len(),
        forall|j: int| from <= j < digits_end(text, from) ==> is_digit(#[trigger] text[j]),
    decreases text.len() - from,
{
    if from < text.len() && is_digit(text[from]) {
        lemma_digits_end_bound(text, from + 1);
    }
}

proof fn lemma_decimal_grows(digits: Seq<u8>, shorter: int)
    requires
        0 <= shorter <= digits.len(),
    ensures
        decimal_value(digits.take(shorter)) <= decimal_value(digits),
    decreases digits.len(),
{
    if shorter == digits.len() {
        assert(digits.take(shorter) =~= digits);
    } else {
        lemma_decimal_grows(digits.drop_last(), shorter);
        assert(digits.drop_last().take(shorter) =~= digits.take(shorter));
    }
}

/// Reads the number that the digits at `from` write.
pub fn parse_u16_at(text: &[u8], from: usize) -> (value: Option<u16>)
    requires
        from <= text@.len(),
    ensures
        value == u16_at(text@, from as int),
{
    let mut value: u32 = 0;
    let mut at: usize = from;
    let ghost end = digits_end(text@, from as int);
    let ghost digits = text@.subrange(from as int, end);
    proof {
        lemma_digits_end_bound(text@, from as int);
        assert(digits.take(0) =~= Seq::<u8>::empty());
    }
    while at < text.len() && text[at] >= 48 && text[at] <= 57
        invariant
            from <= at <= end <= text@.len(),
            end == digits_end(text@, from as int),
            digits == text@.subrange(from as int, end),
            forall|j: int| from <= j < at ==> is_digit(#[trigger] text@[j]),
            value == decimal_value(digits.take(at - from)),
            value <= u16::MAX,
        decreases text@.len() - at,
    {
        proof {
            lemma_digits_end(text@, from as int, at as int);
            lemma_digits_end_bound(text@, at + 1);
            let next = digits.take(at + 1 - from);
            assert(next.drop_last() =~= digits.take(at - from));
            assert(next.last() == text@[at as int]);
            lemma_decimal_grows(digits, at + 1 - from);
        }
        value = value * 10 + (text[at] - 48) as u32;
        at = at + 1;
        if value > u16::MAX as u32 {
            return None;
        }
    }
    proof {
        lemma_digits_end(text@, from as int, at as int);
        assert(end == at);
        assert(digits.take(at - from) =~= digits);
    }
    if at == from {
        None
    } else {
        Some(value as u16)
    }
}

/// The number that the digits at `from` write; none where there is no digit, or where
/// the number is too large.
pub open spec fn usize_at(text: Seq<u8>, from: int) -> Option<usize> {
    let digits = text.subrange(from, digits_end(text, from));
    if digits.len() == 0 || decimal_value(digits) > usize::MAX {
        None
    } else {
        Some(decimal_value(digits) as usize)
    }
}

/// Reads the number that the digits at `from` write.
pub fn parse_usize_at(text: &[u8], from: usize) -> (value: Option<usize>)
    requires
        from <= text@.len(),
    ensures
        value == usize_at(text@, from as int),
{
    let mut value: usize = 0;
    let mut at: usize = from;
    let ghost end = digits_end(text@, from as int);
    let ghost digits = text@.subrange(from as int, end);
    proof {
        lemma_digits_end_bound(text@, from as int);
        assert(digits.take(0) =~= Seq::<u8>::empty());
    }
    while at < text.len() && text[at] >= 48 && text[at] <= 57
        invariant
            from <= at <= end <= text@.len(),
            end == digits_end(text@, from as int),
            digits == text@.subrange(from as int, end),
            forall|j: int| from <= j < at ==> is_digit(#[trigger] text@[j]),
            value == decimal_value(digits.take(at - from)),
        decreases text@.len() - at,
    {
        proof {
            lemma_digits_end(text@, from as int, at as int);
            lemma_digits_end_bound(text@, at + 1);
            let next = digits.take(at + 1 - from);
            assert(next.drop_last() =~= digits.take(at - from));
            assert(next.last() == text@[at as int]);
            lemma_decimal_grows(digits, at + 1 - from);
        }
        let digit: usize = (text[at] - 48) as usize;
        match value.checked_mul(10) {
            None => {
                return None;
            },
            Some(shifted) => match shifted.checked_add(digit) {
                None => {
                    return None;
                },
                Some(next) => {
                    value = next;
                },
            },
        }
        at = at + 1;
    }
    proof {
        lemma_digits_end(text@, from as int, at as int);
        assert(digits.take(at - from) =~= digits);
    }
    if at == from {
        None
    } else {
        Some(value)
    }
}

/// Digits have the value of the number that they spell.
pub proof fn law_spelled_numbers_are_read_back(value: nat)
    ensures
        decimal_value(decimal(value).map_values(|c: char| c as u8)) == value,
    decreases value,
{
    law_numbers_are_spelled_in_decimal(value, value);
    let spelled = decimal(value).map_values(|c: char| c as u8);
    assert(spelled.last() == decimal(value).last() as u8);
    if value >= 10 {
        law_spelled_numbers_are_read_back(value / 10);
        assert(spelled.drop_last() =~= decimal(value / 10).map_values(|c: char| c as u8));
    } else {
        assert(decimal(value).len() == 1) by {
            assert(decimal(value) == seq![crate::text::digit(value)]);
        }
        assert(spelled.drop_last() =~= Seq::<u8>::empty());
        assert(decimal_value(spelled.drop_last()) == 0);
    }
}

/// A number that is spelled somewhere in a text, and followed by something else than a digit
/// or by the end, is read there, if it is small enough.
pub proof fn law_numbers_are_read_where_they_stand(text: Seq<u8>, from: int, value: nat)
    requires
        ({
            let spelled = decimal(value).map_values(|c: char| c as u8);
            &&& occurs_at(text, spelled, from)
            &&& from + spelled.len() < text.len() ==> !(48 <= text[from + spelled.len()] <= 57)
        }),
    ensures
        value <= u16::MAX ==> u16_at(text, from) == Some(value as u16),
        value > u16::MAX ==> u16_at(text, from) is None,
        value <= usize::MAX ==> usize_at(text, from) == Some(value as usize),
        value > usize::MAX ==> usize_at(text, from) is None,
{
    let spelled = decimal(value).map_values(|c: char| c as u8);
    let end = from + spelled.len();
    law_numbers_are_spelled_in_decimal(value, value);
    law_spelled_numbers_are_read_back(value);
    assert forall|j: int| from <= j < end implies is_digit(#[trigger] text[j]) by {
        assert(text.subrange(from, end)[j - from] == text[j]);
        assert(spelled[j - from] == decimal(value)[j - from] as u8);
    }
    lemma_digits_end(text, from, end);
    assert(digits_end(text, end) == end);
}

/// Where no digit stands, no number is read.
pub proof fn law_no_number_without_digits(text: Seq<u8>, from: int)
    requires
        0 <= from <= text.len(),
        from < text.len() ==> !(48 <= text[from] <= 57),
    ensures
        u16_at(text, from) is None,
        usize_at(text, from) is None,
{
}

/// The first match of a pattern is a place where the pattern stands, letter for letter, and
/// wherever else it stands from the given place on, that is not before.
pub proof fn law_first_match_is_the_first(text: Seq<u8>, pattern: Seq<u8>, from: int, at: int)
    requires
        0 <= from <= at,
        at + pattern.len() <= text.len() <= usize::MAX,
        forall|i: int| 0 <= i < pattern.len() ==> #[trigger] pattern[i] == text[at + i],
    ensures
        first_match(text, pattern, from) matches Some(found) && from <= found <= at && found
            + pattern.len() <= text.len() && forall|i: int|
            0 <= i < pattern.len() ==> #[trigger] pattern[i] == text[found + i],
{
    assert(text.subrange(at, at + pattern.len()) =~= pattern);
    assert(occurs_at(text, pattern, at));
    let found = lemma_earliest(text, pattern, from, at);
    lemma_first_match(text, pattern, from, Some(found as usize));
    assert forall|i: int| 0 <= i < pattern.len() implies #[trigger] pattern[i] == text[found
        + i] by {
        assert(text.subrange(found, found + pattern.len())[i] == text[found + i]);
    }
}

/// A pattern that stands nowhere is not found.
pub proof fn law_missing_patterns_are_not_found(text: Seq<u8>, pattern: Seq<u8>, from: int)
    requires
        forall|at: int| from <= at ==> !#[trigger] occurs_at(text, pattern, at),
    ensures
        first_match(text, pattern, from) is None,
{
    lemma_first_match(text, pattern, from, None);
}

/// A pattern that stands somewhere stands somewhere first.
pub proof fn lemma_earliest(text: Seq<u8>, pattern: Seq<u8>, from: int, at: int) -> (found: int)
    requires
        0 <= from <= at,
        text.len() <= usize::MAX,
        occurs_at(text, pattern, at),
    ensures
        from <= found <= at,
        occurs_at(text, pattern, found),
        forall|j: int| from <= j < found ==> !#[trigger] occurs_at(text, pattern, j),
    decreases at - from,
{
    if occurs_at(text, pattern, from) {
        from
    } else {
        lemma_earliest(text, pattern, from + 1, at)
    }
}

} // verus!
