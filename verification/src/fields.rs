//! Words and lines of a text, as ranges of its bytes.
use vstd::prelude::*;

verus! {

/// How many bytes the white space at `at` takes in UTF-8, none where there is no white
/// space. White space are the characters that Unicode calls so.
pub open spec fn white_len(text: Seq<u8>, at: int, end: int) -> int {
    if at < end && (9 <= text[at] <= 13 || text[at] == 32) {
        1
    } else if at + 1 < end && text[at] == 0xC2 && (text[at + 1] == 0x85 || text[at + 1] == 0xA0) {
        2
    } else if at + 2 < end && wide_space(text[at], text[at + 1], text[at + 2]) {
        3
    } else {
        0
    }
}

/// Whether three bytes are the UTF-8 form of white space: an Ogham space, one of the
/// spaces of fixed width, a line or paragraph separator, or an ideographic space.
pub open spec fn wide_space(first: u8, second: u8, third: u8) -> bool {
    ||| first == 0xE1 && second == 0x9A && third == 0x80
    ||| first == 0xE2 && second == 0x80 && (0x80 <= third <= 0x8A || third == 0xA8 || third == 0xA9
        || third == 0xAF)
    ||| first == 0xE2 && second == 0x81 && third == 0x9F
    ||| first == 0xE3 && second == 0x80 && third == 0x80
}

/// Where the white space from `at` on ends.
pub open spec fn skip_white(text: Seq<u8>, at: int, end: int) -> int
    decreases end - at,
{
    let white = white_len(text, at, end);
    if at >= end || white == 0 {
        at
    } else {
        skip_white(text, at + white, end)
    }
}

/// Where the next white space from `at` on begins.
pub open spec fn word_end(text: Seq<u8>, at: int, end: int) -> int
    decreases end - at,
{
    if at >= end || white_len(text, at, end) > 0 {
        at
    } else {
        word_end(text, at + 1, end)
    }
}

/// Where the last byte from `at` on that is not white space ends, or `best` where there
/// is none.
pub open spec fn last_end(text: Seq<u8>, at: int, end: int, best: int) -> int
    decreases end - at,
{
    let white = white_len(text, at, end);
    if at >= end {
        best
    } else if white > 0 {
        last_end(text, at + white, end, best)
    } else {
        last_end(text, at + 1, end, at + 1)
    }
}

/// The first word of a part of a text.
pub open spec fn word_in(text: Seq<u8>, at: int, end: int) -> Option<(int, int)> {
    let start = skip_white(text, at, end);
    if start < end {
        Some((start, word_end(text, start, end)))
    } else {
        None
    }
}

/// The first two words of a part of a text.
pub open spec fn pair_in(text: Seq<u8>, at: int, end: int) -> (
    Option<(int, int)>,
    Option<(int, int)>,
) {
    match word_in(text, at, end) {
        None => (None, None),
        Some(first) => (Some(first), word_in(text, first.1, end)),
    }
}

/// Where the line at `at` ends.
pub open spec fn line_end(text: Seq<u8>, at: int) -> int
    decreases text.len() - at,
{
    if at >= text.len() || text[at] == 10 {
        at
    } else {
        line_end(text, at + 1)
    }
}

/// The first `count` lines from `at` on that are not white space alone, without the white
/// space around them.
pub open spec fn filled_lines(text: Seq<u8>, at: int, count: nat) -> Seq<(int, int)>
    decreases text.len() + 1 - at,
{
    if at >= text.len() || count == 0 {
        Seq::empty()
    } else {
        let end = line_end(text, at);
        let start = skip_white(text, at, end);
        proof {
            lemma_line_end(text, at);
        }
        if start < end {
            seq![(start, last_end(text, start, end, start))] + filled_lines(
                text,
                end + 1,
                (count - 1) as nat,
            )
        } else {
            filled_lines(text, end + 1, count)
        }
    }
}

/// No more lines are found than are asked for.
pub proof fn lemma_filled_lines_count(text: Seq<u8>, at: int, count: nat)
    ensures
        filled_lines(text, at, count).len() <= count,
    decreases text.len() + 1 - at,
{
    if at < text.len() && count > 0 {
        let end = line_end(text, at);
        lemma_line_end(text, at);
        if skip_white(text, at, end) < end {
            lemma_filled_lines_count(text, end + 1, (count - 1) as nat);
        } else {
            lemma_filled_lines_count(text, end + 1, count);
        }
    }
}

/// A line ends within the text.
pub proof fn lemma_line_end(text: Seq<u8>, at: int)
    requires
        at <= text.len(),
    ensures
        at <= line_end(text, at) <= text.len(),
    decreases text.len() - at,
{
    if at < text.len() && text[at] != 10 {
        lemma_line_end(text, at + 1);
    }
}

/// A range of bytes in machine integers.
pub open spec fn range_value(range: (usize, usize)) -> (int, int) {
    (range.0 as int, range.1 as int)
}

/// A range of bytes in machine integers, where there is one.
pub open spec fn range_option(range: Option<(usize, usize)>) -> Option<(int, int)> {
    match range {
        None => None,
        Some(range) => Some(range_value(range)),
    }
}

fn white_bytes(text: &[u8], at: usize, end: usize) -> (count: usize)
    requires
        at <= end <= text@.len(),
    ensures
        count == white_len(text@, at as int, end as int),
        at + count <= end,
{
    if at < end && ((9 <= text[at] && text[at] <= 13) || text[at] == 32) {
        return 1;
    }
    if end - at >= 2 && text[at] == 0xC2 && (text[at + 1] == 0x85 || text[at + 1] == 0xA0) {
        return 2;
    }
    if end - at >= 3 {
        let first: u8 = text[at];
        let second: u8 = text[at + 1];
        let third: u8 = text[at + 2];
        if (first == 0xE1 && second == 0x9A && third == 0x80) || (first == 0xE2 && second == 0x80
            && ((0x80 <= third && third <= 0x8A) || third == 0xA8 || third == 0xA9 || third
            == 0xAF)) || (first == 0xE2 && second == 0x81 && third == 0x9F) || (first == 0xE3
            && second == 0x80 && third == 0x80) {
            return 3;
        }
    }
    0
}

fn find_word_start(text: &[u8], at: usize, end: usize) -> (start: usize)
    requires
        at <= end <= text@.len(),
    ensures
        start == skip_white(text@, at as int, end as int),
        at <= start <= end,
{
    let mut start: usize = at;
    let mut white: usize = white_bytes(text, start, end);
    while white > 0
        invariant
            at <= start <= end <= text@.len(),
            white == white_len(text@, start as int, end as int),
            start + white <= end,
            skip_white(text@, at as int, end as int) == skip_white(
                text@,
                start as int,
                end as int,
            ),
        decreases end - start,
    {
        start = start + white;
        white = white_bytes(text, start, end);
    }
    start
}

fn find_word_end(text: &[u8], at: usize, end: usize) -> (stop: usize)
    requires
        at <= end <= text@.len(),
    ensures
        stop == word_end(text@, at as int, end as int),
        at <= stop <= end,
{
    let mut stop: usize = at;
    while stop < end && white_bytes(text, stop, end) == 0
        invariant
            at <= stop <= end <= text@.len(),
            word_end(text@, at as int, end as int) == word_end(text@, stop as int, end as int),
        decreases end - stop,
    {
        stop = stop + 1;
    }
    stop
}

fn find_last_end(text: &[u8], at: usize, end: usize) -> (last: usize)
    requires
        at <= end <= text@.len(),
    ensures
        last == last_end(text@, at as int, end as int, at as int),
        at <= last <= end,
{
    let mut last: usize = at;
    let mut next: usize = at;
    while next < end
        invariant
            at <= last <= next <= end <= text@.len(),
            last_end(text@, at as int, end as int, at as int) == last_end(
                text@,
                next as int,
                end as int,
                last as int,
            ),
        decreases end - next,
    {
        let white: usize = white_bytes(text, next, end);
        if white > 0 {
            next = next + white;
        } else {
            next = next + 1;
            last = next;
        }
    }
    last
}

fn find_word(text: &[u8], at: usize, end: usize) -> (word: Option<(usize, usize)>)
    requires
        at <= end <= text@.len(),
    ensures
        range_option(word) == word_in(text@, at as int, end as int),
        word matches Some(range) ==> at <= range.0 <= range.1 <= end,
{
    let start: usize = find_word_start(text, at, end);
    if start < end {
        Some((start, find_word_end(text, start, end)))
    } else {
        None
    }
}

/// Finds the two words of a coordinate pair.
pub fn find_pair(text: &[u8], at: usize, end: usize) -> (pair: (
    Option<(usize, usize)>,
    Option<(usize, usize)>,
))
    requires
        at <= end <= text@.len(),
    ensures
        (range_option(pair.0), range_option(pair.1)) == pair_in(text@, at as int, end as int),
{
    match find_word(text, at, end) {
        None => (None, None),
        Some(first) => (Some(first), find_word(text, first.1, end)),
    }
}

/// Finds the first `count` lines that are not white space alone.
pub fn find_filled_lines(text: &[u8], count: usize) -> (lines: Vec<(usize, usize)>)
    ensures
        lines@.map_values(|range: (usize, usize)| range_value(range)) == filled_lines(
            text@,
            0,
            count as nat,
        ),
{
    let ghost values = |range: (usize, usize)| range_value(range);
    let mut lines: Vec<(usize, usize)> = Vec::new();
    let mut at: usize = 0;
    let ghost mut from: int = 0;
    assert(lines@.map_values(values) + filled_lines(text@, 0, count as nat) =~= filled_lines(
        text@,
        0,
        count as nat,
    ));
    while at < text.len() && lines.len() < count
        invariant
            at <= text@.len(),
            lines@.len() <= count,
            from == at || (from == at + 1 && at == text@.len()),
            values == (|range: (usize, usize)| range_value(range)),
            lines@.map_values(values) + filled_lines(
                text@,
                from,
                (count - lines@.len()) as nat,
            ) == filled_lines(text@, 0, count as nat),
        decreases text@.len() - at,
    {
        let mut end: usize = at;
        while end < text.len() && text[end] != 10
            invariant
                at <= end <= text@.len(),
                line_end(text@, at as int) == line_end(text@, end as int),
            decreases text@.len() - end,
        {
            end = end + 1;
        }
        let start: usize = find_word_start(text, at, end);
        let ghost before = lines@;
        if start < end {
            let last: usize = find_last_end(text, start, end);
            lines.push((start, last));
            proof {
                assert(lines@.map_values(values) =~= before.map_values(values) + seq![
                    (start as int, last as int),
                ]);
                assert(lines@.map_values(values) + filled_lines(
                    text@,
                    end + 1,
                    (count - lines@.len()) as nat,
                ) =~= before.map_values(values) + (seq![(start as int, last as int)]
                    + filled_lines(text@, end + 1, (count - lines@.len()) as nat)));
            }
        }
        proof {
            from = end + 1;
        }
        at = if end < text.len() {
            end + 1
        } else {
            end
        };
    }
    assert(filled_lines(text@, from, (count - lines@.len()) as nat) =~= Seq::empty());
    assert(lines@.map_values(values) + Seq::empty() =~= lines@.map_values(values));
    lines
}

/// Spaces, tabs and line ends of plain text are white, one byte each; letters, digits, signs
/// and all else of plain text are not.
pub proof fn law_plain_white_is_one_byte(text: Seq<u8>, at: int, end: int)
    requires
        0 <= at < end <= text.len(),
        text[at] < 128,
    ensures
        text[at] == 32 || text[at] == 9 || text[at] == 10 || text[at] == 11 || text[at] == 12
            || text[at] == 13 <==> white_len(text, at, end) == 1,
        white_len(text, at, end) == 0 || white_len(text, at, end) == 1,
{
}

/// A word begins with something that is not white, holds nothing white, and ends with the
/// text or before something white.
pub proof fn law_words_hold_nothing_white(text: Seq<u8>, at: int, end: int, i: int)
    requires
        0 <= at <= end <= text.len(),
    ensures
        word_in(text, at, end) matches Some((start, stop)) ==> {
            &&& at <= start < stop <= end
            &&& start <= i < stop ==> white_len(text, i, end) == 0
            &&& stop < end ==> white_len(text, stop, end) > 0
        },
        word_in(text, at, end) is None ==> skip_white(text, at, end) >= end,
{
    lemma_skip_white(text, at, end);
    let start = skip_white(text, at, end);
    if start < end {
        lemma_word_end(text, start, end, i);
    }
}

/// A word in plain text that has nothing but spaces before it, and ends with the text or
/// before a space, is found.
pub proof fn law_words_are_found(text: Seq<u8>, at: int, start: int, stop: int, end: int)
    requires
        0 <= at <= start < stop <= end <= text.len(),
        forall|i: int| at <= i < start ==> #[trigger] text[i] == 32,
        forall|i: int| start <= i < stop ==> 33 <= #[trigger] text[i] < 127,
        stop < end ==> text[stop] == 32,
    ensures
        word_in(text, at, end) == Some((start, stop)),
{
    lemma_spaces_are_skipped(text, at, start, end);
    lemma_word_goes_on(text, start, stop, end);
}

/// Two words that stand in a range, one behind the other, are the pair of that range.
pub proof fn law_pairs_are_the_first_two_words(text: Seq<u8>, at: int, end: int)
    requires
        0 <= at <= end <= text.len(),
    ensures
        ({
            let (first, second) = pair_in(text, at, end);
            &&& first == word_in(text, at, end)
            &&& first is None ==> second is None
            &&& first matches Some(one) ==> (second matches Some(two) ==> one.1 <= two.0)
        }),
{
    law_words_hold_nothing_white(text, at, end, at);
    if let Some(first) = word_in(text, at, end) {
        law_words_hold_nothing_white(text, first.1, end, at);
    }
}

/// A line holds no line end and stops at one, or at the end of the text.
pub proof fn law_lines_stop_at_line_ends(text: Seq<u8>, at: int, i: int)
    requires
        0 <= at <= text.len(),
    ensures
        at <= line_end(text, at) <= text.len(),
        at <= i < line_end(text, at) ==> text[i] != 10,
        line_end(text, at) < text.len() ==> text[line_end(text, at)] == 10,
    decreases text.len() - at,
{
    if at < text.len() && text[at] != 10 {
        law_lines_stop_at_line_ends(text, at + 1, i);
    }
}

/// Of the lines that are not empty no more than asked for are taken, in their order, and none
/// of them reaches over a line end or begins with a space.
pub proof fn law_filled_lines_follow_each_other(text: Seq<u8>, at: int, count: nat, k: int)
    requires
        0 <= at,
        0 <= k < filled_lines(text, at, count).len(),
    ensures
        ({
            let lines = filled_lines(text, at, count);
            &&& lines.len() <= count
            &&& at <= lines[k].0 <= lines[k].1 <= text.len()
            &&& k > 0 ==> lines[k - 1].1 < lines[k].0
            &&& forall|i: int| lines[k].0 <= i < lines[k].1 ==> #[trigger] text[i] != 10
            &&& lines[k].0 < text.len() ==> text[lines[k].0] != 32
        }),
    decreases text.len() + 1 - at,
{
    let end = line_end(text, at);
    let start = skip_white(text, at, end);
    let lines = filled_lines(text, at, count);
    lemma_line_end(text, at);
    assert forall|i: int| at <= i < end implies #[trigger] text[i] != 10 by {
        law_lines_stop_at_line_ends(text, at, i);
    }
    law_lines_stop_at_line_ends(text, at, at);
    lemma_skip_white(text, at, end);
    if start < end {
        let rest = filled_lines(text, end + 1, (count - 1) as nat);
        lemma_last_end(text, start, end, start);
        assert(lines == seq![(start, last_end(text, start, end, start))] + rest);
        if rest.len() > 0 {
            law_filled_lines_follow_each_other(
                text,
                end + 1,
                (count - 1) as nat,
                if k > 0 {
                    k - 1
                } else {
                    0
                },
            );
        }
        if k > 1 {
            assert(lines[k - 1] == rest[k - 2]);
        }
    } else {
        law_filled_lines_follow_each_other(text, end + 1, count, k);
    }
}

proof fn lemma_skip_white(text: Seq<u8>, at: int, end: int)
    requires
        at <= end,
    ensures
        at <= skip_white(text, at, end) <= end,
        skip_white(text, at, end) < end ==> white_len(text, skip_white(text, at, end), end) == 0,
    decreases end - at,
{
    let white = white_len(text, at, end);
    if at < end && white > 0 {
        lemma_skip_white(text, at + white, end);
    }
}

proof fn lemma_word_end(text: Seq<u8>, at: int, end: int, i: int)
    requires
        at < end,
        white_len(text, at, end) == 0,
    ensures
        at < word_end(text, at, end) <= end,
        at <= i < word_end(text, at, end) ==> white_len(text, i, end) == 0,
        word_end(text, at, end) < end ==> white_len(text, word_end(text, at, end), end) > 0,
    decreases end - at,
{
    if at + 1 < end && white_len(text, at + 1, end) == 0 {
        lemma_word_end(text, at + 1, end, i);
    }
    assert(word_end(text, at, end) == word_end(text, at + 1, end));
}

proof fn lemma_spaces_are_skipped(text: Seq<u8>, at: int, start: int, end: int)
    requires
        0 <= at <= start < end <= text.len(),
        forall|i: int| at <= i < start ==> #[trigger] text[i] == 32,
        33 <= text[start] < 127,
    ensures
        skip_white(text, at, end) == start,
    decreases start - at,
{
    if at < start {
        lemma_spaces_are_skipped(text, at + 1, start, end);
    }
}

proof fn lemma_word_goes_on(text: Seq<u8>, at: int, stop: int, end: int)
    requires
        0 <= at <= stop <= end <= text.len(),
        forall|i: int| at <= i < stop ==> 33 <= #[trigger] text[i] < 127,
        stop < end ==> text[stop] == 32,
    ensures
        word_end(text, at, end) == stop,
    decreases stop - at,
{
    if at < stop {
        lemma_word_goes_on(text, at + 1, stop, end);
    }
}

proof fn lemma_last_end(text: Seq<u8>, at: int, end: int, best: int)
    requires
        at <= end,
        best <= at,
    ensures
        best <= last_end(text, at, end, best) <= end,
    decreases end - at,
{
    let white = white_len(text, at, end);
    if at < end {
        if white > 0 {
            lemma_last_end(text, at + white, end, best);
        } else {
            lemma_last_end(text, at + 1, end, at + 1);
        }
    }
}

/// The spaces of other scripts are white too: a line end and a space of two bytes, and the
/// spaces of three bytes.
pub proof fn law_wide_spaces_are_white(text: Seq<u8>, at: int, end: int)
    requires
        0 <= at,
        at + 3 <= end <= text.len(),
    ensures
        text[at] == 0xC2 && (text[at + 1] == 0x85 || text[at + 1] == 0xA0) ==> white_len(
            text,
            at,
            end,
        ) == 2,
        text[at] == 0xE2 && text[at + 1] == 0x80 && 0x80 <= text[at + 2] <= 0x8A ==> white_len(
            text,
            at,
            end,
        ) == 3,
        text[at] == 0xE2 && text[at + 1] == 0x80 && (text[at + 2] == 0xA8 || text[at + 2] == 0xA9
            || text[at + 2] == 0xAF) ==> white_len(text, at, end) == 3,
        text[at] == 0xE3 && text[at + 1] == 0x80 && text[at + 2] == 0x80 ==> white_len(
            text,
            at,
            end,
        ) == 3,
        text[at] == 0xE1 && text[at + 1] == 0x9A && text[at + 2] == 0x80 ==> white_len(
            text,
            at,
            end,
        ) == 3,
        text[at] == 0xE2 && text[at + 1] == 0x81 && text[at + 2] == 0x9F ==> white_len(
            text,
            at,
            end,
        ) == 3,
        text[at] >= 0xE4 ==> white_len(text, at, end) == 0,
{
}

} // verus!
