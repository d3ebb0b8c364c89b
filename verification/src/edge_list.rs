//! The text format of an edge list.
//!
//! A line is a comment when its first character that is not white space is
//! `#`. Any other line must hold exactly two node identifiers separated by
//! white space; white space before and after them is allowed. An identifier is
//! a decimal number that fits in 32 bits, written with ASCII digits and
//! optionally preceded by `+`.

use crate::error::GraphError;
use vstd::prelude::*;

verus! {

/// What a line of an edge list says.
#[derive(Clone, Copy, Debug, PartialEq, Eq, Structural)]
pub enum LineForm {
    /// A comment line, which carries no edge.
    Comment,
    /// A directed edge between two node identifiers.
    Edge { from: u32, to: u32 },
    /// Neither of the two.
    Malformed,
}

/// The characters with the Unicode property `White_Space`.
pub open spec fn is_space(c: char) -> bool {
    let code = c as u32;
    ||| 0x09 <= code <= 0x0D
    ||| code == 0x20
    ||| code == 0x85
    ||| code == 0xA0
    ||| code == 0x1680
    ||| 0x2000 <= code <= 0x200A
    ||| code == 0x2028
    ||| code == 0x2029
    ||| code == 0x202F
    ||| code == 0x205F
    ||| code == 0x3000
}

/// The ASCII digits.
pub open spec fn is_digit(c: char) -> bool {
    0x30 <= c as u32 <= 0x39
}

/// The first position at or after `from` that holds no white space, or the
/// length of the line if there is none.
pub open spec fn skip_spaces(line: Seq<char>, from: int) -> int
    decreases line.len() - from,
{
    if 0 <= from < line.len() && is_space(line[from]) {
        skip_spaces(line, from + 1)
    } else {
        from
    }
}

/// The first position at or after `from` that holds white space, or the
/// length of the line if there is none.
pub open spec fn token_end(line: Seq<char>, from: int) -> int
    decreases line.len() - from,
{
    if 0 <= from < line.len() && !is_space(line[from]) {
        token_end(line, from + 1)
    } else {
        from
    }
}

/// The number written by a sequence of decimal digits.
pub open spec fn decimal_value(digits: Seq<char>) -> nat
    decreases digits.len(),
{
    if digits.len() == 0 {
        0
    } else {
        (decimal_value(digits.drop_last()) * 10 + (digits.last() as u32 - 0x30)) as nat
    }
}

/// Every character is an ASCII digit.
pub open spec fn all_digits(digits: Seq<char>) -> bool {
    forall|i: int| 0 <= i < digits.len() ==> is_digit(#[trigger] digits[i])
}

/// A token without its optional leading `+`.
pub open spec fn unsigned_part(token: Seq<char>) -> Seq<char> {
    if token.len() > 0 && token[0] == '+' {
        token.subrange(1, token.len() as int)
    } else {
        token
    }
}

/// The identifier that `token` writes, if it writes one.
pub open spec fn parse_id(token: Seq<char>) -> Option<u32> {
    let digits = unsigned_part(token);
    if digits.len() > 0 && all_digits(digits) && decimal_value(digits) <= u32::MAX {
        Some(decimal_value(digits) as u32)
    } else {
        None
    }
}

/// What `line` says.
pub open spec fn line_form(line: Seq<char>) -> LineForm {
    let first = skip_spaces(line, 0);
    if first >= line.len() {
        LineForm::Malformed
    } else if line[first] == '#' {
        LineForm::Comment
    } else {
        let first_end = token_end(line, first);
        let second = skip_spaces(line, first_end);
        let second_end = token_end(line, second);
        let rest = skip_spaces(line, second_end);
        if second >= line.len() || rest < line.len() {
            LineForm::Malformed
        } else {
            match (
                parse_id(line.subrange(first, first_end)),
                parse_id(line.subrange(second, second_end)),
            ) {
                (Some(from), Some(to)) => LineForm::Edge { from, to },
                _ => LineForm::Malformed,
            }
        }
    }
}

/// No line is malformed.
pub open spec fn well_formed(lines: Seq<Seq<char>>) -> bool {
    forall|i: int| 0 <= i < lines.len() ==> !(line_form(#[trigger] lines[i]) is Malformed)
}

/// Line `index` is the first malformed line.
pub open spec fn first_malformed(lines: Seq<Seq<char>>, index: int) -> bool {
    &&& 0 <= index < lines.len()
    &&& line_form(lines[index]) is Malformed
    &&& forall|i: int| 0 <= i < index ==> !(line_form(#[trigger] lines[i]) is Malformed)
}

/// The identifier pairs of the edge lines, in line order.
pub open spec fn edge_pairs(lines: Seq<Seq<char>>) -> Seq<(u32, u32)>
    decreases lines.len(),
{
    if lines.len() == 0 {
        Seq::empty()
    } else {
        let before = edge_pairs(lines.drop_last());
        match line_form(lines.last()) {
            LineForm::Edge { from, to } => before.push((from, to)),
            _ => before,
        }
    }
}

/// The number of lines that are not comments.
pub open spec fn data_line_count(lines: Seq<Seq<char>>) -> nat
    decreases lines.len(),
{
    if lines.len() == 0 {
        0
    } else {
        let before = data_line_count(lines.drop_last());
        if line_form(lines.last()) is Comment {
            before
        } else {
            before + 1
        }
    }
}

/// In a well-formed list every line that is not a comment yields one pair.
pub proof fn lemma_pairs_count(lines: Seq<Seq<char>>)
    requires
        well_formed(lines),
    ensures
        edge_pairs(lines).len() == data_line_count(lines),
        edge_pairs(lines).len() <= lines.len(),
    decreases lines.len(),
{
    if lines.len() > 0 {
        let before = lines.drop_last();
        assert forall|i: int| 0 <= i < before.len() implies !(line_form(#[trigger] before[i])
            is Malformed) by {
            assert(before[i] == lines[i]);
        }
        lemma_pairs_count(before);
        assert(!(line_form(lines[lines.len() - 1]) is Malformed));
    }
}

/// A number written with more digits is no smaller than what its leading
/// digits write.
proof fn lemma_prefix_value(digits: Seq<char>, k: int)
    requires
        all_digits(digits),
        0 <= k <= digits.len(),
    ensures
        decimal_value(digits.take(k)) <= decimal_value(digits),
    decreases digits.len(),
{
    if k == digits.len() {
        assert(digits.take(k) == digits);
    } else {
        let shorter = digits.drop_last();
        assert(shorter.take(k) == digits.take(k));
        assert forall|i: int| 0 <= i < shorter.len() implies is_digit(#[trigger] shorter[i]) by {
            assert(shorter[i] == digits[i]);
        }
        lemma_prefix_value(shorter, k);
        assert(is_digit(digits[digits.len() - 1]));
    }
}

fn is_space_char(c: char) -> (space: bool)
    ensures
        space == is_space(c),
{
    let code = c as u32;
    (0x09 <= code && code <= 0x0D) || code == 0x20 || code == 0x85 || code == 0xA0 || code
        == 0x1680 || (0x2000 <= code && code <= 0x200A) || code == 0x2028 || code == 0x2029
        || code == 0x202F || code == 0x205F || code == 0x3000
}

fn skip_spaces_from(line: &Vec<char>, from: usize) -> (position: usize)
    requires
        from <= line.len(),
    ensures
        position == skip_spaces(line@, from as int),
        from <= position <= line.len(),
{
    let mut position = from;
    while position < line.len() && is_space_char(line[position])
        invariant
            from <= position <= line.len(),
            skip_spaces(line@, from as int) == skip_spaces(line@, position as int),
        decreases line.len() - position,
    {
        position += 1;
    }
    position
}

fn token_end_from(line: &Vec<char>, from: usize) -> (position: usize)
    requires
        from <= line.len(),
    ensures
        position == token_end(line@, from as int),
        from <= position <= line.len(),
{
    let mut position = from;
    while position < line.len() && !is_space_char(line[position])
        invariant
            from <= position <= line.len(),
            token_end(line@, from as int) == token_end(line@, position as int),
        decreases line.len() - position,
    {
        position += 1;
    }
    position
}

/// Reads the identifier written by the characters of `line` from `start` up
/// to, not including, `end`.
fn parse_id_between(line: &Vec<char>, start: usize, end: usize) -> (id: Option<u32>)
    requires
        start <= end <= line.len(),
    ensures
        id == parse_id(line@.subrange(start as int, end as int)),
{
    let ghost token = line@.subrange(start as int, end as int);
    let mut first = start;
    if start < end && line[start] == '+' {
        first = start + 1;
    }
    let ghost digits = line@.subrange(first as int, end as int);
    assert(digits == unsigned_part(token)) by {
        if start < end {
            assert(token[0] == line@[start as int]);
        }
    }
    if first == end {
        return None;
    }
    let mut value: u64 = 0;
    let mut i = first;
    while i < end
        invariant
            start <= first <= i <= end <= line.len(),
            token == line@.subrange(start as int, end as int),
            digits == line@.subrange(first as int, end as int),
            digits == unsigned_part(token),
            all_digits(digits.take(i - first)),
            value == decimal_value(digits.take(i - first)),
            value <= u32::MAX,
        decreases end - i,
    {
        let code = line[i] as u32;
        proof {
            assert(digits[i - first] == line@[i as int]);
        }
        if code < 0x30 || code > 0x39 {
            return None;
        }
        let next = value * 10 + (code - 0x30) as u64;
        proof {
            let longer = digits.take(i + 1 - first);
            assert(longer.drop_last() == digits.take(i - first));
            assert(longer.last() == digits[i - first]);
            assert(next == decimal_value(longer));
            assert forall|k: int| 0 <= k < longer.len() implies is_digit(#[trigger] longer[k]) by {
                if k < i - first {
                    assert(digits.take(i - first)[k] == longer[k]);
                }
            }
            if all_digits(digits) {
                lemma_prefix_value(digits, i + 1 - first);
            }
        }
        if next > u32::MAX as u64 {
            return None;
        }
        value = next;
        i += 1;
    }
    assert(digits.take(end - first) == digits);
    Some(value as u32)
}

/// Reads one line of an edge list, given as its characters.
pub fn parse_line(line: &Vec<char>) -> (form: LineForm)
    ensures
        form == line_form(line@),
{
    let first = skip_spaces_from(line, 0);
    if first >= line.len() {
        return LineForm::Malformed;
    }
    if line[first] == '#' {
        return LineForm::Comment;
    }
    let first_end = token_end_from(line, first);
    let second = skip_spaces_from(line, first_end);
    let second_end = token_end_from(line, second);
    let rest = skip_spaces_from(line, second_end);
    if second >= line.len() || rest < line.len() {
        return LineForm::Malformed;
    }
    let from = parse_id_between(line, first, first_end);
    let to = parse_id_between(line, second, second_end);
    match (from, to) {
        (Some(from), Some(to)) => LineForm::Edge { from, to },
        _ => LineForm::Malformed,
    }
}

fn characters(text: &str) -> (chars: Vec<char>)
    ensures
        chars@ == text@,
{
    let mut chars: Vec<char> = Vec::new();
    for c in it: text.chars()
        invariant
            it.seq() == text@,
            chars@ == it.seq().take(it.index() as int),
    {
        chars.push(c);
    }
    chars
}

/// The lines of an edge list as sequences of characters.
pub open spec fn text_of(lines: Seq<String>) -> Seq<Seq<char>> {
    Seq::new(lines.len(), |i: int| lines[i]@)
}

/// Reads an edge list and returns the identifier pairs of its edge lines in
/// line order, or the position of the first malformed line.
pub fn read_edge_list(lines: &Vec<String>) -> (result: Result<Vec<(u32, u32)>, GraphError>)
    ensures
        match result {
            Ok(pairs) => well_formed(text_of(lines@)) && pairs@ == edge_pairs(text_of(lines@)),
            Err(error) => error matches GraphError::MalformedInput { line } && first_malformed(
                text_of(lines@),
                line as int,
            ),
        },
{
    let ghost text = text_of(lines@);
    let mut pairs: Vec<(u32, u32)> = Vec::new();
    let mut i: usize = 0;
    while i < lines.len()
        invariant
            i <= lines.len(),
            text == text_of(lines@),
            forall|k: int| 0 <= k < i ==> !(line_form(#[trigger] text[k]) is Malformed),
            pairs@ == edge_pairs(text.take(i as int)),
        decreases lines.len() - i,
    {
        let chars = characters(lines[i].as_str());
        let form = parse_line(&chars);
        proof {
            assert(chars@ == text[i as int]);
            assert(text.take(i + 1).drop_last() == text.take(i as int));
            assert(text.take(i + 1).last() == text[i as int]);
        }
        match form {
            LineForm::Malformed => {
                return Err(GraphError::MalformedInput { line: i });
            },
            LineForm::Comment => {},
            LineForm::Edge { from, to } => {
                pairs.push((from, to));
            },
        }
        i += 1;
    }
    assert(text.take(lines.len() as int) == text);
    Ok(pairs)
}

} // verus!
