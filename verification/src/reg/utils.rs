//! The text formats of the data: labelled examples, and lists of numbers.
//!
//! A data file has one example on each line. The first token of a line is
//! the label; the tokens after it are pairs `index:value`. White space of
//! any length, spaces or tabs, parts the tokens, and white space at either
//! end of a line parts nothing. The label `1`, however the number one is
//! written, is the class `+1`; any other first token, a number or not, is
//! the class `-1`. The indices count the features from 1 and ascend along the
//! line. A feature that a line does not list is zero, and every example has
//! as many features as the largest index in the file.
use crate::number::Decimal;
use crate::text::{
    all_digits, decimal_of, digits_value, lemma_digits_grow, parse_decimal, pieces, split,
    split_spans, spans_within, word_spans, words, Span,
};
use vstd::prelude::*;

verus! {

/// One listed feature of an example: the index, from 1, and the value.
#[derive(Clone, Copy, Debug)]
pub struct Entry {
    pub index: usize,
    pub value: Decimal,
}

/// One example as its line gives it: the label and the listed features.
#[derive(Clone, Debug)]
pub struct Example {
    pub label: Decimal,
    pub entries: Vec<Entry>,
}

/// The line of a text that is not an example, or not a number, counted
/// from 0.
#[derive(Clone, Copy, Debug, PartialEq, Eq, Structural)]
pub struct ParseError {
    pub line: usize,
}

/// The largest index that a feature can have.
pub const MAX_INDEX: usize = 2147483647;

/// The number zero.
pub open spec fn zero() -> Decimal {
    Decimal { negative: false, digits: 0, scale: 0 }
}

/// The label of the class: `+1` for the first class, `-1` for the other.
pub open spec fn class_label(first: bool) -> Decimal {
    Decimal { negative: !first, digits: 1, scale: 0 }
}

/// A line without the carriage return that may end it.
pub open spec fn strip_return(line: Seq<u8>) -> Seq<u8> {
    if line.len() > 0 && line.last() == 13 {
        line.drop_last()
    } else {
        line
    }
}

/// The lines of a text. Lines end with a line feed, before which a carriage
/// return is dropped. What follows the last line feed is a line too, unless
/// it is empty.
pub open spec fn lines_of(text: Seq<u8>) -> Seq<Seq<u8>> {
    let parts = split(text, 10);
    let count = if parts.last().len() == 0 {
        parts.len() - 1
    } else {
        parts.len() as int
    };
    Seq::new(
        count as nat,
        |k: int|
            if k + 1 < parts.len() {
                strip_return(parts[k])
            } else {
                parts[k]
            },
    )
}

/// The index that a token stands for, if it is one: digits, after an
/// optional `+`, for a number from 1 to `MAX_INDEX`.
pub open spec fn index_of(token: Seq<u8>) -> Option<usize> {
    let digits = if token.len() > 0 && token[0] == 43 {
        token.skip(1)
    } else {
        token
    };
    if digits.len() >= 1 && all_digits(digits) && 1 <= digits_value(digits) <= MAX_INDEX {
        Some(digits_value(digits) as usize)
    } else {
        None
    }
}

/// The feature that a token lists, if it is an index, a colon and a number.
pub open spec fn entry_of(token: Seq<u8>) -> Option<Entry> {
    let parts = split(token, 58);
    if parts.len() == 2 && index_of(parts[0]) is Some && decimal_of(parts[1]) is Some {
        Some(Entry { index: index_of(parts[0]).unwrap(), value: decimal_of(parts[1]).unwrap() })
    } else {
        None
    }
}

/// The indices ascend along the row.
pub open spec fn ascending(entries: Seq<Entry>) -> bool {
    forall|a: int, b: int|
        0 <= a < b < entries.len() ==> (#[trigger] entries[a]).index < (#[trigger] entries[b]).index
}

/// The features that the tokens list, if each is a feature and the indices
/// ascend.
pub open spec fn entries_of(tokens: Seq<Seq<u8>>) -> Option<Seq<Entry>> {
    let entries = Seq::new(tokens.len(), |k: int| entry_of(tokens[k]).unwrap());
    if (forall|k: int| 0 <= k < tokens.len() ==> entry_of(#[trigger] tokens[k]) is Some)
        && ascending(entries) {
        Some(entries)
    } else {
        None
    }
}

/// The label that a token stands for: `+1` for the number one, `-1` for
/// any other number and for what is no number.
pub open spec fn label_of(token: Seq<u8>) -> Decimal {
    class_label(decimal_of(token) is Some && decimal_of(token).unwrap().value() == 1real)
}

/// The example that a line gives, if it is one: the label that its first
/// word stands for, and the features that the words after it list. A line
/// without a word is no example.
pub open spec fn example_of(line: Seq<u8>) -> Option<(Decimal, Seq<Entry>)> {
    let tokens = words(line);
    if tokens.len() >= 1 {
        match entries_of(tokens.skip(1)) {
            Some(entries) => Some((label_of(tokens[0]), entries)),
            None => None,
        }
    } else {
        None
    }
}

/// The index of the last feature in a row, or zero for a row without one.
pub open spec fn last_index(entries: Seq<Entry>) -> nat {
    if entries.len() == 0 {
        0
    } else {
        entries.last().index as nat
    }
}

/// The largest index in the first `upto` lines.
pub open spec fn width_of(lines: Seq<Seq<u8>>, upto: int) -> nat
    decreases upto,
{
    if upto <= 0 {
        0
    } else {
        let before = width_of(lines, upto - 1);
        match example_of(lines[upto - 1]) {
            Some((_, entries)) => if last_index(entries) > before {
                last_index(entries)
            } else {
                before
            },
            None => before,
        }
    }
}

/// The value of the feature `index` in a row: the value that the row lists
/// for it, or zero.
pub open spec fn lookup(entries: Seq<Entry>, index: int) -> Decimal
    decreases entries.len(),
{
    if entries.len() == 0 {
        zero()
    } else if entries.last().index == index {
        entries.last().value
    } else {
        lookup(entries.drop_last(), index)
    }
}

/// A row in full: the values of the features from 1 to `width`.
pub open spec fn dense(entries: Seq<Entry>, width: nat) -> Seq<Decimal> {
    Seq::new(width, |k: int| lookup(entries, k + 1))
}

/// A feature that a row lists has the value that the row gives it.
pub proof fn lemma_lookup_listed(entries: Seq<Entry>, k: int)
    requires
        ascending(entries),
        0 <= k < entries.len(),
    ensures
        lookup(entries, entries[k].index as int) == entries[k].value,
    decreases entries.len(),
{
    if k < entries.len() - 1 {
        let shorter = entries.drop_last();
        lemma_lookup_listed(shorter, k);
    }
}

/// A feature that a row does not list is zero.
pub proof fn lemma_lookup_unlisted(entries: Seq<Entry>, index: int)
    requires
        forall|k: int| 0 <= k < entries.len() ==> (#[trigger] entries[k]).index != index,
    ensures
        lookup(entries, index) == zero(),
    decreases entries.len(),
{
    if entries.len() > 0 {
        let shorter = entries.drop_last();
        lemma_lookup_unlisted(shorter, index);
    }
}

/// The spans of the lines of a text.
pub fn line_spans(text: &[u8]) -> (lines: Vec<Span>)
    ensures
        pieces(text@, lines@) == lines_of(text@),
        spans_within(lines@, 0, text@.len() as int),
{
    let mut parts = split_spans(text, 0, text.len(), 10);
    let ghost all = parts@;
    proof {
        assert(text@.subrange(0, text@.len() as int) =~= text@);
    }
    let count = parts.len();
    let last = parts[count - 1];
    let kept: usize = if last.start == last.end {
        count - 1
    } else {
        count
    };
    let mut lines: Vec<Span> = Vec::new();
    let mut k: usize = 0;
    while k < kept
        invariant
            k <= kept <= count,
            count == parts@.len(),
            parts@ == all,
            lines@.len() == k,
            spans_within(all, 0, text@.len() as int),
            spans_within(lines@, 0, text@.len() as int),
            pieces(text@, all) == split(text@, 10),
            forall|j: int|
                0 <= j < k ==> text@.subrange(
                    (#[trigger] lines@[j]).start as int,
                    lines@[j].end as int,
                ) == if j + 1 < count {
                    strip_return(split(text@, 10)[j])
                } else {
                    split(text@, 10)[j]
                },
        decreases kept - k,
    {
        let part = parts[k];
        let mut end = part.end;
        if k + 1 < count && part.start < part.end && text[part.end - 1] == 13u8 {
            end = part.end - 1;
        }
        lines.push(Span { start: part.start, end });
        k = k + 1;
    }
    lines
}

/// Reads the stretch of `s` from `from` to `to` as the index of a feature.
pub fn parse_index(s: &[u8], from: usize, to: usize) -> (index: Option<usize>)
    requires
        from <= to <= s@.len(),
    ensures
        index == index_of(s@.subrange(from as int, to as int)),
{
    let ghost token = s@.subrange(from as int, to as int);
    let mut begin: usize = from;
    if from < to && s[from] == 43u8 {
        begin = from + 1;
    }
    let ghost digits = s@.subrange(begin as int, to as int);
    if begin == to {
        return None;
    }
    let mut acc: usize = 0;
    let mut i: usize = begin;
    while i < to
        invariant
            begin <= i <= to <= s@.len(),
            digits == s@.subrange(begin as int, to as int),
            token == s@.subrange(from as int, to as int),
            digits == if token.len() > 0 && token[0] == 43 {
                token.skip(1)
            } else {
                token
            },
            all_digits(digits.take(i - begin)),
            acc == digits_value(digits.take(i - begin)),
            acc <= MAX_INDEX,
        decreases to - i,
    {
        let b = s[i];
        let ghost seen = digits.take(i - begin);
        let ghost longer = digits.take(i + 1 - begin);
        proof {
            assert(digits[i - begin] == b);
            assert(longer.drop_last() =~= seen);
        }
        if b < 48u8 || b > 57u8 {
            return None;
        }
        let digit: usize = (b - 48u8) as usize;
        if acc > (MAX_INDEX - digit) / 10 {
            proof {
                if all_digits(digits) {
                    lemma_digits_grow(digits, longer.len() as int);
                }
            }
            return None;
        }
        acc = acc * 10 + digit;
        i = i + 1;
    }
    proof {
        assert(digits.take(digits.len() as int) =~= digits);
    }
    if acc == 0 {
        return None;
    }
    Some(acc)
}

/// Reads the stretch of `s` from `from` to `to` as a listed feature.
pub fn parse_entry(s: &[u8], from: usize, to: usize) -> (entry: Option<Entry>)
    requires
        from <= to <= s@.len(),
    ensures
        entry == entry_of(s@.subrange(from as int, to as int)),
{
    let parts = split_spans(s, from, to, 58);
    if parts.len() != 2 {
        return None;
    }
    let index = parse_index(s, parts[0].start, parts[0].end);
    let value = parse_decimal(s, parts[1].start, parts[1].end);
    match (index, value) {
        (Some(index), Some(value)) => Some(Entry { index, value }),
        _ => None,
    }
}

/// Whether an example that `parse_line` returns is the one that the line
/// gives.
pub open spec fn is_example(parsed: Option<Example>, line: Seq<u8>) -> bool {
    match (parsed, example_of(line)) {
        (Some(example), Some((label, entries))) => example.label == label && example.entries@
            == entries,
        (None, None) => true,
        _ => false,
    }
}

/// Reads one line, the stretch of `s` from `from` to `to`, as an example.
pub fn parse_line(s: &[u8], from: usize, to: usize) -> (parsed: Option<Example>)
    requires
        from <= to <= s@.len(),
    ensures
        is_example(parsed, s@.subrange(from as int, to as int)),
{
    let ghost line = s@.subrange(from as int, to as int);
    let tokens = word_spans(s, from, to);
    let ghost parts = words(line);
    if tokens.len() == 0 {
        return None;
    }
    let label = match parse_decimal(s, tokens[0].start, tokens[0].end) {
        Some(d) => {
            let one = Decimal::whole(false, 1);
            if d.same_value(&one) {
                Decimal::whole(false, 1)
            } else {
                Decimal::whole(true, 1)
            }
        },
        None => Decimal::whole(true, 1),
    };
    proof {
        assert(parts[0] == s@.subrange(tokens@[0].start as int, tokens@[0].end as int));
    }
    let ghost rest = parts.skip(1);
    let mut entries: Vec<Entry> = Vec::new();
    let mut k: usize = 1;
    while k < tokens.len()
        invariant
            1 <= k <= tokens@.len(),
            from <= to <= s@.len(),
            line == s@.subrange(from as int, to as int),
            parts == words(line),
            rest == parts.skip(1),
            pieces(s@, tokens@) == parts,
            spans_within(tokens@, from as int, to as int),
            entries@.len() == k - 1,
            ascending(entries@),
            forall|j: int|
                0 <= j < k - 1 ==> entry_of(#[trigger] rest[j]) == Some(entries@[j]),
        decreases tokens@.len() - k,
    {
        let token = tokens[k];
        proof {
            assert(rest[k - 1] == parts[k as int]);
        }
        let entry = match parse_entry(s, token.start, token.end) {
            Some(entry) => entry,
            None => {
                return None;
            },
        };
        let len = entries.len();
        if len > 0 && entries[len - 1].index >= entry.index {
            proof {
                if entries_of(rest) is Some {
                    let all = entries_of(rest).unwrap();
                    assert(all[k - 2] == entries@[k - 2]);
                    assert(all[k - 1] == entry);
                }
            }
            return None;
        }
        entries.push(entry);
        k = k + 1;
    }
    proof {
        let all = Seq::new(rest.len(), |j: int| entry_of(rest[j]).unwrap());
        assert(all =~= entries@);
    }
    Some(Example { label, entries })
}

/// A row in full: the values that the features from 1 to `width` have in
/// it.
pub fn dense_row(entries: &Vec<Entry>, width: usize) -> (row: Vec<Decimal>)
    requires
        ascending(entries@),
        forall|k: int| 0 <= k < entries@.len() ==> 1 <= (#[trigger] entries@[k]).index <= width,
    ensures
        row@ == dense(entries@, width as nat),
{
    let mut row: Vec<Decimal> = Vec::new();
    let mut k: usize = 0;
    while k < entries.len()
        invariant
            k <= entries@.len(),
            ascending(entries@),
            forall|j: int|
                0 <= j < entries@.len() ==> 1 <= (#[trigger] entries@[j]).index <= width,
            row@.len() == if k == 0 {
                0
            } else {
                entries@[k - 1].index as int
            },
            forall|p: int| 0 <= p < row@.len() ==> #[trigger] row@[p] == lookup(entries@, p + 1),
        decreases entries@.len() - k,
    {
        let entry = entries[k];
        while row.len() + 1 < entry.index
            invariant
                k < entries@.len(),
                entry == entries@[k as int],
                ascending(entries@),
                row@.len() < entry.index,
                k > 0 ==> row@.len() >= entries@[k - 1].index,
                forall|p: int|
                    0 <= p < row@.len() ==> #[trigger] row@[p] == lookup(entries@, p + 1),
            decreases entry.index - row@.len(),
        {
            proof {
                let index: int = row@.len() as int + 1;
                lemma_lookup_unlisted(entries@, index);
            }
            row.push(Decimal::whole(false, 0));
        }
        proof {
            lemma_lookup_listed(entries@, k as int);
        }
        row.push(entry.value);
        k = k + 1;
    }
    while row.len() < width
        invariant
            row@.len() <= width,
            ascending(entries@),
            row@.len() >= if entries@.len() == 0 {
                0
            } else {
                entries@[entries@.len() - 1].index as int
            },
            forall|p: int| 0 <= p < row@.len() ==> #[trigger] row@[p] == lookup(entries@, p + 1),
        decreases width - row@.len(),
    {
        proof {
            let index: int = row@.len() as int + 1;
            lemma_lookup_unlisted(entries@, index);
        }
        row.push(Decimal::whole(false, 0));
    }
    row
}

/// No line of the first `upto` has a larger index than `width_of` says.
pub proof fn lemma_width_covers(lines: Seq<Seq<u8>>, upto: int, j: int)
    requires
        0 <= j < upto <= lines.len(),
        example_of(lines[j]) is Some,
    ensures
        last_index(example_of(lines[j]).unwrap().1) <= width_of(lines, upto),
    decreases upto,
{
    if j < upto - 1 {
        lemma_width_covers(lines, upto - 1, j);
    }
}

/// What `parse_data_file` returns for the lines of a text: the examples in
/// full and their labels, or the first line that is no example.
pub open spec fn is_data(
    parsed: Result<(Vec<Vec<Decimal>>, Vec<Decimal>), ParseError>,
    lines: Seq<Seq<u8>>,
) -> bool {
    match parsed {
        Ok((x, y)) => {
            &&& x@.len() == lines.len()
            &&& y@.len() == lines.len()
            &&& forall|i: int| 0 <= i < lines.len() ==> example_of(#[trigger] lines[i]) is Some
            &&& forall|i: int|
                0 <= i < lines.len() ==> #[trigger] y@[i] == example_of(lines[i]).unwrap().0
            &&& forall|i: int|
                0 <= i < lines.len() ==> (#[trigger] x@[i])@ == dense(
                    example_of(lines[i]).unwrap().1,
                    width_of(lines, lines.len() as int),
                )
        },
        Err(e) => {
            &&& e.line < lines.len()
            &&& example_of(lines[e.line as int]) is None
            &&& forall|i: int| 0 <= i < e.line ==> example_of(#[trigger] lines[i]) is Some
        },
    }
}

/// Reads the text of a data file: the matrix of the examples, one row for
/// each line and as many columns as the largest index in the file, and the
/// labels. A file with a line that is no example is refused, with the first
/// such line.
pub fn parse_data_file(text: &[u8]) -> (parsed: Result<
    (Vec<Vec<Decimal>>, Vec<Decimal>),
    ParseError,
>)
    ensures
        is_data(parsed, lines_of(text@)),
{
    let spans = line_spans(text);
    let ghost lines = lines_of(text@);
    let mut examples: Vec<Example> = Vec::new();
    let mut width: usize = 0;
    let mut i: usize = 0;
    while i < spans.len()
        invariant
            i <= spans@.len(),
            lines == lines_of(text@),
            spans@.len() == lines.len(),
            pieces(text@, spans@) == lines,
            spans_within(spans@, 0, text@.len() as int),
            examples@.len() == i,
            width == width_of(lines, i as int),
            forall|j: int|
                0 <= j < i ==> is_example(Some(#[trigger] examples@[j]), lines[j]),
        decreases spans@.len() - i,
    {
        let span = spans[i];
        let example = match parse_line(text, span.start, span.end) {
            Some(example) => example,
            None => {
                proof {
                    assert forall|j: int| 0 <= j < i implies example_of(
                        #[trigger] lines[j],
                    ) is Some by {
                        assert(is_example(Some(examples@[j]), lines[j]));
                    }
                }
                return Err(ParseError { line: i });
            },
        };
        let count = example.entries.len();
        if count > 0 && example.entries[count - 1].index > width {
            width = example.entries[count - 1].index;
        }
        examples.push(example);
        i = i + 1;
    }
    let mut x: Vec<Vec<Decimal>> = Vec::new();
    let mut y: Vec<Decimal> = Vec::new();
    let mut k: usize = 0;
    while k < examples.len()
        invariant
            k <= examples@.len(),
            lines == lines_of(text@),
            examples@.len() == lines.len(),
            width == width_of(lines, lines.len() as int),
            forall|j: int|
                0 <= j < lines.len() ==> is_example(Some(#[trigger] examples@[j]), lines[j]),
            x@.len() == k,
            y@.len() == k,
            forall|j: int| 0 <= j < k ==> #[trigger] y@[j] == example_of(lines[j]).unwrap().0,
            forall|j: int|
                0 <= j < k ==> (#[trigger] x@[j])@ == dense(
                    example_of(lines[j]).unwrap().1,
                    width as nat,
                ),
        decreases examples@.len() - k,
    {
        let ghost entries = examples@[k as int].entries@;
        proof {
            lemma_width_covers(lines, lines.len() as int, k as int);
        }
        let row = dense_row(&examples[k].entries, width);
        x.push(row);
        y.push(examples[k].label);
        k = k + 1;
    }
    proof {
        assert forall|j: int| 0 <= j < lines.len() implies example_of(#[trigger] lines[j]) is Some by {
            assert(is_example(Some(examples@[j]), lines[j]));
        }
    }
    Ok((x, y))
}

/// What `load_vector` returns for the lines of a text: the number on each
/// line, or the first line that is no number.
pub open spec fn is_vector(parsed: Result<Vec<Decimal>, ParseError>, lines: Seq<Seq<u8>>) -> bool {
    match parsed {
        Ok(v) => {
            &&& v@.len() == lines.len()
            &&& forall|i: int|
                0 <= i < lines.len() ==> decimal_of(#[trigger] lines[i]) == Some(v@[i])
        },
        Err(e) => {
            &&& e.line < lines.len()
            &&& decimal_of(lines[e.line as int]) is None
            &&& forall|i: int| 0 <= i < e.line ==> decimal_of(#[trigger] lines[i]) is Some
        },
    }
}

/// Reads the text of a list of numbers, one on each line. A text with a line
/// that is no number is refused, with the first such line.
pub fn load_vector(text: &[u8]) -> (parsed: Result<Vec<Decimal>, ParseError>)
    ensures
        is_vector(parsed, lines_of(text@)),
{
    let spans = line_spans(text);
    let ghost lines = lines_of(text@);
    let mut result: Vec<Decimal> = Vec::new();
    let mut i: usize = 0;
    while i < spans.len()
        invariant
            i <= spans@.len(),
            lines == lines_of(text@),
            spans@.len() == lines.len(),
            pieces(text@, spans@) == lines,
            spans_within(spans@, 0, text@.len() as int),
            result@.len() == i,
            forall|j: int| 0 <= j < i ==> decimal_of(#[trigger] lines[j]) == Some(result@[j]),
        decreases spans@.len() - i,
    {
        let span = spans[i];
        match parse_decimal(text, span.start, span.end) {
            Some(d) => {
                result.push(d);
            },
            None => {
                return Err(ParseError { line: i });
            },
        }
        i = i + 1;
    }
    Ok(result)
}

} // verus!
