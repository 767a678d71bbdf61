//! Text as bytes: splitting at a separator or at white space, and reading
//! numbers, with or without an exponent.
use crate::number::Decimal;
use vstd::prelude::*;

verus! {

/// A stretch of a text: the bytes from `start` up to, not including, `end`.
#[derive(Clone, Copy, Debug)]
pub struct Span {
    pub start: usize,
    pub end: usize,
}

/// The position of the first `sep` in `s`, or the length of `s` if there is
/// none.
pub open spec fn first_index(s: Seq<u8>, sep: u8) -> int
    decreases s.len(),
{
    if s.len() == 0 || s[0] == sep {
        0
    } else {
        1 + first_index(s.skip(1), sep)
    }
}

/// The pieces of `s` between the separators `sep`. A text without a
/// separator is one piece; two separators in a row have an empty piece
/// between them.
pub open spec fn split(s: Seq<u8>, sep: u8) -> Seq<Seq<u8>>
    decreases s.len(),
{
    let i = first_index(s, sep);
    if 0 <= i < s.len() {
        seq![s.take(i)] + split(s.skip(i + 1), sep)
    } else {
        seq![s]
    }
}

/// The stretches of the text `s` that the spans mark.
pub open spec fn pieces(s: Seq<u8>, spans: Seq<Span>) -> Seq<Seq<u8>> {
    Seq::new(spans.len(), |k: int| s.subrange(spans[k].start as int, spans[k].end as int))
}

/// Every span lies within the stretch from `from` to `to`.
pub open spec fn spans_within(spans: Seq<Span>, from: int, to: int) -> bool {
    forall|k: int|
        0 <= k < spans.len() ==> from <= (#[trigger] spans[k]).start <= spans[k].end <= to
}

/// The first separator is where the first separator is.
pub proof fn lemma_first_index(s: Seq<u8>, sep: u8, p: int)
    requires
        0 <= p <= s.len(),
        forall|k: int| 0 <= k < p ==> s[k] != sep,
        p < s.len() ==> s[p] == sep,
    ensures
        first_index(s, sep) == p,
    decreases p,
{
    if p > 0 {
        let rest = s.skip(1);
        lemma_first_index(rest, sep, p - 1);
    }
}

/// The spans of the pieces of the stretch of `s` from `from` to `to` between
/// the separators `sep`.
pub fn split_spans(s: &[u8], from: usize, to: usize, sep: u8) -> (spans: Vec<Span>)
    requires
        from <= to <= s@.len(),
    ensures
        pieces(s@, spans@) == split(s@.subrange(from as int, to as int), sep),
        spans_within(spans@, from as int, to as int),
        spans@.len() >= 1,
{
    let mut spans: Vec<Span> = Vec::new();
    let mut start: usize = from;
    let mut i: usize = from;
    while i < to
        invariant
            from <= start <= i <= to <= s@.len(),
            forall|k: int| start <= k < i ==> s@[k] != sep,
            spans_within(spans@, from as int, to as int),
            split(s@.subrange(from as int, to as int), sep) == pieces(s@, spans@) + split(
                s@.subrange(start as int, to as int),
                sep,
            ),
        decreases to - i,
    {
        if s[i] == sep {
            proof {
                let rest = s@.subrange(start as int, to as int);
                let p = i - start;
                lemma_first_index(rest, sep, p);
                assert(rest.take(p) =~= s@.subrange(start as int, i as int));
                assert(rest.skip(p + 1) =~= s@.subrange(i + 1, to as int));
            }
            spans.push(Span { start, end: i });
            start = i + 1;
        }
        i = i + 1;
    }
    proof {
        let rest = s@.subrange(start as int, to as int);
        lemma_first_index(rest, sep, rest.len() as int);
    }
    spans.push(Span { start, end: to });
    spans
}

/// Whether the byte is white space within a line: a space, a tab, or one of
/// the other three blank bytes.
pub open spec fn is_blank(b: u8) -> bool {
    b == 32 || b == 9 || b == 11 || b == 12 || b == 13
}

/// The count of the bytes at the start of `s` that are blank, where `blank`
/// is set, or that are not blank, where it is not.
pub open spec fn run(s: Seq<u8>, blank: bool) -> int
    decreases s.len(),
{
    if s.len() == 0 || is_blank(s[0]) != blank {
        0
    } else {
        1 + run(s.skip(1), blank)
    }
}

/// The words of `s`: the stretches without white space, which white space
/// of any length parts. White space at either end parts nothing.
pub open spec fn words(s: Seq<u8>) -> Seq<Seq<u8>>
    decreases s.len(),
{
    let a = run(s, true);
    if 0 <= a <= s.len() {
        let rest = s.skip(a);
        let b = run(rest, false);
        if 0 < b <= rest.len() {
            seq![rest.take(b)] + words(rest.skip(b))
        } else {
            Seq::empty()
        }
    } else {
        Seq::empty()
    }
}

/// A run ends where the first byte of the other kind stands.
pub proof fn lemma_run(s: Seq<u8>, blank: bool, p: int)
    requires
        0 <= p <= s.len(),
        forall|k: int| 0 <= k < p ==> is_blank(s[k]) == blank,
        p < s.len() ==> is_blank(s[p]) != blank,
    ensures
        run(s, blank) == p,
    decreases p,
{
    if p > 0 {
        let rest = s.skip(1);
        assert forall|k: int| 0 <= k < p - 1 implies is_blank(rest[k]) == blank by {
            assert(rest[k] == s[k + 1]);
        }
        if p < s.len() {
            assert(rest[p - 1] == s[p]);
        }
        lemma_run(rest, blank, p - 1);
    }
}

/// The spans of the words of the stretch of `s` from `from` to `to`.
pub fn word_spans(s: &[u8], from: usize, to: usize) -> (spans: Vec<Span>)
    requires
        from <= to <= s@.len(),
    ensures
        pieces(s@, spans@) == words(s@.subrange(from as int, to as int)),
        spans_within(spans@, from as int, to as int),
{
    let mut spans: Vec<Span> = Vec::new();
    let mut pos: usize = from;
    proof {
        assert(pieces(s@, spans@) =~= Seq::<Seq<u8>>::empty());
        assert(pieces(s@, spans@) + words(s@.subrange(pos as int, to as int)) =~= words(
            s@.subrange(from as int, to as int),
        ));
    }
    loop
        invariant
            from <= pos <= to <= s@.len(),
            spans_within(spans@, from as int, to as int),
            words(s@.subrange(from as int, to as int)) == pieces(s@, spans@) + words(
                s@.subrange(pos as int, to as int),
            ),
        ensures
            pieces(s@, spans@) == words(s@.subrange(from as int, to as int)),
            spans_within(spans@, from as int, to as int),
        decreases to - pos,
    {
        let ghost whole = s@.subrange(pos as int, to as int);
        let mut a: usize = pos;
        while a < to && is_blank_byte(s[a])
            invariant
                pos <= a <= to <= s@.len(),
                forall|k: int| pos <= k < a ==> is_blank(s@[k]),
            decreases to - a,
        {
            a = a + 1;
        }
        let ghost rest = s@.subrange(a as int, to as int);
        proof {
            assert forall|k: int| 0 <= k < a - pos implies is_blank(whole[k]) == true by {
                assert(whole[k] == s@[pos + k]);
            }
            if a < to {
                assert(whole[a - pos] == s@[a as int]);
            }
            lemma_run(whole, true, a - pos);
            assert(whole.skip(a - pos) =~= rest);
        }
        if a == to {
            proof {
                lemma_run(rest, false, 0);
                assert(words(whole) =~= Seq::<Seq<u8>>::empty());
                assert(pieces(s@, spans@) + Seq::<Seq<u8>>::empty() =~= pieces(s@, spans@));
            }
            break ;
        }
        let mut b: usize = a + 1;
        while b < to && !is_blank_byte(s[b])
            invariant
                a < b <= to <= s@.len(),
                forall|k: int| a <= k < b ==> !is_blank(s@[k]),
            decreases to - b,
        {
            b = b + 1;
        }
        proof {
            assert forall|k: int| 0 <= k < b - a implies is_blank(rest[k]) == false by {
                assert(rest[k] == s@[a + k]);
            }
            if b < to {
                assert(rest[b - a] == s@[b as int]);
            }
            lemma_run(rest, false, b - a);
            assert(rest.take(b - a) =~= s@.subrange(a as int, b as int));
            assert(rest.skip(b - a) =~= s@.subrange(b as int, to as int));
            let done = spans@.push(Span { start: a, end: b });
            assert(pieces(s@, done) =~= pieces(s@, spans@) + seq![
                s@.subrange(a as int, b as int),
            ]);
            assert(words(whole) == seq![s@.subrange(a as int, b as int)] + words(
                s@.subrange(b as int, to as int),
            ));
            assert(pieces(s@, done) + words(s@.subrange(b as int, to as int)) =~= pieces(
                s@,
                spans@,
            ) + words(whole));
        }
        spans.push(Span { start: a, end: b });
        pos = b;
    }
    spans
}

/// Whether the byte is white space within a line.
pub fn is_blank_byte(b: u8) -> (blank: bool)
    ensures
        blank == is_blank(b),
{
    b == 32u8 || b == 9u8 || b == 11u8 || b == 12u8 || b == 13u8
}

/// Whether the byte is a decimal digit.
pub open spec fn is_digit(b: u8) -> bool {
    48 <= b <= 57
}

/// Whether every byte is a decimal digit.
pub open spec fn all_digits(s: Seq<u8>) -> bool {
    forall|i: int| 0 <= i < s.len() ==> is_digit(#[trigger] s[i])
}

/// The number that a row of decimal digits stands for.
pub open spec fn digits_value(s: Seq<u8>) -> nat
    decreases s.len(),
{
    if s.len() == 0 {
        0
    } else {
        (10 * digits_value(s.drop_last()) + (s.last() - 48)) as nat
    }
}

/// The count of the digits of a row up to its last digit that is not `0`.
pub open spec fn kept(s: Seq<u8>) -> int
    decreases s.len(),
{
    if s.len() == 0 {
        0
    } else if s.last() == 48 {
        kept(s.drop_last())
    } else {
        s.len() as int
    }
}

/// A row of digits without the zeros at its end.
pub open spec fn trimmed(s: Seq<u8>) -> Seq<u8> {
    s.take(kept(s))
}

/// A number without its sign.
pub open spec fn number_body(token: Seq<u8>) -> Seq<u8> {
    if token.len() > 0 && (token[0] == 45 || token[0] == 43) {
        token.skip(1)
    } else {
        token
    }
}

/// The position of the first `e` or `E` in `s`, or the length of `s` if
/// there is none.
pub open spec fn exponent_mark(s: Seq<u8>) -> int
    decreases s.len(),
{
    if s.len() == 0 || s[0] == 101 || s[0] == 69 {
        0
    } else {
        1 + exponent_mark(s.skip(1))
    }
}

/// The digits of a number written as digits and digits after a point, where
/// either part may be missing: those before the point and those after it,
/// in one row.
pub open spec fn number_digits(mantissa: Seq<u8>) -> Seq<u8> {
    let point = first_index(mantissa, 46);
    if 0 <= point < mantissa.len() {
        mantissa.take(point) + mantissa.skip(point + 1)
    } else {
        mantissa
    }
}

/// The count of the digits after the point.
pub open spec fn number_places(mantissa: Seq<u8>) -> nat {
    let point = first_index(mantissa, 46);
    if 0 <= point < mantissa.len() {
        (mantissa.len() - point - 1) as nat
    } else {
        0
    }
}

/// The largest exponent, of either sign, that a number may be written with.
pub const MAX_EXPONENT: u64 = 1000000;

/// The exponent that the bytes after the `e` stand for, if they are one: an
/// optional sign and digits, for a number up to `MAX_EXPONENT`.
pub open spec fn exponent_of(s: Seq<u8>) -> Option<int> {
    let digits = number_body(s);
    if digits.len() >= 1 && all_digits(digits) && digits_value(digits) <= MAX_EXPONENT {
        if s[0] == 45 {
            Some(-(digits_value(digits) as int))
        } else {
            Some(digits_value(digits) as int)
        }
    } else {
        None
    }
}

/// The decimal that a token stands for, if it is a number: an optional sign
/// `+` or `-`; digits, of which any may follow one point, and at least one
/// digit in all; and optionally an `e` or `E` with an exponent. The zeros at
/// the end of the digits are carried in the scale; the digits before them,
/// read as one whole number, fit in 64 bits, and the scale in 32.
pub open spec fn decimal_of(token: Seq<u8>) -> Option<Decimal> {
    let body = number_body(token);
    let mark = exponent_mark(body);
    let mantissa = body.take(mark);
    let exponent = if 0 <= mark < body.len() {
        exponent_of(body.skip(mark + 1))
    } else {
        Some(0int)
    };
    let digits = number_digits(mantissa);
    let scale = number_places(mantissa) - exponent.unwrap() - (digits.len() - kept(digits));
    if digits.len() >= 1 && all_digits(digits) && digits_value(trimmed(digits)) <= u64::MAX
        && exponent is Some && i32::MIN <= scale <= i32::MAX {
        Some(
            Decimal {
                negative: token[0] == 45,
                digits: digits_value(trimmed(digits)) as u64,
                scale: scale as i32,
            },
        )
    } else {
        None
    }
}

/// A row of digits with more digits after it stands for at least as much.
pub proof fn lemma_digits_grow(s: Seq<u8>, k: int)
    requires
        0 <= k <= s.len(),
        all_digits(s),
    ensures
        digits_value(s.take(k)) <= digits_value(s),
    decreases s.len() - k,
{
    if k < s.len() {
        lemma_digits_grow(s, k + 1);
        assert(s.take(k + 1).drop_last() =~= s.take(k));
    } else {
        assert(s.take(k) =~= s);
    }
}

/// A row keeps every digit up to one that is not a zero.
pub proof fn lemma_kept_reaches(s: Seq<u8>, n: int)
    requires
        1 <= n <= s.len(),
        s[n - 1] != 48,
    ensures
        n <= kept(s) <= s.len(),
    decreases s.len(),
{
    if n < s.len() && s.last() == 48 {
        let shorter = s.drop_last();
        assert(shorter[n - 1] == s[n - 1]);
        lemma_kept_reaches(shorter, n);
    }
}

/// The position of the marker of the exponent is where the first marker is.
pub proof fn lemma_exponent_mark(s: Seq<u8>, p: int)
    requires
        0 <= p <= s.len(),
        forall|k: int| 0 <= k < p ==> s[k] != 101 && s[k] != 69,
        p < s.len() ==> s[p] == 101 || s[p] == 69,
    ensures
        exponent_mark(s) == p,
    decreases p,
{
    if p > 0 {
        let rest = s.skip(1);
        assert forall|k: int| 0 <= k < p - 1 implies rest[k] != 101 && rest[k] != 69 by {
            assert(rest[k] == s[k + 1]);
        }
        if p < s.len() {
            assert(rest[p - 1] == s[p]);
        }
        lemma_exponent_mark(rest, p - 1);
    }
}

/// The digits among the first `i` bytes of a mantissa: those bytes without
/// the first point, if it is among them.
pub open spec fn digits_before(mantissa: Seq<u8>, i: int) -> Seq<u8> {
    let point = first_index(mantissa, 46);
    if 0 <= point < i {
        mantissa.take(point) + mantissa.subrange(point + 1, i)
    } else {
        mantissa.take(i)
    }
}

/// The digits among the first bytes of a mantissa begin its digits, and each
/// byte but the first point adds one to them.
pub proof fn lemma_digits_before(mantissa: Seq<u8>, i: int)
    requires
        0 <= i <= mantissa.len(),
    ensures
        digits_before(mantissa, mantissa.len() as int) == number_digits(mantissa),
        digits_before(mantissa, i).len() <= number_digits(mantissa).len(),
        number_digits(mantissa).take(digits_before(mantissa, i).len() as int) == digits_before(
            mantissa,
            i,
        ),
        digits_before(mantissa, i).len() == if first_index(mantissa, 46) < i {
            i - 1
        } else {
            i
        },
        i < mantissa.len() ==> digits_before(mantissa, i + 1) == if first_index(mantissa, 46)
            == i {
            digits_before(mantissa, i)
        } else {
            digits_before(mantissa, i).push(mantissa[i])
        },
{
    let point = first_index(mantissa, 46);
    let full = number_digits(mantissa);
    let seen = digits_before(mantissa, i);
    lemma_first_index_bounds(mantissa, 46);
    assert(digits_before(mantissa, mantissa.len() as int) =~= full);
    assert(full.take(seen.len() as int) =~= seen);
    if i < mantissa.len() {
        if point == i {
            assert(digits_before(mantissa, i + 1) =~= seen);
        } else {
            assert(digits_before(mantissa, i + 1) =~= seen.push(mantissa[i]));
        }
    }
}

/// Only zeros follow the digits that a row keeps, and the last of those is
/// not a zero.
pub proof fn lemma_kept_bounds(s: Seq<u8>)
    ensures
        0 <= kept(s) <= s.len(),
        forall|k: int| kept(s) <= k < s.len() ==> s[k] == 48,
        kept(s) > 0 ==> s[kept(s) - 1] != 48,
    decreases s.len(),
{
    if s.len() > 0 && s.last() == 48 {
        let shorter = s.drop_last();
        lemma_kept_bounds(shorter);
        assert forall|k: int| kept(s) <= k < s.len() implies s[k] == 48 by {
            if k < shorter.len() {
                assert(s[k] == shorter[k]);
            }
        }
        if kept(s) > 0 {
            assert(s[kept(s) - 1] == shorter[kept(s) - 1]);
        }
    }
}

/// A zero after a row of digits leaves what the row keeps; any other digit
/// makes it keep all.
pub proof fn lemma_kept_push(s: Seq<u8>, b: u8)
    ensures
        kept(s.push(b)) == if b == 48 {
            kept(s)
        } else {
            s.len() as int + 1
        },
        b == 48 ==> trimmed(s.push(b)) == trimmed(s),
        b != 48 ==> trimmed(s.push(b)) == s.push(b),
        is_digit(b) ==> digits_value(s.push(b)) == 10 * digits_value(s) + (b - 48),
        all_digits(s) && is_digit(b) ==> all_digits(s.push(b)),
{
    let longer = s.push(b);
    assert(longer.drop_last() =~= s);
    lemma_kept_bounds(s);
    if b == 48 {
        assert(longer.take(kept(s)) =~= s.take(kept(s)));
    } else {
        assert(longer.take(longer.len() as int) =~= longer);
    }
    if all_digits(s) && is_digit(b) {
        assert forall|k: int| 0 <= k < longer.len() implies is_digit(#[trigger] longer[k]) by {
            if k < s.len() {
                assert(longer[k] == s[k]);
            }
        }
    }
}

/// The digits of a number up to one that is not a zero stand for no more
/// than the number's digits without the zeros at their end.
pub proof fn lemma_digits_bound(full: Seq<u8>, n: int)
    requires
        1 <= n <= full.len(),
        all_digits(full),
        full[n - 1] != 48,
    ensures
        digits_value(full.take(n)) <= digits_value(trimmed(full)),
{
    lemma_kept_reaches(full, n);
    assert(trimmed(full).take(n) =~= full.take(n));
    assert forall|k: int| 0 <= k < trimmed(full).len() implies is_digit(
        #[trigger] trimmed(full)[k],
    ) by {
        assert(trimmed(full)[k] == full[k]);
    }
    lemma_digits_grow(trimmed(full), n);
}

/// The digits of a mantissa: the digits without the zeros at their end as a
/// number, the count of the digits after the point, and the count of the
/// zeros at the end.
pub struct Mantissa {
    pub digits: u64,
    pub places: usize,
    pub zeros: usize,
}

/// What `parse_mantissa` returns for a mantissa.
pub open spec fn is_mantissa(parsed: Option<Mantissa>, mantissa: Seq<u8>) -> bool {
    let digits = number_digits(mantissa);
    match parsed {
        Some(m) => {
            &&& digits.len() >= 1
            &&& all_digits(digits)
            &&& m.digits == digits_value(trimmed(digits))
            &&& m.places == number_places(mantissa)
            &&& m.zeros == digits.len() - kept(digits)
        },
        None => !(digits.len() >= 1 && all_digits(digits) && digits_value(trimmed(digits))
            <= u64::MAX),
    }
}

/// Ten times `acc` for each of the `zeros`, unless that is beyond 64 bits.
fn shifted(acc: u64, zeros: usize, Ghost(seen): Ghost<Seq<u8>>) -> (shifted: Option<u64>)
    requires
        zeros == seen.len() - kept(seen),
        acc == digits_value(trimmed(seen)),
        all_digits(seen),
    ensures
        match shifted {
            Some(r) => r == digits_value(seen),
            None => digits_value(seen) > u64::MAX,
        },
{
    let mut acc = acc;
    let mut left: usize = zeros;
    proof {
        lemma_kept_bounds(seen);
    }
    while left > 0
        invariant
            0 <= left <= seen.len(),
            all_digits(seen),
            acc == digits_value(seen.take(seen.len() - left)),
            forall|k: int| seen.len() - left <= k < seen.len() ==> seen[k] == 48,
        decreases left,
    {
        let ghost n = seen.len() - left;
        proof {
            assert(seen.take(n + 1).drop_last() =~= seen.take(n));
            assert(seen.take(n + 1).last() == 48);
            lemma_digits_grow(seen, n + 1);
        }
        if acc > u64::MAX / 10 {
            return None;
        }
        acc = acc * 10;
        left = left - 1;
    }
    proof {
        assert(seen.take(seen.len() as int) =~= seen);
    }
    Some(acc)
}

/// Reads the stretch of `s` from `from` to `to` as the digits of a number,
/// with or without a point.
pub fn parse_mantissa(s: &[u8], from: usize, to: usize) -> (parsed: Option<Mantissa>)
    requires
        from <= to <= s@.len(),
    ensures
        is_mantissa(parsed, s@.subrange(from as int, to as int)),
{
    let ghost body = s@.subrange(from as int, to as int);
    let ghost full = number_digits(body);
    let mut acc: u64 = 0;
    let mut zeros: usize = 0;
    let mut places: usize = 0;
    let mut point: bool = false;
    let mut i: usize = from;
    proof {
        lemma_first_index_bounds(body, 46);
        assert(digits_before(body, 0) =~= Seq::<u8>::empty());
    }
    while i < to
        invariant
            from <= i <= to <= s@.len(),
            body == s@.subrange(from as int, to as int),
            full == number_digits(body),
            point == (first_index(body, 46) < i - from),
            all_digits(digits_before(body, i - from)),
            acc == digits_value(trimmed(digits_before(body, i - from))),
            zeros == digits_before(body, i - from).len() - kept(digits_before(body, i - from)),
            places == if point {
                i - from - first_index(body, 46) - 1
            } else {
                0
            },
        decreases to - i,
    {
        let b = s[i];
        let ghost seen = digits_before(body, i - from);
        proof {
            assert(body[i - from] == b);
            lemma_digits_before(body, i - from);
            lemma_digits_before(body, i + 1 - from);
            lemma_first_index_is_sep(body, 46);
            lemma_first_index_bounds(body, 46);
            lemma_kept_push(seen, b);
            lemma_kept_bounds(seen);
        }
        if b == 46u8 && !point {
            point = true;
        } else if b >= 48u8 && b <= 57u8 {
            if b == 48u8 {
                zeros = zeros + 1;
            } else {
                proof {
                    if all_digits(full) {
                        assert(full[seen.len() as int] == full.take(
                            seen.len() as int + 1,
                        )[seen.len() as int]);
                        lemma_digits_bound(full, seen.len() as int + 1);
                    }
                }
                let digit: u64 = (b - 48u8) as u64;
                acc = match shifted(acc, zeros, Ghost(seen)) {
                    Some(r) => r,
                    None => {
                        return None;
                    },
                };
                if acc > (u64::MAX - digit) / 10 {
                    return None;
                }
                acc = acc * 10 + digit;
                zeros = 0;
            }
            if point {
                places = places + 1;
            }
        } else {
            proof {
                assert(full[seen.len() as int] == full.take(
                    seen.len() as int + 1,
                )[seen.len() as int]);
                assert(!is_digit(b));
            }
            return None;
        }
        i = i + 1;
    }
    proof {
        lemma_digits_before(body, body.len() as int);
        lemma_first_index_bounds(body, 46);
    }
    if i == from || (point && i == from + 1) {
        return None;
    }
    Some(Mantissa { digits: acc, places, zeros })
}

/// Reads the stretch of `s` from `from` to `to` as an exponent.
pub fn parse_exponent(s: &[u8], from: usize, to: usize) -> (exponent: Option<i64>)
    requires
        from <= to <= s@.len(),
    ensures
        match exponent {
            Some(e) => exponent_of(s@.subrange(from as int, to as int)) == Some(e as int),
            None => exponent_of(s@.subrange(from as int, to as int)) is None,
        },
{
    let ghost token = s@.subrange(from as int, to as int);
    let mut negative = false;
    let mut begin: usize = from;
    if from < to && (s[from] == 45u8 || s[from] == 43u8) {
        negative = s[from] == 45u8;
        begin = from + 1;
    }
    let ghost digits = s@.subrange(begin as int, to as int);
    proof {
        assert(token.len() > 0 ==> token[0] == s@[from as int]);
        assert(digits =~= number_body(token));
    }
    if begin == to {
        return None;
    }
    let mut acc: u64 = 0;
    let mut i: usize = begin;
    while i < to
        invariant
            begin <= i <= to <= s@.len(),
            digits == s@.subrange(begin as int, to as int),
            token == s@.subrange(from as int, to as int),
            digits == number_body(token),
            all_digits(digits.take(i - begin)),
            acc == digits_value(digits.take(i - begin)),
            acc <= MAX_EXPONENT,
        decreases to - i,
    {
        let b = s[i];
        let ghost seen = digits.take(i - begin);
        let ghost longer = digits.take(i + 1 - begin);
        proof {
            assert(digits[i - begin] == b);
            assert(longer.drop_last() =~= seen);
            assert(longer.last() == b);
        }
        if b < 48u8 || b > 57u8 {
            proof {
                assert(!is_digit(digits[i - begin]));
            }
            return None;
        }
        let digit: u64 = (b - 48u8) as u64;
        proof {
            assert forall|k: int| 0 <= k < longer.len() implies is_digit(#[trigger] longer[k]) by {
                if k < seen.len() {
                    assert(longer[k] == seen[k]);
                }
            }
        }
        if acc > (MAX_EXPONENT - digit) / 10 {
            proof {
                if all_digits(digits) {
                    lemma_digits_grow(digits, longer.len() as int);
                }
            }
            return None;
        }
        acc = acc * 10 + digit;
        i = i + 1;
    }
    proof {
        assert(digits.take(digits.len() as int) =~= digits);
        if from < to {
            assert(negative == (token[0] == 45));
        }
    }
    if negative {
        Some(-(acc as i64))
    } else {
        Some(acc as i64)
    }
}

/// Reads the stretch of `s` from `from` to `to` as a decimal.
pub fn parse_decimal(s: &[u8], from: usize, to: usize) -> (d: Option<Decimal>)
    requires
        from <= to <= s@.len(),
    ensures
        d == decimal_of(s@.subrange(from as int, to as int)),
{
    let ghost token = s@.subrange(from as int, to as int);
    let mut negative = false;
    let mut begin: usize = from;
    if from < to && (s[from] == 45u8 || s[from] == 43u8) {
        negative = s[from] == 45u8;
        begin = from + 1;
    }
    let ghost body = s@.subrange(begin as int, to as int);
    proof {
        assert(token.len() > 0 ==> token[0] == s@[from as int]);
        assert(body =~= number_body(token));
    }
    let mut end: usize = begin;
    while end < to && s[end] != 101u8 && s[end] != 69u8
        invariant
            begin <= end <= to <= s@.len(),
            forall|k: int| begin <= k < end ==> s@[k] != 101 && s@[k] != 69,
        decreases to - end,
    {
        end = end + 1;
    }
    proof {
        assert forall|k: int| 0 <= k < end - begin implies body[k] != 101 && body[k] != 69 by {
            assert(body[k] == s@[begin + k]);
        }
        if end < to {
            assert(body[end - begin] == s@[end as int]);
        }
        lemma_exponent_mark(body, end - begin);
        assert(body.take(end - begin) =~= s@.subrange(begin as int, end as int));
        if end < to {
            assert(body.skip(end - begin + 1) =~= s@.subrange(end + 1, to as int));
        }
    }
    let mantissa = match parse_mantissa(s, begin, end) {
        Some(m) => m,
        None => {
            return None;
        },
    };
    let exponent: i64 = if end < to {
        match parse_exponent(s, end + 1, to) {
            Some(e) => e,
            None => {
                return None;
            },
        }
    } else {
        0
    };
    let scale: i128 = mantissa.places as i128 - exponent as i128 - mantissa.zeros as i128;
    if scale < -2147483648 || scale > 2147483647 {
        return None;
    }
    proof {
        if from < to {
            assert(negative == (token[0] == 45));
        }
    }
    Some(Decimal { negative, digits: mantissa.digits, scale: scale as i32 })
}

/// The first separator lies within the text or at its end.
pub proof fn lemma_first_index_bounds(s: Seq<u8>, sep: u8)
    ensures
        0 <= first_index(s, sep) <= s.len(),
    decreases s.len(),
{
    if s.len() > 0 && s[0] != sep {
        lemma_first_index_bounds(s.skip(1), sep);
    }
}

/// At the first separator stands a separator, and none stands before it.
pub proof fn lemma_first_index_is_sep(s: Seq<u8>, sep: u8)
    ensures
        first_index(s, sep) < s.len() ==> s[first_index(s, sep)] == sep,
        forall|k: int| 0 <= k < first_index(s, sep) ==> s[k] != sep,
    decreases s.len(),
{
    if s.len() > 0 && s[0] != sep {
        let rest = s.skip(1);
        lemma_first_index_is_sep(rest, sep);
        lemma_first_index_bounds(rest, sep);
        assert forall|k: int| 0 <= k < first_index(s, sep) implies s[k] != sep by {
            if k > 0 {
                assert(s[k] == rest[k - 1]);
            }
        }
    }
}

} // verus!
