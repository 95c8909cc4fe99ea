//! Byte-level reading: cutting text at a separator, trimming trailing white
//! space and reading unsigned decimal numbers.

use vstd::prelude::*;

verus! {

pub const LINE_FEED: u8 = 10;

pub const CARRIAGE_RETURN: u8 = 13;

pub const SPACE: u8 = 32;

pub const PLUS: u8 = 43;

pub const DIGIT_ZERO: u8 = 48;

pub const DIGIT_NINE: u8 = 57;

/// A stretch of a byte text, from `start` up to but excluding `end`.
#[derive(Debug, Clone, Copy, PartialEq, Eq, Structural)]
pub struct Span {
    pub start: usize,
    pub end: usize,
}

impl Span {
    /// The bytes of `text` that the span covers.
    pub open spec fn of(self, text: Seq<u8>) -> Seq<u8> {
        text.subrange(self.start as int, self.end as int)
    }

    /// The span lies inside `outer`, start before end.
    pub open spec fn within(self, outer: Span) -> bool {
        outer.start <= self.start <= self.end <= outer.end
    }
}

/// The pieces into which `separator` cuts `text`. A text without separator is
/// one piece; each separator ends a piece and opens the next, so that a text of
/// `n` separators has `n + 1` pieces, some of them possibly empty.
pub open spec fn split_on(text: Seq<u8>, separator: u8) -> Seq<Seq<u8>>
    decreases text.len(),
{
    if text.len() == 0 {
        seq![Seq::<u8>::empty()]
    } else {
        let before = split_on(text.drop_last(), separator);
        if text.last() == separator {
            before.push(Seq::<u8>::empty())
        } else {
            before.drop_last().push(before.last().push(text.last()))
        }
    }
}

/// A text is cut into at least one piece.
pub proof fn lemma_split_on_nonempty(text: Seq<u8>, separator: u8)
    ensures
        split_on(text, separator).len() >= 1,
        split_on(text, separator).len() <= text.len() + 1,
    decreases text.len(),
{
    if text.len() > 0 {
        lemma_split_on_nonempty(text.drop_last(), separator);
    }
}

/// Cuts the stretch `span` of `input` at every `separator`.
pub fn split(input: &[u8], span: Span, separator: u8) -> (pieces: Vec<Span>)
    requires
        span.start <= span.end <= input@.len(),
    ensures
        pieces@.len() == split_on(span.of(input@), separator).len(),
        forall|k: int|
            0 <= k < pieces@.len() ==> (#[trigger] pieces@[k]).within(span) && pieces@[k].of(input@)
                == split_on(span.of(input@), separator)[k],
{
    let mut pieces: Vec<Span> = Vec::new();
    let mut start: usize = span.start;
    let mut i: usize = span.start;
    while i < span.end
        invariant
            span.start <= start <= i <= span.end <= input@.len(),
            pieces@.len() + 1 == split_on(input@.subrange(span.start as int, i as int), separator).len(),
            forall|k: int|
                0 <= k < pieces@.len() ==> (#[trigger] pieces@[k]).within(span) && pieces@[k].of(input@)
                    == split_on(input@.subrange(span.start as int, i as int), separator)[k],
            input@.subrange(start as int, i as int) == split_on(
                input@.subrange(span.start as int, i as int),
                separator,
            ).last(),
        decreases span.end - i,
    {
        let ghost seen = input@.subrange(span.start as int, i as int);
        let ghost next = input@.subrange(span.start as int, i + 1);
        assert(next.drop_last() =~= seen);
        assert(next.last() == input@[i as int]);
        if input[i] == separator {
            pieces.push(Span { start, end: i });
            start = i + 1;
            assert(input@.subrange(start as int, i + 1) =~= Seq::<u8>::empty());
        } else {
            assert(input@.subrange(start as int, i + 1) =~= input@.subrange(
                start as int,
                i as int,
            ).push(input@[i as int]));
        }
        i += 1;
    }
    pieces.push(Span { start, end: span.end });
    pieces
}

/// White space in the ASCII range: the space, and tab to carriage return.
pub open spec fn is_space(byte: u8) -> bool {
    byte == SPACE || 9 <= byte <= CARRIAGE_RETURN
}

/// `text` without the white space at its end.
pub open spec fn trimmed(text: Seq<u8>) -> Seq<u8>
    decreases text.len(),
{
    if text.len() > 0 && is_space(text.last()) {
        trimmed(text.drop_last())
    } else {
        text
    }
}

/// Shortens `span` so that it ends before the white space at its end.
pub fn trim_end(input: &[u8], span: Span) -> (short: Span)
    requires
        span.start <= span.end <= input@.len(),
    ensures
        short.start == span.start,
        short.within(span),
        short.of(input@) == trimmed(span.of(input@)),
{
    let mut end: usize = span.end;
    while end > span.start && (input[end - 1] == SPACE || (9 <= input[end - 1] && input[end - 1]
        <= CARRIAGE_RETURN))
        invariant
            span.start <= end <= span.end <= input@.len(),
            trimmed(input@.subrange(span.start as int, end as int)) == trimmed(span.of(input@)),
        decreases end,
    {
        assert(input@.subrange(span.start as int, end as int).drop_last() =~= input@.subrange(
            span.start as int,
            end - 1,
        ));
        end -= 1;
    }
    Span { start: span.start, end }
}

/// A decimal digit.
pub open spec fn is_digit(byte: u8) -> bool {
    DIGIT_ZERO <= byte <= DIGIT_NINE
}

/// Every byte of `text` is a decimal digit.
pub open spec fn all_digits(text: Seq<u8>) -> bool {
    forall|i: int| 0 <= i < text.len() ==> is_digit(#[trigger] text[i])
}

/// The number that a digit stands for; 0 for any other byte.
pub open spec fn digit_value(byte: u8) -> nat {
    if is_digit(byte) {
        (byte - DIGIT_ZERO) as nat
    } else {
        0
    }
}

/// The number that a text of decimal digits denotes, most significant first.
pub open spec fn digits_value(text: Seq<u8>) -> nat
    decreases text.len(),
{
    if text.len() == 0 {
        0
    } else {
        10 * digits_value(text.drop_last()) + digit_value(text.last())
    }
}

/// `text` without a plus sign at its front.
pub open spec fn unsigned_part(text: Seq<u8>) -> Seq<u8> {
    if text.len() > 0 && text[0] == PLUS {
        text.subrange(1, text.len() as int)
    } else {
        text
    }
}

/// The number that `text` denotes, if `text` is a decimal number no greater
/// than `max`: one or more digits, which a single plus sign may precede.
pub open spec fn decimal(text: Seq<u8>, max: nat) -> Option<nat> {
    let digits = unsigned_part(text);
    if digits.len() > 0 && all_digits(digits) && digits_value(digits) <= max {
        Some(digits_value(digits))
    } else {
        None
    }
}

/// A number is no smaller than the number its leading digits denote.
pub proof fn lemma_digits_value_prefix(text: Seq<u8>, k: int)
    requires
        0 <= k <= text.len(),
    ensures
        digits_value(text.take(k)) <= digits_value(text),
    decreases text.len(),
{
    if k == text.len() {
        assert(text.take(k) =~= text);
    } else {
        lemma_digits_value_prefix(text.drop_last(), k);
        assert(text.drop_last().take(k) =~= text.take(k));
    }
}

/// Reads the stretch `span` of `input` as a decimal number no greater than
/// `max`.
pub fn parse_decimal(input: &[u8], span: Span, max: u64) -> (number: Option<u64>)
    requires
        span.start <= span.end <= input@.len(),
    ensures
        match number {
            Some(value) => decimal(span.of(input@), max as nat) == Some(value as nat),
            None => decimal(span.of(input@), max as nat) is None,
        },
{
    let mut i: usize = span.start;
    if i < span.end && input[i] == PLUS {
        i += 1;
    }
    let first: usize = i;
    let ghost digits = input@.subrange(first as int, span.end as int);
    assert(digits =~= unsigned_part(span.of(input@)));
    if first == span.end {
        return None;
    }
    let mut value: u64 = 0;
    while i < span.end
        invariant
            span.start <= first <= i <= span.end <= input@.len(),
            digits == input@.subrange(first as int, span.end as int),
            digits == unsigned_part(span.of(input@)),
            all_digits(digits.take(i - first)),
            value == digits_value(digits.take(i - first)),
            value <= max,
        decreases span.end - i,
    {
        let byte: u8 = input[i];
        let ghost seen = digits.take(i - first);
        let ghost next = digits.take(i - first + 1);
        assert(next.drop_last() =~= seen);
        assert(next.last() == byte);
        if byte < DIGIT_ZERO || byte > DIGIT_NINE {
            assert(!is_digit(digits[i - first]));
            return None;
        }
        let digit: u64 = (byte - DIGIT_ZERO) as u64;
        proof {
            lemma_digits_value_prefix(digits, i - first + 1);
        }
        if value > max / 10 {
            return None;
        }
        let shifted: u64 = value * 10;
        if digit > max - shifted {
            return None;
        }
        value = shifted + digit;
        i += 1;
    }
    assert(digits.take(i - first) =~= digits);
    Some(value)
}

} // verus!
