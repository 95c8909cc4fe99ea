use tangle::parse::{read_record, Record};
use tangle::text::{parse_decimal, split, trim_end, Span};

fn whole(text: &[u8]) -> Span {
    Span { start: 0, end: text.len() }
}

fn pieces(text: &str, separator: u8) -> Vec<String> {
    split(text.as_bytes(), whole(text.as_bytes()), separator)
        .iter()
        .map(|span| text[span.start..span.end].to_string())
        .collect()
}

#[test]
fn split_cuts_at_every_separator() {
    assert_eq!(pieces("1 22 333", b' '), vec!["1", "22", "333"]);
    assert_eq!(pieces("a\nb\n", b'\n'), vec!["a", "b", ""]);
    assert_eq!(pieces("  ", b' '), vec!["", "", ""]);
}

#[test]
fn split_without_separator_gives_one_piece() {
    assert_eq!(pieces("abc", b' '), vec!["abc"]);
    assert_eq!(pieces("", b' '), vec![""]);
}

#[test]
fn split_stays_inside_the_span() {
    let text = b"ab cd ef";
    let spans = split(text, Span { start: 1, end: 7 }, b' ');
    assert_eq!(
        spans,
        vec![Span { start: 1, end: 2 }, Span { start: 3, end: 5 }, Span { start: 6, end: 7 }]
    );
}

#[test]
fn trim_end_drops_trailing_white_space() {
    let text = b"12 \t\r\n\x0b\x0c";
    assert_eq!(trim_end(text, whole(text)), Span { start: 0, end: 2 });
    let text = b" 12";
    assert_eq!(trim_end(text, whole(text)), Span { start: 0, end: 3 });
    let text = b"   ";
    assert_eq!(trim_end(text, Span { start: 1, end: 3 }), Span { start: 1, end: 1 });
    let text = b"1\x08\x0e";
    assert_eq!(trim_end(text, whole(text)), Span { start: 0, end: 3 });
}

#[test]
fn parse_decimal_reads_digits() {
    assert_eq!(parse_decimal(b"0", whole(b"0"), 10), Some(0));
    assert_eq!(parse_decimal(b"1234", whole(b"1234"), u64::MAX), Some(1234));
    assert_eq!(parse_decimal(b"+56", whole(b"+56"), u64::MAX), Some(56));
    assert_eq!(parse_decimal(b"000123", whole(b"000123"), 123), Some(123));
    assert_eq!(parse_decimal(b"x42y", Span { start: 1, end: 3 }, 100), Some(42));
}

#[test]
fn parse_decimal_respects_the_limit() {
    assert_eq!(parse_decimal(b"255", whole(b"255"), 255), Some(255));
    assert_eq!(parse_decimal(b"256", whole(b"256"), 255), None);
    assert_eq!(parse_decimal(b"2550", whole(b"2550"), 255), None);
    assert_eq!(parse_decimal(b"1", whole(b"1"), 0), None);
    assert_eq!(parse_decimal(b"0", whole(b"0"), 0), Some(0));
    let most = b"18446744073709551615";
    assert_eq!(parse_decimal(most, whole(most), u64::MAX), Some(u64::MAX));
    let more = b"18446744073709551616";
    assert_eq!(parse_decimal(more, whole(more), u64::MAX), None);
    let much_more = b"99999999999999999999999";
    assert_eq!(parse_decimal(much_more, whole(much_more), u64::MAX), None);
}

#[test]
fn parse_decimal_rejects_what_is_no_number() {
    for text in ["", "+", "++1", "-1", "1+", "1 ", " 1", "1a", "a", "1.5", "0x10"] {
        assert_eq!(parse_decimal(text.as_bytes(), whole(text.as_bytes()), u64::MAX), None);
    }
}

#[test]
fn read_record_reads_three_fields() {
    let line = b"1 2 30";
    assert_eq!(
        read_record(line, whole(line)),
        Some(Record { first_parent: 1, second_parent: 2, timestamp: 30 })
    );
    let line = b"4294967295 0 18446744073709551615";
    assert_eq!(
        read_record(line, whole(line)),
        Some(Record { first_parent: u32::MAX, second_parent: 0, timestamp: u64::MAX })
    );
}

#[test]
fn read_record_rejects_other_shapes() {
    for line in ["", "1", "1 2", "1 2 3 4", "1  2 3", "1 2 3 ", " 1 2 3", "a 2 3", "4294967296 1 1"] {
        assert_eq!(read_record(line.as_bytes(), whole(line.as_bytes())), None);
    }
}
