use repeaty::decimal::{parse_entry, Entry};

fn parsed(text: &str) -> Option<Entry> {
    parse_entry(text.as_bytes())
}

fn number(text: &str) -> Option<(u128, u128)> {
    match parsed(text) {
        Some(Entry::Number(r)) => Some((r.num, r.den)),
        _ => None,
    }
}

#[test]
fn parses_whole_numbers() {
    assert_eq!(number("5"), Some((5, 1)));
    assert_eq!(number("0"), Some((0, 1)));
    assert_eq!(number("120"), Some((120, 1)));
    assert_eq!(number("007"), Some((7, 1)));
    assert_eq!(number("+3"), Some((3, 1)));
}

#[test]
fn parses_decimals() {
    assert_eq!(number("2.5"), Some((25, 10)));
    assert_eq!(number("16.93"), Some((1693, 100)));
    assert_eq!(number(".5"), Some((5, 10)));
    assert_eq!(number("3."), Some((3, 1)));
    assert_eq!(number("0.001"), Some((1, 1000)));
}

#[test]
fn parses_exponents() {
    assert_eq!(number("1e3"), Some((1000, 1)));
    assert_eq!(number("2.5E1"), Some((250, 10)));
    assert_eq!(number("25e-1"), Some((25, 10)));
    assert_eq!(number("1e+2"), Some((100, 1)));
    assert_eq!(number("0e999999999999999999999999"), Some((0, 1)));
}

#[test]
fn rejects_values_that_cannot_be_rendered() {
    for text in ["-2", "-0", "-2.5e3", "inf", "-inf", "+Infinity", "NaN", "nan", "1e20", "1e-20", "1e99999999999999999999999"] {
        assert_eq!(parsed(text), Some(Entry::Rejected), "{:?}", text);
    }
}

#[test]
fn rejects_other_text() {
    for text in ["", ".", "abc", "1.2.3", "e5", "1e", "1e+", "--2", " 5", "5 ", "2,5", "infin", "nanx"] {
        assert_eq!(parsed(text), None, "{:?}", text);
    }
}

#[test]
fn rejects_values_beyond_64_bits() {
    assert_eq!(number("18446744073709551615"), Some((18446744073709551615, 1)));
    assert_eq!(parsed("18446744073709551616"), Some(Entry::Rejected));
    assert_eq!(number("0.0000000000000000001"), Some((1, 10000000000000000000)));
    assert_eq!(parsed("0.00000000000000000001"), Some(Entry::Rejected));
    assert_eq!(number("1844674407370955161.5"), Some((18446744073709551615, 10)));
    assert_eq!(parsed("1844674407370955161.6"), Some(Entry::Rejected));
}
