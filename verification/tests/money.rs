use coin_drop::money::{Money, ParseMoneyError};

#[test]
fn parse_reads_dollars_and_cents() {
    assert_eq!(Money::parse("$1.00"), Ok(Money::new(Some('$'), 100)));
    assert_eq!(Money::parse("$0.25"), Ok(Money::new(Some('$'), 25)));
    assert_eq!(Money::parse("$2.50"), Ok(Money::new(Some('$'), 250)));
    assert_eq!(Money::parse("$0.00"), Ok(Money::new(Some('$'), 0)));
}

#[test]
fn parse_reads_groups_signs_and_plain_numbers() {
    assert_eq!(Money::parse("$1,000.42"), Ok(Money::new(Some('$'), 100_042)));
    assert_eq!(Money::parse("-$12.10"), Ok(Money::new(Some('$'), -1210)));
    assert_eq!(Money::parse("12"), Ok(Money::new(None, 1200)));
    assert_eq!(Money::parse("12.1"), Ok(Money::new(None, 1210)));
    assert_eq!(Money::parse("£10,99"), Ok(Money::new(Some('£'), 1099)));
    assert_eq!(Money::parse(""), Ok(Money::new(None, 0)));
    assert_eq!(Money::parse("$999.99"), Ok(Money::new(Some('$'), 99_999)));
    assert_eq!(Money::parse("$100"), Ok(Money::new(Some('$'), 10_000)));
    assert_eq!(Money::parse("123456.78"), Ok(Money::new(None, 12_345_678)));
}

#[test]
fn parse_refuses_a_sign_inside_the_digits() {
    assert_eq!(Money::parse("1-2"), Err(ParseMoneyError::Malformed));
}

#[test]
fn parse_refuses_an_over_precise_fraction() {
    assert_eq!(Money::parse("1.000000000000"), Err(ParseMoneyError::Unsupported));
    assert_eq!(Money::parse("1.00000000000"), Ok(Money::new(None, 100)));
}

#[test]
fn parse_refuses_what_does_not_fit() {
    assert_eq!(Money::parse("92233720368547758.07"), Ok(Money::new(None, i64::MAX)));
    assert_eq!(Money::parse("92233720368547758.08"), Err(ParseMoneyError::OutOfRange));
    assert_eq!(Money::parse("-92233720368547758.08"), Ok(Money::new(None, i64::MIN)));
    assert_eq!(Money::parse("-92233720368547758.09"), Err(ParseMoneyError::OutOfRange));
}

/// The text without a group separator that stands before its first digit.
fn without_leading_separator(written: &str) -> String {
    match written.find(|c: char| c.is_ascii_digit()) {
        Some(first) if first > 0 && written[..first].ends_with(',') => {
            format!("{}{}", &written[..first - 1], &written[first..])
        }
        _ => written.to_string(),
    }
}

#[test]
fn writing_follows_the_currency_crate() {
    let literals = [
        "$0.00", "$0.05", "$0.50", "$1.00", "$3.75", "$12.10", "$999.99", "$1,000.42",
        "$1234567.89", "-$12.10", "-0.01", "12", "£10,99", "€1.000", "1,000,000", "$100,000.00",
        "92233720368547758.07", "-92233720368547758.08",
    ];
    for literal in literals {
        let written = currency::Currency::from_str(literal).unwrap().to_string();
        let money = Money::parse(literal).unwrap();
        assert_eq!(Money::from_text(&written), Some(money));
        assert_eq!(Money::from_text(&money.to_text()), Some(money));
        assert_eq!(money.to_text(), without_leading_separator(&written));
    }
    assert_eq!(Money::new(Some('$'), 375).to_text(), "$3.75");
    assert_eq!(Money::new(Some('$'), 100_042).to_text(), "$1,000.42");
    assert_eq!(Money::new(None, -5).to_text(), "-0.05");
    assert_eq!(Money::new(Some('$'), i64::MIN).to_text(), "-$92,233,720,368,547,758.08");
    assert_eq!(Money::new(Some('$'), i64::MAX).to_text(), "$92,233,720,368,547,758.07");
}

#[test]
fn only_written_amounts_are_read() {
    assert_eq!(Money::from_text("$3.75"), Some(Money::new(Some('$'), 375)));
    assert_eq!(Money::from_text("-$1,000.42"), Some(Money::new(Some('$'), -100_042)));
    assert_eq!(Money::from_text("0.00"), Some(Money::new(None, 0)));
    assert_eq!(Money::from_text(""), None);
    assert_eq!(Money::from_text("$"), None);
    assert_eq!(Money::from_text("$3"), None);
    assert_eq!(Money::from_text("$3.7"), None);
    assert_eq!(Money::from_text("$3.750"), None);
    assert_eq!(Money::from_text("$.75"), None);
    assert_eq!(Money::from_text("$,.75"), None);
    assert_eq!(Money::from_text("$,999.99"), Some(Money::new(Some('$'), 99_999)));
    assert_eq!(Money::from_text(",1,0,.99"), Some(Money::new(None, 1099)));
    assert_eq!(Money::from_text("$$3.75"), None);
    assert_eq!(Money::from_text("$-3.75"), None);
    assert_eq!(Money::from_text("$3x.75"), None);
    assert_eq!(Money::from_text("$3.7x"), None);
    assert_eq!(Money::from_text("92233720368547758.08"), None);
    assert_eq!(Money::from_text("-92233720368547758.09"), None);
    assert_eq!(Money::from_text("99999999999999999999999999999999999999999.00"), None);
}

#[test]
fn sums_need_one_currency_and_room() {
    let a = Money::new(Some('$'), 100);
    assert_eq!(a.checked_add(Money::new(Some('$'), 25)), Some(Money::new(Some('$'), 125)));
    assert_eq!(a.checked_add(Money::new(Some('£'), 25)), None);
    assert_eq!(a.checked_add(Money::new(None, 25)), None);
    assert_eq!(a.checked_add(Money::new(Some('$'), i64::MAX)), None);
    assert_eq!(
        Money::new(None, -1).checked_add(Money::new(None, i64::MIN)),
        None
    );
}

#[test]
fn sums_follow_the_currency_crate() {
    let pairs = [
        ("$0.00", "$1.00"),
        ("$1.00", "$0.25"),
        ("$1.25", "$2.50"),
        ("$999.99", "$0.01"),
        ("-$5.00", "$1.50"),
        ("12", "30.5"),
        ("£10,99", "£0,01"),
    ];
    for (a, b) in pairs {
        let sum = currency::Currency::from_str(a).unwrap() + currency::Currency::from_str(b).unwrap();
        let ours = Money::parse(a).unwrap().checked_add(Money::parse(b).unwrap());
        assert_eq!(ours, Money::from_text(&sum.to_string()));
        assert!(ours.is_some());
    }
}
