use hibp_check::pwned_suffixes;

#[test]
fn parses_plain_records() {
    let page = "0018A45C4D1DEF81644B54AB7F969B88D65:1\n00D4F6E8FA6EECAD2A3AA415EEC418D38EC:2";
    let records = pwned_suffixes(page).expect("well-formed page");
    assert_eq!(
        records,
        vec![
            (String::from("0018A45C4D1DEF81644B54AB7F969B88D65"), 1u64),
            (String::from("00D4F6E8FA6EECAD2A3AA415EEC418D38EC"), 2u64),
        ]
    );
}

#[test]
fn parses_crlf_and_trailing_newline() {
    let page = "AAA:10\r\nBBB:20\r\n";
    let records = pwned_suffixes(page).expect("well-formed page");
    assert_eq!(
        records,
        vec![(String::from("AAA"), 10u64), (String::from("BBB"), 20u64)]
    );
}

#[test]
fn empty_page_has_no_records() {
    let records = pwned_suffixes("").expect("an empty page is well-formed");
    assert_eq!(records, Vec::<(String, u64)>::new());
}

#[test]
fn line_without_colon_is_malformed() {
    assert!(pwned_suffixes("0018A45C4D1DEF81644B54AB7F969B88D65").is_none());
    assert!(pwned_suffixes("AAA:1\nno colon here\nBBB:2").is_none());
}

#[test]
fn non_numeric_count_is_malformed() {
    assert!(pwned_suffixes("AAA:ten").is_none());
    assert!(pwned_suffixes("AAA:").is_none());
    assert!(pwned_suffixes("AAA:1x").is_none());
    assert!(pwned_suffixes("AAA:-1").is_none());
    assert!(pwned_suffixes("AAA:1:2").is_none());
}

#[test]
fn count_beyond_range_is_malformed() {
    assert!(pwned_suffixes("AAA:18446744073709551615").is_some());
    assert!(pwned_suffixes("AAA:18446744073709551616").is_none());
    assert!(pwned_suffixes("AAA:99999999999999999999999999").is_none());
}

#[test]
fn empty_middle_line_is_malformed() {
    assert!(pwned_suffixes("AAA:1\n\nBBB:2").is_none());
}

#[test]
fn suffix_splits_at_first_colon() {
    let records = pwned_suffixes(":5").expect("empty suffix still has the record shape");
    assert_eq!(records, vec![(String::from(""), 5u64)]);
}

#[test]
fn lone_carriage_return_stays_in_count() {
    // Only a carriage return directly before a newline belongs to the line
    // ending; a final "\r" is part of the count text and is not a digit.
    assert!(pwned_suffixes("AAA:1\r").is_none());
}
