use discount_pool::auth::{issue_token, split_record, validate_token, AuthOutcome};
use discount_pool::codec::{decode_ledger, encode_ledger, money_text};
use discount_pool::date::{add_days, format_date, monday_of, parse_date, sub_days, weekday, Date};
use discount_pool::engine::{parse_amount, split_request, trim_bytes, week_key};
use discount_pool::ledger::{CustomerDiscountDetails, CustomerLog, DayLog};
use discount_pool::{is_valid_phone, PhoneQuery, RequestLogger};

#[test]
fn test_monday_of_week() {
    let wednesday = Date { year: 2025, month: 7, day: 23 };
    let monday = monday_of(&wednesday);
    assert_eq!(format_date(&monday), b"21-Jul-2025".to_vec());
    // A Monday is its own week start.
    assert_eq!(monday_of(&monday), monday);
    assert_eq!(weekday(&monday), 0);
}

#[test]
fn test_week_rollover_across_year() {
    let new_year = Date { year: 2025, month: 1, day: 1 };
    let monday = monday_of(&new_year);
    assert_eq!(format_date(&monday), b"30-Dec-2024".to_vec());
    let prior_monday = sub_days(monday, 7);
    assert_eq!(format_date(&prior_monday), b"23-Dec-2024".to_vec());
}

#[test]
fn test_date_format_and_parse() {
    let d = Date { year: 2025, month: 7, day: 3 };
    let text = format_date(&d);
    assert_eq!(text, b"03-Jul-2025".to_vec());
    assert_eq!(parse_date(&text), Some(d));
    assert_eq!(parse_date(b"29-Feb-2024"), Some(Date { year: 2024, month: 2, day: 29 }));
    assert_eq!(parse_date(b"29-Feb-2025"), None);
    assert_eq!(parse_date(b"00-Jul-2025"), None);
    assert_eq!(parse_date(b"21-Xxx-2025"), None);
    assert_eq!(parse_date(b"21-Jul-25"), None);
}

#[test]
fn test_add_and_sub_days() {
    let d = Date { year: 2025, month: 7, day: 28 };
    assert_eq!(add_days(d, 7), Date { year: 2025, month: 8, day: 4 });
    assert_eq!(sub_days(Date { year: 2025, month: 1, day: 3 }, 7), Date {
        year: 2024,
        month: 12,
        day: 27,
    });
    assert_eq!(add_days(Date { year: 2024, month: 2, day: 26 }, 7), Date {
        year: 2024,
        month: 3,
        day: 4,
    });
}

#[test]
fn test_parse_amount_exact_values() {
    assert_eq!(parse_amount(b"678.90"), 678_900_000);
    assert_eq!(parse_amount(b"100.00"), 100_000_000);
    assert_eq!(parse_amount(b"0"), 0);
    assert_eq!(parse_amount(b"3.5"), 3_500_000);
    assert_eq!(parse_amount(b"3."), 3_000_000);
    assert_eq!(parse_amount(b"0.000001"), 1);
    // Malformed inputs degrade to zero rather than failing.
    assert_eq!(parse_amount(b""), 0);
    assert_eq!(parse_amount(b"pennies"), 0);
    assert_eq!(parse_amount(b"1e3"), 0);
    assert_eq!(parse_amount(b"-5"), 0);
    assert_eq!(parse_amount(b"1.2345678"), 0);
    assert_eq!(parse_amount(b"1234567890"), 0);
}

#[test]
fn test_trim_and_split_request() {
    assert_eq!(trim_bytes(b"  a b  "), b"a b".to_vec());
    assert_eq!(trim_bytes(b"   "), Vec::<u8>::new());
    let parts = split_request(b"9876543210, 678.90").unwrap();
    assert_eq!(parts.0, b"9876543210".to_vec());
    assert_eq!(parts.1, b"678.90".to_vec());
    assert!(split_request(b"no comma here").is_none());
    assert!(split_request(b"a,b,c").is_none());
    let empty_amount = split_request(b"9876543210,").unwrap();
    assert_eq!(empty_amount.1, Vec::<u8>::new());
}

#[test]
fn test_money_text_fixed_point() {
    assert_eq!(money_text(648_900_000), b"648.900000".to_vec());
    assert_eq!(money_text(0), b"0.000000".to_vec());
    assert_eq!(money_text(-1_500_000), b"-1.500000".to_vec());
}

#[test]
fn test_ledger_roundtrip() {
    let mut details: CustomerDiscountDetails = Default::default();
    details.total_pooled_amount = 30_000_000;
    details.total_eligible_customers = 2;
    details.total_discount_given = -1_250_000;
    details.customer_expense_map.push(CustomerLog {
        phone: b"9876543210".to_vec(),
        days: vec![
            DayLog { day: b"21-Jul-2025".to_vec(), amounts: b"648.900000,10.000000".to_vec() },
            DayLog { day: b"22-Jul-2025".to_vec(), amounts: b"5.000000".to_vec() },
        ],
    });
    details.customer_expense_map.push(CustomerLog {
        phone: b"1234567890".to_vec(),
        days: vec![DayLog { day: b"21-Jul-2025".to_vec(), amounts: b"7.000000".to_vec() }],
    });
    let bytes = encode_ledger(&details);
    let back = decode_ledger(&bytes).expect("a written record reads back");
    assert_eq!(back.total_pooled_amount, details.total_pooled_amount);
    assert_eq!(back.total_eligible_customers, details.total_eligible_customers);
    assert_eq!(back.total_discount_given, details.total_discount_given);
    assert_eq!(back.customer_expense_map.len(), 2);
    assert_eq!(back.customer_expense_map[0].phone, b"9876543210".to_vec());
    assert_eq!(back.customer_expense_map[0].days.len(), 2);
    assert_eq!(back.customer_expense_map[0].days[0].day, b"21-Jul-2025".to_vec());
    assert_eq!(
        back.customer_expense_map[0].days[0].amounts,
        b"648.900000,10.000000".to_vec()
    );
    assert_eq!(back.customer_expense_map[1].phone, b"1234567890".to_vec());
    // The round trip is exact: re-encoding reproduces the same bytes.
    assert_eq!(encode_ledger(&back), bytes);
}

#[test]
fn test_empty_ledger_encoding() {
    let details: CustomerDiscountDetails = Default::default();
    let bytes = encode_ledger(&details);
    assert_eq!(
        String::from_utf8(bytes.clone()).unwrap(),
        "{\"total_pooled_amount\":0.000000,\"total_eligible_customers\":0,\
         \"total_discount_given\":0.000000,\"customer_expense_map\":{}}"
    );
    let back = decode_ledger(&bytes).unwrap();
    assert_eq!(back.total_eligible_customers, 0);
    assert_eq!(back.customer_expense_map.len(), 0);
}

#[test]
fn test_decode_rejects_malformed() {
    assert!(decode_ledger(b"").is_none());
    assert!(decode_ledger(b"not json").is_none());
    assert!(decode_ledger(b"{\"total_pooled_amount\":1,\"x\":2}").is_none());
    // Duplicate phone keys are refused.
    let dup = "{\"total_pooled_amount\":0.000000,\"total_eligible_customers\":0,\
               \"total_discount_given\":0.000000,\"customer_expense_map\":{\
               \"111\":{},\"111\":{}}}";
    assert!(decode_ledger(dup.as_bytes()).is_none());
}

#[test]
fn test_split_record_on_separator() {
    let parts = split_record(b"abc___21-Jul-2025");
    assert_eq!(parts.0, b"abc".to_vec());
    assert_eq!(parts.1, b"21-Jul-2025".to_vec());
    // No separator, or more than one: both parts come back empty.
    let none = split_record(b"abc");
    assert_eq!(none.0, Vec::<u8>::new());
    assert_eq!(none.1, Vec::<u8>::new());
    let many = split_record(b"a___b___c");
    assert_eq!(many.0, Vec::<u8>::new());
    assert_eq!(many.1, Vec::<u8>::new());
    // Four underscores: the split is greedy from the left.
    let four = split_record(b"a____b");
    assert_eq!(four.0, b"a".to_vec());
    assert_eq!(four.1, b"_b".to_vec());
}

#[test]
fn test_validate_token_outcomes() {
    let today = Date { year: 2025, month: 7, day: 23 };
    assert_eq!(
        validate_token(b"tok", b"tok___24-Jul-2025", b"tok", &today),
        AuthOutcome::Valid
    );
    assert_eq!(
        validate_token(b"tok", b"tok___22-Jul-2025", b"tok", &today),
        AuthOutcome::NotAuthorized
    );
    assert_eq!(
        validate_token(b"tok", b"other___24-Jul-2025", b"tok", &today),
        AuthOutcome::NotAuthorized
    );
    assert_eq!(
        validate_token(b"tok", b"tok___24-Jul-2025", b"other", &today),
        AuthOutcome::NotAuthorized
    );
    assert_eq!(
        validate_token(b"tok", b"tok___soon", b"tok", &today),
        AuthOutcome::InvalidExpiry
    );
    assert_eq!(validate_token(b"tok", b"", b"tok", &today), AuthOutcome::NotAuthorized);
}

#[test]
fn test_issue_token_records() {
    let today = Date { year: 2025, month: 7, day: 23 };
    let (token, writes) = issue_token(b"9876543210", b"test102", &today);
    assert_eq!(token.len(), 36);
    assert!(token
        .iter()
        .all(|b| (b'0'..=b'9').contains(b) || (b'a'..=b'f').contains(b) || *b == b'-'));
    assert_eq!(writes.len(), 3);
    let mut expected_key = b"token:".to_vec();
    expected_key.extend_from_slice(&token);
    assert_eq!(writes[0].key, expected_key);
    let mut expected_record = token.clone();
    expected_record.extend_from_slice(b"___30-Jul-2025");
    assert_eq!(writes[0].value, expected_record);
    assert_eq!(writes[1].key, b"phone:9876543210:token".to_vec());
    assert_eq!(writes[1].value, token);
    let mut expected_bkey = b"test102_token_".to_vec();
    expected_bkey.extend_from_slice(&token);
    assert_eq!(writes[2].key, expected_bkey);
    assert_eq!(writes[2].value, token);
}

#[test]
fn test_week_key_shape() {
    let monday = Date { year: 2025, month: 7, day: 21 };
    assert_eq!(week_key(b"test102", &monday), b"test102___21-Jul-2025".to_vec());
}

#[test]
fn test_phone_validation() {
    assert!(is_valid_phone(b"9876543210"));
    assert!(!is_valid_phone(b"987654321"));
    assert!(!is_valid_phone(b"98765432101"));
    assert!(!is_valid_phone(b"987654321x"));
    let q = PhoneQuery { phone: "9876543210".to_string() };
    assert!(q.is_valid());
    let bad = PhoneQuery { phone: "hello".to_string() };
    assert!(!bad.is_valid());
}

#[test]
fn test_request_logger_counts() {
    let mut logger = RequestLogger::new();
    assert_eq!(logger.requests, 0);
    logger.record();
    logger.record();
    assert_eq!(logger.requests, 2);
}
