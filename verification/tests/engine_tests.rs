use std::collections::HashMap;

use discount_pool::auth::{business_token_key, issue_token, token_key};
use discount_pool::codec::encode_ledger;
use discount_pool::date::{monday_of, sub_days, Date};
use discount_pool::engine::{get_response, week_key};
use discount_pool::ledger::{CustomerDiscountDetails, CustomerLog, DayLog};

type Store = HashMap<Vec<u8>, Vec<u8>>;

fn today() -> Date {
    // A Wednesday; the Monday of its week is 21-Jul-2025.
    Date { year: 2025, month: 7, day: 23 }
}

fn issue(store: &mut Store, phone: &str, business: &str) -> Vec<u8> {
    let (token, writes) = issue_token(phone.as_bytes(), business.as_bytes(), &today());
    for w in writes {
        store.insert(w.key, w.value);
    }
    token
}

fn day_string(d: &Date) -> Vec<u8> {
    discount_pool::date::format_date(d)
}

fn setup_previous_week_data(
    store: &mut Store,
    business: &str,
    phone: &str,
    total_pooled_micros: i64,
    total_eligible_customers: u64,
) {
    let last_monday = sub_days(monday_of(&today()), 7);
    let mut details: CustomerDiscountDetails = Default::default();
    details.total_pooled_amount = total_pooled_micros;
    details.total_eligible_customers = total_eligible_customers;
    details.customer_expense_map.push(CustomerLog {
        phone: phone.as_bytes().to_vec(),
        days: vec![DayLog { day: b"10-Mar-2025".to_vec(), amounts: b"1000.00".to_vec() }],
    });
    let key = week_key(business.as_bytes(), &last_monday);
    store.insert(key, encode_ledger(&details));
}

fn setup_current_week_data(
    store: &mut Store,
    business: &str,
    phone: &str,
    has_transaction_today: bool,
    total_eligible_customers: u64,
) {
    let monday = monday_of(&today());
    let mut details: CustomerDiscountDetails = Default::default();
    details.total_eligible_customers = total_eligible_customers;
    if has_transaction_today {
        details.customer_expense_map.push(CustomerLog {
            phone: phone.as_bytes().to_vec(),
            days: vec![DayLog { day: day_string(&today()), amounts: b"500.00".to_vec() }],
        });
    }
    let key = week_key(business.as_bytes(), &monday);
    store.insert(key, encode_ledger(&details));
}

fn run_request(store: &mut Store, token: &[u8], business: &str, pna: &str) -> String {
    let fetch = |store: &Store, key: Vec<u8>| store.get(&key).cloned().unwrap_or_default();
    let d = today();
    let monday = monday_of(&d);
    let token_record = fetch(store, token_key(token));
    let business_record = fetch(store, business_token_key(business.as_bytes(), token));
    let current = fetch(store, week_key(business.as_bytes(), &monday));
    let prior = fetch(store, week_key(business.as_bytes(), &sub_days(monday, 7)));
    let reply = get_response(
        token,
        business.as_bytes(),
        pna.as_bytes(),
        &d,
        &token_record,
        &business_record,
        &current,
        &prior,
    );
    if let Some(write) = reply.update {
        store.insert(write.key, write.value);
    }
    String::from_utf8(reply.response).unwrap()
}

#[test]
fn test_discount_eligible_first_transaction() {
    let mut store: Store = HashMap::new();
    let phone = "9876543210";
    let business_name = "test102";
    let token = issue(&mut store, phone, business_name);

    setup_previous_week_data(&mut store, business_name, phone, 30_000_000, 1);
    setup_current_week_data(&mut store, business_name, "different_phone", false, 0);

    let result = run_request(&mut store, &token, business_name, &format!("{}, 678.90", phone));
    assert!(result.contains("Final bill amount: 648.90"));
    assert!(result.contains("Discount given: 4.42"));
}

#[test]
fn test_discount_not_eligible_already_received() {
    let mut store: Store = HashMap::new();
    let phone = "9876543210";
    let business_name = "test102";
    let token = issue(&mut store, phone, business_name);

    setup_previous_week_data(&mut store, business_name, phone, 30_000_000, 1);
    setup_current_week_data(&mut store, business_name, phone, true, 1);

    let result = run_request(&mut store, &token, business_name, &format!("{}, 678.90", phone));
    assert!(result.contains("Final bill amount: 678.90"));
    assert!(result.contains("Discount given: 0.00"));
}

#[test]
fn test_no_previous_week_data() {
    let mut store: Store = HashMap::new();
    let phone = "9876543210";
    let business_name = "test102";
    let token = issue(&mut store, phone, business_name);

    let result = run_request(&mut store, &token, business_name, &format!("{}, 678.90", phone));
    assert!(result.contains("Final bill amount: 678.90"));
    assert!(result.contains("Discount given: 0.00"));
}

#[test]
fn test_low_bill_amount_no_cap() {
    let mut store: Store = HashMap::new();
    let phone = "9876543210";
    let business_name = "test102";
    let token = issue(&mut store, phone, business_name);

    setup_previous_week_data(&mut store, business_name, phone, 30_000_000, 1);
    setup_current_week_data(&mut store, business_name, "different_phone", false, 0);

    let result = run_request(&mut store, &token, business_name, &format!("{}, 100.00", phone));
    assert!(result.contains("Final bill amount: 70.00"));
    assert!(result.contains("Discount given: 30.00"));
}

#[test]
fn test_multiple_eligible_customers_current_week() {
    let mut store: Store = HashMap::new();
    let phone = "9876543210";
    let business_name = "test102";
    let token = issue(&mut store, phone, business_name);

    setup_previous_week_data(&mut store, business_name, phone, 30_000_000, 1);
    setup_current_week_data(&mut store, business_name, "different_phone", false, 2);

    let result = run_request(&mut store, &token, business_name, &format!("{}, 678.90", phone));
    assert!(result.contains("Final bill amount: 668.90"));
    assert!(result.contains("Discount given: 1.47"));
}

#[test]
fn test_get_response_no_token() {
    let mut store: Store = HashMap::new();
    let result = run_request(&mut store, b"test_token_fail", "test102", "9876543210, 678.90");
    assert_eq!(result, "Not authorized / Token expired.");
}

#[test]
fn test_get_response_wrong_user() {
    let mut store: Store = HashMap::new();
    let phone = "9876543210";
    let token = issue(&mut store, phone, "test102");
    let result = run_request(&mut store, &token, "test101", "9876543210, 678.90");
    assert_eq!(result, "Not authorized / Token expired.");
}

#[test]
fn test_full_response_template() {
    let mut store: Store = HashMap::new();
    let phone = "9876543210";
    let business_name = "test102";
    let token = issue(&mut store, phone, business_name);

    setup_previous_week_data(&mut store, business_name, phone, 30_000_000, 1);
    setup_current_week_data(&mut store, business_name, "different_phone", false, 0);

    let result = run_request(&mut store, &token, business_name, &format!("{}, 678.90", phone));
    assert_eq!(
        result,
        "Phone number: 9876543210\n ; Final bill amount: 648.90\n ; Discount given: 4.42%"
    );
}

#[test]
fn test_eligibility_counter_increments_once() {
    let mut store: Store = HashMap::new();
    let phone = "9876543210";
    let business_name = "test102";
    let token = issue(&mut store, phone, business_name);

    run_request(&mut store, &token, business_name, &format!("{}, 10.00", phone));
    let key = week_key(business_name.as_bytes(), &monday_of(&today()));
    let first = discount_pool::codec::decode_ledger(store.get(&key).unwrap()).unwrap();
    assert_eq!(first.total_eligible_customers, 1);

    run_request(&mut store, &token, business_name, &format!("{}, 20.00", phone));
    let second = discount_pool::codec::decode_ledger(store.get(&key).unwrap()).unwrap();
    assert_eq!(second.total_eligible_customers, 1);
    assert_eq!(second.customer_expense_map.len(), 1);
    assert_eq!(second.customer_expense_map[0].days.len(), 1);
}

#[test]
fn test_second_customer_raises_counter() {
    let mut store: Store = HashMap::new();
    let business_name = "test102";
    let token1 = issue(&mut store, "9876543210", business_name);
    let token2 = issue(&mut store, "1234567890", business_name);

    run_request(&mut store, &token1, business_name, "9876543210, 10.00");
    run_request(&mut store, &token2, business_name, "1234567890, 20.00");
    let key = week_key(business_name.as_bytes(), &monday_of(&today()));
    let details = discount_pool::codec::decode_ledger(store.get(&key).unwrap()).unwrap();
    assert_eq!(details.total_eligible_customers, 2);
    assert_eq!(details.customer_expense_map.len(), 2);
}

#[test]
fn test_malformed_request_messages() {
    let mut store: Store = HashMap::new();
    let phone = "9876543210";
    let business_name = "test102";
    let token = issue(&mut store, phone, business_name);

    let no_comma = run_request(&mut store, &token, business_name, "9876543210 678.90");
    assert_eq!(no_comma, "Invalid phone_number_amount format. Expected 'phone,amount'.");

    let two_commas = run_request(&mut store, &token, business_name, "98765,43210,678.90");
    assert_eq!(two_commas, "Invalid phone_number_amount format. Expected 'phone,amount'.");

    let short_phone = run_request(&mut store, &token, business_name, "98765, 678.90");
    assert_eq!(short_phone, "Invalid phone number: 98765. Must be 10 digits.");
}

#[test]
fn test_unparsable_amount_counts_as_zero() {
    let mut store: Store = HashMap::new();
    let phone = "9876543210";
    let business_name = "test102";
    let token = issue(&mut store, phone, business_name);

    let result = run_request(&mut store, &token, business_name, "9876543210, pennies");
    assert_eq!(
        result,
        "Phone number: 9876543210\n ; Final bill amount: 0.00\n ; Discount given: 0.00%"
    );
}

#[test]
fn test_malformed_expiry_message() {
    let mut store: Store = HashMap::new();
    let business_name = "test102";
    let token = b"sometoken".to_vec();
    store.insert(token_key(&token), b"sometoken___eventually".to_vec());
    store.insert(
        business_token_key(business_name.as_bytes(), &token),
        token.clone(),
    );
    let result = run_request(&mut store, &token, business_name, "9876543210, 678.90");
    assert_eq!(result, "Not authorized / Invalid token expiry date.");
}

#[test]
fn test_expired_token_denied() {
    let mut store: Store = HashMap::new();
    let business_name = "test102";
    let token = b"sometoken".to_vec();
    // Expired the day before the request.
    store.insert(token_key(&token), b"sometoken___22-Jul-2025".to_vec());
    store.insert(
        business_token_key(business_name.as_bytes(), &token),
        token.clone(),
    );
    let result = run_request(&mut store, &token, business_name, "9876543210, 678.90");
    assert_eq!(result, "Not authorized / Token expired.");
}

#[test]
fn test_token_valid_through_expiry_day() {
    let mut store: Store = HashMap::new();
    let business_name = "test102";
    let token = b"sometoken".to_vec();
    // Expiring today: still honoured for the whole day.
    store.insert(token_key(&token), b"sometoken___23-Jul-2025".to_vec());
    store.insert(
        business_token_key(business_name.as_bytes(), &token),
        token.clone(),
    );
    let result = run_request(&mut store, &token, business_name, "9876543210, 678.90");
    assert!(result.contains("Final bill amount: 678.90"));
}

#[test]
fn test_discount_above_amount_goes_negative() {
    let mut store: Store = HashMap::new();
    let phone = "9876543210";
    let business_name = "test102";
    let token = issue(&mut store, phone, business_name);

    setup_previous_week_data(&mut store, business_name, phone, 30_000_000, 1);
    setup_current_week_data(&mut store, business_name, "different_phone", false, 0);

    // The discount of 30.00 exceeds the 10.00 bill and is not clamped.
    let result = run_request(&mut store, &token, business_name, &format!("{}, 10.00", phone));
    assert_eq!(
        result,
        "Phone number: 9876543210\n ; Final bill amount: -20.00\n ; Discount given: 300.00%"
    );
}

#[test]
fn test_next_day_same_week_discounts_again() {
    let mut store: Store = HashMap::new();
    let phone = "9876543210";
    let business_name = "test102";
    let token = issue(&mut store, phone, business_name);

    setup_previous_week_data(&mut store, business_name, phone, 30_000_000, 1);

    // Wednesday: first transaction of the week takes the full share.
    let first = run_request(&mut store, &token, business_name, &format!("{}, 100.00", phone));
    assert!(first.contains("Final bill amount: 70.00"));

    // Thursday of the same week: a new day, so the share is owed again,
    // now split over both weeks' eligible counters.
    let thursday = Date { year: 2025, month: 7, day: 24 };
    let monday = monday_of(&thursday);
    let fetch = |store: &Store, key: Vec<u8>| store.get(&key).cloned().unwrap_or_default();
    let reply = get_response(
        &token,
        business_name.as_bytes(),
        format!("{}, 100.00", phone).as_bytes(),
        &thursday,
        &fetch(&store, token_key(&token)),
        &fetch(&store, business_token_key(business_name.as_bytes(), &token)),
        &fetch(&store, week_key(business_name.as_bytes(), &monday)),
        &fetch(&store, week_key(business_name.as_bytes(), &sub_days(monday, 7))),
    );
    let second = String::from_utf8(reply.response).unwrap();
    // 30 / (1 prior + 1 current) = 15.00 off.
    assert!(second.contains("Final bill amount: 85.00"));
    assert!(second.contains("Discount given: 15.00"));
    let write = reply.update.unwrap();
    let details = discount_pool::codec::decode_ledger(&write.value).unwrap();
    assert_eq!(details.total_eligible_customers, 1);
    assert_eq!(details.customer_expense_map.len(), 1);
    assert_eq!(details.customer_expense_map[0].days.len(), 2);
}
