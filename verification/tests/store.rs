use pocket::codec::{load_expenses, parse_store_exec, save_expenses};
use pocket::record::Expense;

fn rec(amount: i64, desc: &str, cat: &str, date: &str) -> Expense {
    Expense {
        amount,
        desc: desc.to_string(),
        cat: cat.to_string(),
        date: date.to_string(),
    }
}

#[test]
fn round_trip_preserves_records() {
    let records = vec![
        rec(1250, "coffee", "food", "2024-01-02"),
        rec(-75, "refund", "food", "2024-01-03"),
        rec(0, "nothing", "misc", "2024-01-04"),
        rec(999_999_999_999_999_999, "huge", "misc", "2024-01-05"),
        rec(-999_999_999_999_999_999, "huge refund", "misc", "2024-01-06"),
    ];
    let text = save_expenses(&records);
    let loaded = load_expenses(Some(text.as_str()));
    assert_eq!(loaded, records);
}

#[test]
fn round_trip_escapes_quotes_and_backslashes() {
    let records = vec![
        rec(100, "a \"quoted\" word", "with\\backslash", "2024-02-03"),
        rec(200, "comma, and : colon", "brackets []{}", "2024-02-04"),
        rec(300, "", "", ""),
    ];
    let text = save_expenses(&records);
    let loaded = load_expenses(Some(text.as_str()));
    assert_eq!(loaded, records);
}

#[test]
fn save_writes_exact_text() {
    let records = vec![rec(1250, "coffee", "food", "2024-01-02")];
    let text = save_expenses(&records);
    assert_eq!(
        text,
        "[{\"amount\":12.50,\"desc\":\"coffee\",\"cat\":\"food\",\"date\":\"2024-01-02\"}]"
    );
}

#[test]
fn save_escapes_exactly() {
    let records = vec![rec(-5, "say \"hi\"", "a\\b", "d")];
    let text = save_expenses(&records);
    assert_eq!(
        text,
        "[{\"amount\":-0.05,\"desc\":\"say \\\"hi\\\"\",\"cat\":\"a\\\\b\",\"date\":\"d\"}]"
    );
}

#[test]
fn missing_file_loads_empty() {
    let loaded = load_expenses(None);
    assert!(loaded.is_empty());
}

#[test]
fn empty_store_round_trips_empty() {
    let empty: Vec<Expense> = Vec::new();
    let text = save_expenses(&empty);
    assert_eq!(text, "[]");
    let loaded = load_expenses(Some(text.as_str()));
    assert!(loaded.is_empty());
}

#[test]
fn malformed_text_loads_empty() {
    assert!(load_expenses(Some("")).is_empty());
    assert!(load_expenses(Some("{")).is_empty());
    assert!(load_expenses(Some("not a store")).is_empty());
    assert!(load_expenses(Some("[")).is_empty());
    assert!(load_expenses(Some("[]trailing")).is_empty());
    assert!(load_expenses(Some("[{\"amount\":1.00}]")).is_empty());
    // a field out of order is refused
    assert!(
        load_expenses(Some(
            "[{\"desc\":\"x\",\"amount\":1.00,\"cat\":\"c\",\"date\":\"d\"}]"
        ))
        .is_empty()
    );
}

#[test]
fn oversized_amount_is_refused() {
    // seventeen euro digits: beyond what the store accepts
    let text = "[{\"amount\":99999999999999999.00,\"desc\":\"x\",\"cat\":\"c\",\"date\":\"d\"}]";
    assert!(parse_store_exec(text).is_none());
    assert!(load_expenses(Some(text)).is_empty());
}

#[test]
fn parse_store_reads_two_records() {
    let text = "[{\"amount\":1.00,\"desc\":\"a\",\"cat\":\"c\",\"date\":\"d\"},{\"amount\":-2.50,\"desc\":\"b\",\"cat\":\"e\",\"date\":\"f\"}]";
    let parsed = parse_store_exec(text).expect("store text should parse");
    assert_eq!(
        parsed,
        vec![rec(100, "a", "c", "d"), rec(-250, "b", "e", "f")]
    );
}
