use pocket::amount::{format_amount, parse_amount};
use pocket::record::{add_expense, Expense};
use pocket::reports::{export_csv, list_lines, summary, total_cents, total_display};

fn rec(amount: i64, desc: &str, cat: &str, date: &str) -> Expense {
    Expense {
        amount,
        desc: desc.to_string(),
        cat: cat.to_string(),
        date: date.to_string(),
    }
}

#[test]
fn parse_amount_reads_decimals() {
    assert_eq!(parse_amount("12.50"), Some(1250));
    assert_eq!(parse_amount("3.00"), Some(300));
    assert_eq!(parse_amount("3"), Some(300));
    assert_eq!(parse_amount("0.5"), Some(50));
    assert_eq!(parse_amount("-0.07"), Some(-7));
    assert_eq!(parse_amount("-12"), Some(-1200));
    assert_eq!(parse_amount("0.00"), Some(0));
    assert_eq!(parse_amount("9999999999999999.99"), Some(999_999_999_999_999_999));
}

#[test]
fn parse_amount_refuses_other_text() {
    assert_eq!(parse_amount(""), None);
    assert_eq!(parse_amount("-"), None);
    assert_eq!(parse_amount("abc"), None);
    assert_eq!(parse_amount("1.234"), None);
    assert_eq!(parse_amount("12."), None);
    assert_eq!(parse_amount(".5"), None);
    assert_eq!(parse_amount("1,50"), None);
    assert_eq!(parse_amount("1.5x"), None);
    assert_eq!(parse_amount("--1"), None);
    // seventeen euro digits: over the accepted magnitude
    assert_eq!(parse_amount("99999999999999999"), None);
}

#[test]
fn format_amount_writes_two_decimals() {
    assert_eq!(format_amount(0), "0.00");
    assert_eq!(format_amount(5), "0.05");
    assert_eq!(format_amount(50), "0.50");
    assert_eq!(format_amount(1250), "12.50");
    assert_eq!(format_amount(-7), "-0.07");
    assert_eq!(format_amount(-123456), "-1234.56");
}

#[test]
fn total_sums_all_amounts_in_any_order() {
    let a = vec![rec(1250, "a", "x", "d"), rec(-300, "b", "y", "d"), rec(55, "c", "x", "d")];
    let b = vec![rec(55, "c", "x", "d"), rec(1250, "a", "x", "d"), rec(-300, "b", "y", "d")];
    assert_eq!(total_cents(&a), 1005);
    assert_eq!(total_cents(&b), 1005);
    assert_eq!(total_display(&a), "10.05€");
}

#[test]
fn total_of_empty_list_is_zero() {
    let empty: Vec<Expense> = Vec::new();
    assert_eq!(total_cents(&empty), 0);
    assert_eq!(total_display(&empty), "0.00€");
}

#[test]
fn add_expense_appends_in_order() {
    let mut v: Vec<Expense> = Vec::new();
    add_expense(&mut v, 1250, "coffee".to_string(), "food".to_string(), "d1".to_string());
    add_expense(&mut v, -100, "refund".to_string(), "food".to_string(), "d2".to_string());
    assert_eq!(v.len(), 2);
    assert_eq!(v[0], rec(1250, "coffee", "food", "d1"));
    assert_eq!(v[1], rec(-100, "refund", "food", "d2"));
    assert_eq!(total_cents(&v), 1150);
}

#[test]
fn summary_groups_by_exact_category() {
    let v = vec![
        rec(1000, "a", "food", "d"),
        rec(550, "b", "food", "d"),
        rec(200, "c", "transport", "d"),
    ];
    let groups = summary(&v);
    assert_eq!(groups.len(), 2);
    let food = groups.iter().find(|g| g.cat == "food").expect("food group");
    let transport = groups.iter().find(|g| g.cat == "transport").expect("transport group");
    assert_eq!(food.total, 1550);
    assert_eq!(food.line(), "food: 15.50€");
    assert_eq!(transport.total, 200);
    assert_eq!(transport.line(), "transport: 2.00€");
}

#[test]
fn summary_keeps_first_appearance_order_and_case() {
    let v = vec![
        rec(100, "a", "Food", "d"),
        rec(200, "b", "food", "d"),
        rec(300, "c", "Food", "d"),
    ];
    let groups = summary(&v);
    assert_eq!(groups.len(), 2);
    assert_eq!(groups[0].cat, "Food");
    assert_eq!(groups[0].total, 400);
    assert_eq!(groups[1].cat, "food");
    assert_eq!(groups[1].total, 200);
}

#[test]
fn scenario_two_adds_then_total_then_summary() {
    let mut v: Vec<Expense> = Vec::new();
    let amount = parse_amount("12.50").expect("decimal");
    add_expense(&mut v, amount, "coffee".to_string(), "food".to_string(), "d".to_string());
    let amount = parse_amount("3.00").expect("decimal");
    add_expense(&mut v, amount, "bus".to_string(), "transport".to_string(), "d".to_string());
    assert_eq!(total_display(&v), "15.50€");
    let lines: Vec<String> = summary(&v).iter().map(|g| g.line()).collect();
    assert_eq!(lines.len(), 2);
    assert!(lines.contains(&"food: 12.50€".to_string()));
    assert!(lines.contains(&"transport: 3.00€".to_string()));
}

#[test]
fn list_lines_prints_each_record() {
    let v = vec![rec(1250, "coffee", "food", "2024-01-02"), rec(-75, "refund", "food", "2024-01-03")];
    let lines = list_lines(&v);
    assert_eq!(lines.len(), 2);
    assert_eq!(lines[0], "2024-01-02 | 12.50€ | food | coffee");
    assert_eq!(lines[1], "2024-01-03 | -0.75€ | food | refund");
}

#[test]
fn export_has_header_and_one_line_per_record() {
    let v = vec![
        rec(1250, "coffee", "food", "2024-01-02"),
        rec(300, "bus", "transport", "2024-01-03"),
        rec(-75, "refund", "food", "2024-01-04"),
    ];
    let csv = export_csv(&v);
    let line_count = csv.chars().filter(|c| *c == '\n').count();
    assert_eq!(line_count, 1 + v.len());
    let lines: Vec<&str> = csv.lines().collect();
    assert_eq!(lines[0], "date,amount,category,description");
    assert_eq!(lines[1], "2024-01-02,12.50,food,coffee");
    assert_eq!(lines[2], "2024-01-03,3.00,transport,bus");
    assert_eq!(lines[3], "2024-01-04,-0.75,food,refund");
}

#[test]
fn export_of_empty_list_is_header_only() {
    let empty: Vec<Expense> = Vec::new();
    assert_eq!(export_csv(&empty), "date,amount,category,description\n");
}

#[test]
fn today_date_round_trips_through_store() {
    let date = pocket::date::today_date();
    let v = vec![Expense {
        amount: 100,
        desc: "x".to_string(),
        cat: "c".to_string(),
        date: date.clone(),
    }];
    let text = pocket::codec::save_expenses(&v);
    let loaded = pocket::codec::load_expenses(Some(text.as_str()));
    assert_eq!(loaded.len(), 1);
    assert_eq!(loaded[0].date, date);
}
