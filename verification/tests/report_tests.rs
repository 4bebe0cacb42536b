use card_ledger::report::{color_for_lowered, InOutReport, ReportColor};

#[test]
fn new_keeps_title_and_amounts() {
    let r = InOutReport::new("+".to_string(), 1, 2, 3, 4);
    assert_eq!(r.title(), "+");
    assert_eq!((r.v1, r.v2, r.v3, r.v4), (1, 2, 3, 4));
}

#[test]
fn summary_subtracts_with_floor_and_balance() {
    let income = InOutReport::new("+".to_string(), 1_000, 500, 300, 10_000);
    let outcome = InOutReport::new("-".to_string(), 400, 700, 0, 0);
    let s = InOutReport::summary(&income, &outcome);
    assert_eq!(s.title(), "Summary");
    assert_eq!(s.v1, 600);
    assert_eq!(s.v2, 0);
    assert_eq!(s.v3, 300);
    assert_eq!(s.v4, 10_000 - (400 + 700 + 0));
}

#[test]
fn summary_balance_down_to_zero() {
    let income = InOutReport::new("+".to_string(), 0, 0, 0, 30);
    let outcome = InOutReport::new("-".to_string(), 10, 10, 10, 0);
    let s = InOutReport::summary(&income, &outcome);
    assert_eq!((s.v1, s.v2, s.v3, s.v4), (0, 0, 0, 0));
}

#[test]
fn color_by_title() {
    assert_eq!(InOutReport::new("+".to_string(), 0, 0, 0, 0).color(), ReportColor::Yellow);
    assert_eq!(InOutReport::new("-".to_string(), 0, 0, 0, 0).color(), ReportColor::Red);
    assert_eq!(InOutReport::new("Summary".to_string(), 0, 0, 0, 0).color(), ReportColor::Green);
    assert_eq!(InOutReport::new("SUMMARY".to_string(), 0, 0, 0, 0).color(), ReportColor::Green);
    assert_eq!(InOutReport::new("income".to_string(), 0, 0, 0, 0).color(), ReportColor::White);
}

#[test]
fn color_for_lowered_titles() {
    assert_eq!(color_for_lowered("summary"), ReportColor::Green);
    assert_eq!(color_for_lowered("Summary"), ReportColor::White);
    assert_eq!(color_for_lowered(""), ReportColor::White);
}
