use card_ledger::pricing::{
    card_prefix, card_price_options, order_totals, parse_price_lists, parse_raw_prices, rounded_price_fits, OrderRow, config_text, cost_per_print, default_design_cost,
    design_cost_options, inventory_shipment_cost, price_view, round_price, shipment_cost_for_choice,
    shipment_price_for_card, unit_overhead, OrderTotals, PriceView, Shipment,
};

fn shipments() -> Vec<Shipment> {
    vec![Shipment::Almas(5_000), Shipment::Hamrang(7_000), Shipment::Inventory(1_000)]
}

#[test]
fn shipment_names_prefixes_values() {
    assert_eq!(Shipment::Almas(1).prefix(), "AL-");
    assert_eq!(Shipment::Hamrang(1).prefix(), "H-");
    assert_eq!(Shipment::Inventory(1).prefix(), "");
    assert_eq!(Shipment::Almas(1).to_string(), "Almas");
    assert_eq!(Shipment::Hamrang(1).to_string(), "Hamrang");
    assert_eq!(Shipment::Inventory(1).to_string(), "Inventory");
    assert_eq!(Shipment::Almas(11).value(), 11);
    assert_eq!(Shipment::Hamrang(12).value(), 12);
    assert_eq!(Shipment::Inventory(13).value(), 13);
}

#[test]
fn inventory_cost_is_first_unprefixed() {
    assert_eq!(inventory_shipment_cost(&shipments()), Some(1_000));
    assert_eq!(
        inventory_shipment_cost(&vec![Shipment::Inventory(3), Shipment::Inventory(4)]),
        Some(3)
    );
    assert_eq!(inventory_shipment_cost(&vec![Shipment::Almas(3)]), None);
    assert_eq!(inventory_shipment_cost(&vec![]), None);
}

#[test]
fn card_prefix_runs_through_first_dash() {
    assert_eq!(card_prefix("AL-1024"), Some("AL-".to_string()));
    assert_eq!(card_prefix("H-12-3"), Some("H-".to_string()));
    assert_eq!(card_prefix("-9"), Some("-".to_string()));
    assert_eq!(card_prefix("کارت-۱"), Some("کارت-".to_string()));
    assert_eq!(card_prefix("1024"), None);
    assert_eq!(card_prefix(""), None);
}

#[test]
fn shipment_price_for_card_by_prefix() {
    let s = shipments();
    assert_eq!(shipment_price_for_card(&s, "AL-1", 1_000), Some(5_000));
    assert_eq!(shipment_price_for_card(&s, "H-77", 1_000), Some(7_000));
    assert_eq!(shipment_price_for_card(&s, "X-77", 1_000), Some(1_000));
    assert_eq!(shipment_price_for_card(&s, "AL1", 1_000), None);
}

#[test]
fn round_price_to_hundreds() {
    assert_eq!(round_price(1_229), 1_200);
    assert_eq!(round_price(1_230), 1_300);
    assert_eq!(round_price(1_299), 1_300);
    assert_eq!(round_price(1_200), 1_200);
    assert_eq!(round_price(0), 0);
    assert_eq!(round_price(29), 0);
    assert_eq!(round_price(4_294_967_229), 4_294_967_200);
}

#[test]
fn price_options_one_or_two() {
    assert_eq!(card_price_options(10_010, 10_020), vec![10_000]);
    assert_eq!(card_price_options(10_010, 10_050), vec![10_000, 10_100]);
    assert_eq!(card_price_options(10_050, 10_010), vec![10_100, 10_000]);
}

#[test]
fn per_print_and_overhead() {
    assert_eq!(cost_per_print(10_000_000, 3_000), 3_333);
    assert_eq!(cost_per_print(5, 10), 0);
    assert_eq!(unit_overhead(3_333, 1_000, 2_500), 6_833);
}

#[test]
fn shipment_choice_costs() {
    let s = shipments();
    assert_eq!(shipment_cost_for_choice(&s, 0), 5_000);
    assert_eq!(shipment_cost_for_choice(&s, 1), 7_000);
    assert_eq!(shipment_cost_for_choice(&s, 2), 1_000);
    assert_eq!(shipment_cost_for_choice(&s, 3), 0);
    assert_eq!(shipment_cost_for_choice(&s, 4), 0);
    assert_eq!(shipment_cost_for_choice(&vec![Shipment::Inventory(9)], 0), 0);
    assert_eq!(shipment_cost_for_choice(&vec![], 3), 0);
}

#[test]
fn design_costs() {
    assert_eq!(design_cost_options(100), vec![400_000, 200_000, 0]);
    assert_eq!(design_cost_options(200), vec![400_000, 400_000, 0]);
    assert_eq!(design_cost_options(300), vec![600_000, 600_000, 0]);
    assert_eq!(default_design_cost(199), 400_000);
    assert_eq!(default_design_cost(200), 400_000);
    assert_eq!(default_design_cost(250), 500_000);
}

#[test]
fn price_views() {
    assert_eq!(price_view(Some(&vec![1, 2, 3])), PriceView::Both(1, 2));
    assert_eq!(price_view(Some(&vec![5])), PriceView::Single(5));
    assert_eq!(price_view(Some(&vec![])), PriceView::Empty);
    assert_eq!(price_view(None), PriceView::Missing);
}

#[test]
fn order_totals_accumulate() {
    let mut t = OrderTotals::new();
    t.add_order(100, 12_000, 3_000, 400_000, 50_000, 8_000);
    t.add_order(10, 1_000, 500, 0, 0, 600);
    assert_eq!(t.total_initial, 1_200_000 + 10_000);
    assert_eq!(t.total_profit, (300_000 + 400_000 - 50_000) + 5_000);
    assert_eq!(t.card_portion_of_initial, 800_000 + 6_000);
    assert_eq!(t.ink_printer_portion(), 1_210_000 - 806_000);
}

#[test]
fn config_overview_groups_thousands() {
    assert_eq!(
        config_text(25_000_000, 1_500, 999),
        "Config {\n\tPrinter Price: 25,000,000\n\tInk Price: 1,500\n\tPrinter Renewal Counter: 999\n}"
    );
    assert_eq!(
        config_text(0, 4_294_967_295, 1_000),
        "Config {\n\tPrinter Price: 0\n\tInk Price: 4,294,967,295\n\tPrinter Renewal Counter: 1,000\n}"
    );
}

#[test]
fn rounded_price_fit() {
    assert!(rounded_price_fits(4_294_967_229));
    assert!(!rounded_price_fits(4_294_967_230));
    assert!(rounded_price_fits(4_294_967_195));
    assert!(rounded_price_fits(0));
}

#[test]
fn raw_price_file() {
    let v = parse_raw_prices(&br#"{"H-2": 5, "AL-1": 100}"#.to_vec()).ok().unwrap();
    assert_eq!(v, vec![("AL-1".to_string(), 100), ("H-2".to_string(), 5)]);
    assert!(parse_raw_prices(&b"{\"AL-1\": -3}".to_vec()).is_err());
    assert!(parse_raw_prices(&b"[1, 2]".to_vec()).is_err());
    assert_eq!(parse_raw_prices(&b"{}".to_vec()).ok().unwrap(), vec![]);
}

fn row(order_count: u32, card_cost: u32, card_profit: u32, design_cost: u32, discount: u32, card_raw_price: u32) -> OrderRow {
    OrderRow { order_count, card_cost, card_profit, design_cost, discount, card_raw_price }
}

#[test]
fn order_listing_totals() {
    let t = order_totals(&vec![row(100, 12_000, 3_000, 400_000, 50_000, 8_000), row(10, 1_000, 500, 0, 0, 600)]).unwrap();
    assert_eq!(t.total_initial, 1_210_000);
    assert_eq!(t.total_profit, 655_000);
    assert_eq!(t.card_portion_of_initial, 806_000);
    let e = order_totals(&vec![]).unwrap();
    assert_eq!((e.total_initial, e.total_profit, e.card_portion_of_initial), (0, 0, 0));
    assert!(order_totals(&vec![row(1, 0, 0, 0, 1, 0)]).is_none());
    assert!(order_totals(&vec![row(70_000, 70_000, 0, 0, 0, 0)]).is_none());
    assert!(order_totals(&vec![row(1, u32::MAX, 0, 0, 0, 0), row(1, 1, 0, 0, 0, 0)]).is_none());
}

#[test]
fn price_list_file() {
    let v = parse_price_lists(&br#"{"H-2": [5, 7], "AL-1": []}"#.to_vec()).ok().unwrap();
    assert_eq!(v, vec![("AL-1".to_string(), vec![]), ("H-2".to_string(), vec![5, 7])]);
    assert!(parse_price_lists(&br#"{"AL-1": 3}"#.to_vec()).is_err());
    assert!(parse_price_lists(&b"not json".to_vec()).is_err());
}

#[test]
fn order_totals_of_two_runs_add_up() {
    let first = vec![row(100, 12_000, 3_000, 400_000, 50_000, 8_000), row(2, 5, 1, 0, 2, 3)];
    let second = vec![row(10, 1_000, 500, 0, 0, 600)];
    let mut both = first.clone();
    both.extend(second.iter().cloned());
    let a = order_totals(&first).unwrap();
    let b = order_totals(&second).unwrap();
    let t = order_totals(&both).unwrap();
    assert_eq!(t.total_initial, a.total_initial + b.total_initial);
    assert_eq!(t.total_profit, a.total_profit + b.total_profit);
    assert_eq!(t.card_portion_of_initial, a.card_portion_of_initial + b.card_portion_of_initial);
}
