use std::collections::BTreeMap;

use vstd::prelude::*;
use vstd::string::{StrSliceExecFns, StringExecFns};

use crate::text::{dec, en_grouped, group_thousands};

verus! {

/// A supplier and what shipping from it costs per card.
#[derive(Debug, Clone, Copy, PartialEq, Eq, Structural)]
pub enum Shipment {
    Almas(u32),
    Hamrang(u32),
    Inventory(u32),
}

/// The card-code prefix of a supplier's cards: "AL-", "H-", or none for
/// the shop's own inventory.
pub open spec fn prefix_text(s: Shipment) -> Seq<char> {
    match s {
        Shipment::Almas(_) => "AL-"@,
        Shipment::Hamrang(_) => "H-"@,
        Shipment::Inventory(_) => ""@,
    }
}

/// The supplier's name.
pub open spec fn shipment_name(s: Shipment) -> Seq<char> {
    match s {
        Shipment::Almas(_) => "Almas"@,
        Shipment::Hamrang(_) => "Hamrang"@,
        Shipment::Inventory(_) => "Inventory"@,
    }
}

/// The shipping cost a shipment carries.
pub open spec fn shipment_value(s: Shipment) -> u32 {
    match s {
        Shipment::Almas(v) => v,
        Shipment::Hamrang(v) => v,
        Shipment::Inventory(v) => v,
    }
}

impl Shipment {
    pub fn prefix(&self) -> (r: String)
        ensures
            r@ == prefix_text(*self),
    {
        match self {
            Shipment::Almas(_) => String::from_str("AL-"),
            Shipment::Hamrang(_) => String::from_str("H-"),
            Shipment::Inventory(_) => String::from_str(""),
        }
    }

    pub fn to_string(&self) -> (r: String)
        ensures
            r@ == shipment_name(*self),
    {
        match self {
            Shipment::Almas(_) => String::from_str("Almas"),
            Shipment::Hamrang(_) => String::from_str("Hamrang"),
            Shipment::Inventory(_) => String::from_str("Inventory"),
        }
    }

    pub fn value(&self) -> (r: u32)
        ensures
            r == shipment_value(*self),
    {
        match self {
            Shipment::Almas(v) | Shipment::Hamrang(v) | Shipment::Inventory(v) => *v,
        }
    }
}

/// The first shipment with the given prefix.
pub open spec fn first_with_prefix(s: Seq<Shipment>, pre: Seq<char>) -> Option<Shipment>
    decreases s.len(),
{
    if s.len() == 0 {
        None
    } else if prefix_text(s[0]) == pre {
        Some(s[0])
    } else {
        first_with_prefix(s.drop_first(), pre)
    }
}

/// The prefixes tell the suppliers apart: "AL-" is Almas, "H-" Hamrang,
/// and the empty prefix Inventory.
pub proof fn lemma_prefix_names_supplier(sh: Shipment)
    ensures
        prefix_text(sh) == "AL-"@ <==> sh is Almas,
        prefix_text(sh) == "H-"@ <==> sh is Hamrang,
        prefix_text(sh).len() == 0 <==> sh is Inventory,
{
    reveal_strlit("AL-");
    reveal_strlit("H-");
    reveal_strlit("");
    assert("AL-"@.len() != "H-"@.len());
}

/// The lookup by prefix answers with a shipment of the list whose prefix
/// is exactly `pre`, and answers nothing only when no shipment has it.
pub proof fn lemma_first_with_prefix_matches(s: Seq<Shipment>, pre: Seq<char>)
    ensures
        first_with_prefix(s, pre) matches Some(x) ==> prefix_text(x) == pre && s.contains(x),
        first_with_prefix(s, pre) is None <==> forall|j: int| 0 <= j < s.len() ==> prefix_text(#[trigger] s[j]) != pre,
    decreases s.len(),
{
    if s.len() > 0 {
        let t = s.drop_first();
        lemma_first_with_prefix_matches(t, pre);
        assert forall|j: int| 0 <= j < t.len() implies t[j] == s[j + 1] by {}
        if prefix_text(s[0]) != pre {
            if first_with_prefix(t, pre) is Some {
                let x = first_with_prefix(t, pre)->0;
                let j = choose|j: int| 0 <= j < t.len() && t[j] == x;
                assert(s[j + 1] == x);
            }
            if first_with_prefix(s, pre) is None {
                assert forall|j: int| 0 <= j < s.len() implies prefix_text(#[trigger] s[j]) != pre by {
                    if j > 0 {
                        assert(s[j] == t[j - 1]);
                    }
                }
            }
        } else {
            assert(s.contains(s[0]));
        }
    }
}

/// When the shipment at `i` is the first whose prefix is `pre`, the lookup
/// answers with it, wherever it stands in the list.
pub proof fn lemma_first_with_prefix_at(s: Seq<Shipment>, pre: Seq<char>, i: int)
    requires
        0 <= i < s.len(),
        prefix_text(s[i]) == pre,
        forall|j: int| 0 <= j < i ==> prefix_text(#[trigger] s[j]) != pre,
    ensures
        first_with_prefix(s, pre) == Some(s[i]),
    decreases i,
{
    if i > 0 {
        let t = s.drop_first();
        assert(prefix_text(s[0]) != pre);
        assert forall|j: int| 0 <= j < i - 1 implies prefix_text(#[trigger] t[j]) != pre by {
            assert(t[j] == s[j + 1]);
        }
        assert(t[i - 1] == s[i]);
        lemma_first_with_prefix_at(t, pre, i - 1);
    }
}

/// A card code's prefix is the code up to and including its first '-';
/// a code without '-' has none.
pub proof fn lemma_code_prefix_first_dash(code: Seq<char>)
    ensures
        (forall|j: int| 0 <= j < code.len() ==> #[trigger] code[j] != '-') ==> code_prefix(code) is None,
        forall|k: int| 0 <= k < code.len() && code[k] == '-' && (forall|j: int| 0 <= j < k ==> #[trigger] code[j] != '-')
            ==> #[trigger] code_prefix(code) == Some(code.take(k + 1)),
{
    if forall|j: int| 0 <= j < code.len() ==> #[trigger] code[j] != '-' {
        lemma_no_dash_from(code, 0);
    }
    assert forall|k: int| 0 <= k < code.len() && code[k] == '-' && (forall|j: int| 0 <= j < k ==> #[trigger] code[j] != '-')
        implies #[trigger] code_prefix(code) == Some(code.take(k + 1)) by {
        lemma_dash_found(code, 0, k);
    }
}

/// Without a '-' at or after `i`, the search from `i` finds none.
proof fn lemma_no_dash_from(code: Seq<char>, i: int)
    requires
        0 <= i <= code.len(),
        forall|j: int| i <= j < code.len() ==> #[trigger] code[j] != '-',
    ensures
        first_dash_from(code, i) is None,
    decreases code.len() - i,
{
    if i < code.len() {
        lemma_no_dash_from(code, i + 1);
    }
}

/// The search from `i` finds the first '-' at or after `i`.
proof fn lemma_dash_found(code: Seq<char>, i: int, k: int)
    requires
        0 <= i <= k < code.len(),
        code[k] == '-',
        forall|j: int| i <= j < k ==> #[trigger] code[j] != '-',
    ensures
        first_dash_from(code, i) == Some(k),
    decreases k - i,
{
    if i < k {
        lemma_dash_found(code, i + 1, k);
    }
}

/// The first shipment with prefix `pre`.
fn find_by_prefix(shipments: &Vec<Shipment>, pre: &String) -> (r: Option<Shipment>)
    ensures
        r == first_with_prefix(shipments@, pre@),
{
    let mut i: usize = 0;
    proof {
        assert(shipments@.skip(0) =~= shipments@);
    }
    while i < shipments.len()
        invariant
            i <= shipments@.len(),
            first_with_prefix(shipments@, pre@) == first_with_prefix(shipments@.skip(i as int), pre@),
        decreases shipments@.len() - i,
    {
        let sh = shipments[i];
        if sh.prefix() == *pre {
            return Some(sh);
        }
        proof {
            assert(shipments@.skip(i as int).drop_first() =~= shipments@.skip(i + 1));
        }
        i = i + 1;
    }
    None
}

/// The shipping cost of inventory cards: that of the first shipment
/// without a prefix; `None` when there is none.
pub fn inventory_shipment_cost(shipments: &Vec<Shipment>) -> (r: Option<u32>)
    ensures
        r == (match first_with_prefix(shipments@, ""@) {
            Some(s) => Some(shipment_value(s)),
            None => None,
        }),
{
    match find_by_prefix(shipments, &String::from_str("")) {
        Some(s) => Some(s.value()),
        None => None,
    }
}

/// The index of the first '-' at or after `i`.
pub open spec fn first_dash_from(s: Seq<char>, i: int) -> Option<int>
    decreases s.len() - i,
{
    if i < 0 || i >= s.len() {
        None
    } else if s[i] == '-' {
        Some(i)
    } else {
        first_dash_from(s, i + 1)
    }
}

/// The card code up to and including its first '-'; `None` without one.
pub open spec fn code_prefix(code: Seq<char>) -> Option<Seq<char>> {
    match first_dash_from(code, 0) {
        Some(k) => Some(code.take(k + 1)),
        None => None,
    }
}

/// The prefix of a card code: its characters up to and including the
/// first '-'.
pub fn card_prefix(card_code: &str) -> (r: Option<String>)
    ensures
        match r {
            Some(p) => code_prefix(card_code@) == Some(p@),
            None => code_prefix(card_code@) is None,
        },
{
    let len = card_code.unicode_len();
    let mut k: usize = 0;
    while k < len
        invariant
            len == card_code@.len(),
            k <= len,
            first_dash_from(card_code@, 0) == first_dash_from(card_code@, k as int),
        decreases len - k,
    {
        if card_code.get_char(k) == '-' {
            let p = card_code.substring_char(0, k + 1);
            proof {
                assert(card_code@.subrange(0, k + 1) =~= card_code@.take(k + 1));
            }
            return Some(String::from_str(p));
        }
        k = k + 1;
    }
    None
}

/// The shipping cost for a card: that of the first shipment whose prefix
/// starts the card code, or the inventory cost when none does; `None` when
/// the code has no '-'.
pub fn shipment_price_for_card(shipments: &Vec<Shipment>, card_code: &str, inventory_cost: u32) -> (r: Option<u32>)
    ensures
        r == (match code_prefix(card_code@) {
            None => None,
            Some(pre) => match first_with_prefix(shipments@, pre) {
                Some(s) => Some(shipment_value(s)),
                None => Some(inventory_cost),
            },
        }),
{
    match card_prefix(card_code) {
        None => None,
        Some(pre) => match find_by_prefix(shipments, &pre) {
            Some(s) => Some(s.value()),
            None => Some(inventory_cost),
        },
    }
}

/// A price rounded to the hundred: down when the remainder is under 30,
/// else up.
pub open spec fn rounded_price(p: int) -> int {
    if p % 100 < 30 {
        p / 100 * 100
    } else {
        p / 100 * 100 + 100
    }
}

/// A rounded price is a whole number of hundreds, at most 29 below the
/// price and at most 70 above it.
pub proof fn lemma_rounded_price_is_near(p: int)
    requires
        p >= 0,
    ensures
        rounded_price(p) % 100 == 0,
        p - 29 <= rounded_price(p) <= p + 70,
{
    assert(p == p / 100 * 100 + p % 100);
    assert((p / 100 * 100) % 100 == 0);
    assert((p / 100 * 100 + 100) % 100 == 0);
}

/// Rounding never lowers the order of two prices: a higher price never
/// rounds below a lower one.
pub proof fn lemma_rounded_price_monotone(p: int, q: int)
    requires
        0 <= p <= q,
    ensures
        rounded_price(p) <= rounded_price(q),
{
    assert(p == p / 100 * 100 + p % 100);
    assert(q == q / 100 * 100 + q % 100);
    assert(p / 100 <= q / 100) by (nonlinear_arith)
        requires
            0 <= p <= q,
    ;
    if p / 100 == q / 100 {
        assert(p % 100 <= q % 100);
    } else {
        assert(p / 100 + 1 <= q / 100);
        assert((p / 100 + 1) * 100 <= q / 100 * 100) by (nonlinear_arith)
            requires
                p / 100 + 1 <= q / 100,
        ;
    }
}

/// The offered prices grow with the prices they are rounded from: the
/// first (inventory) price with `lower`, the last (supplier) price with
/// `higher`.
pub proof fn lemma_card_price_options_monotone(lower1: u32, higher1: u32, lower2: u32, higher2: u32)
    requires
        lower1 <= lower2,
        higher1 <= higher2,
    ensures
        rounded_price(lower1 as int) <= rounded_price(lower2 as int),
        rounded_price(higher1 as int) <= rounded_price(higher2 as int),
{
    lemma_rounded_price_monotone(lower1 as int, lower2 as int);
    lemma_rounded_price_monotone(higher1 as int, higher2 as int);
}

/// Rounds a price to the hundred (see `rounded_price`).
pub fn round_price(p: u32) -> (r: u32)
    requires
        rounded_price(p as int) <= u32::MAX,
    ensures
        r == rounded_price(p as int),
{
    if p % 100 < 30 {
        p / 100 * 100
    } else {
        p / 100 * 100 + 100
    }
}

/// Whether the rounded price still fits a `u32`.
pub fn rounded_price_fits(p: u32) -> (r: bool)
    ensures
        r == (rounded_price(p as int) <= u32::MAX),
{
    p % 100 < 30 || p / 100 <= 42_949_671
}

/// The prices offered for a card: the rounded inventory price, and the
/// rounded supplier price when it differs.
pub fn card_price_options(lower: u32, higher: u32) -> (r: Vec<u32>)
    requires
        rounded_price(lower as int) <= u32::MAX,
        rounded_price(higher as int) <= u32::MAX,
    ensures
        r@ == (if rounded_price(lower as int) == rounded_price(higher as int) {
            seq![rounded_price(lower as int) as u32]
        } else {
            seq![rounded_price(lower as int) as u32, rounded_price(higher as int) as u32]
        }),
{
    let lower_price = round_price(lower);
    let higher_price = round_price(higher);
    let mut r: Vec<u32> = Vec::new();
    r.push(lower_price);
    if lower_price != higher_price {
        r.push(higher_price);
    }
    proof {
        if lower_price == higher_price {
            assert(r@ =~= seq![lower_price]);
        } else {
            assert(r@ =~= seq![lower_price, higher_price]);
        }
    }
    r
}

/// The share of a price per print: the price divided by the number of
/// prints.
pub fn cost_per_print(price: u32, total_prints: u32) -> (r: u32)
    requires
        total_prints > 0,
    ensures
        r == price / total_prints,
{
    price / total_prints
}

/// The fixed cost of one card beside its raw price: printer use, ink and
/// shipping.
pub fn unit_overhead(cost_printer_usage: u32, cost_ink: u32, cost_shipment: u32) -> (r: u32)
    requires
        cost_printer_usage + cost_ink + cost_shipment <= u32::MAX,
    ensures
        r == cost_printer_usage + cost_ink + cost_shipment,
{
    cost_printer_usage + cost_ink + cost_shipment
}

/// The shipping cost for a choice of the price calculator's menu (0 Almas,
/// 1 Hamrang, 2 Inventory, 3 Back): for each shipment in order, whether it
/// answers the choice and with what cost.
pub open spec fn choice_cost(choice: usize, s: Shipment) -> Option<u32> {
    match (choice, s) {
        (0, Shipment::Almas(p)) => Some(p),
        (1, Shipment::Hamrang(p)) => Some(p),
        (2, Shipment::Inventory(p)) => Some(p),
        (3, _) => Some(0),
        _ => None,
    }
}

/// The first answer among the shipments, or 0 when none answers.
pub open spec fn first_choice_cost(s: Seq<Shipment>, choice: usize) -> u32
    decreases s.len(),
{
    if s.len() == 0 {
        0
    } else {
        match choice_cost(choice, s[0]) {
            Some(p) => p,
            None => first_choice_cost(s.drop_first(), choice),
        }
    }
}

/// The menu choice `choice` (0 Almas, 1 Hamrang, 2 Inventory) names the
/// supplier of `sh`.
pub open spec fn chooses(choice: usize, sh: Shipment) -> bool {
    ||| choice == 0 && sh is Almas
    ||| choice == 1 && sh is Hamrang
    ||| choice == 2 && sh is Inventory
}

/// For a supplier chosen in the menu, the shipping cost is that of the
/// first shipment of the supplier in the list, wherever it stands.
pub proof fn lemma_choice_cost_first_of_supplier(s: Seq<Shipment>, choice: usize, i: int)
    requires
        0 <= i < s.len(),
        chooses(choice, s[i]),
        forall|j: int| 0 <= j < i ==> !chooses(choice, #[trigger] s[j]),
    ensures
        first_choice_cost(s, choice) == shipment_value(s[i]),
    decreases i,
{
    if i > 0 {
        let t = s.drop_first();
        assert(!chooses(choice, s[0]));
        assert forall|j: int| 0 <= j < i - 1 implies !chooses(choice, #[trigger] t[j]) by {
            assert(t[j] == s[j + 1]);
        }
        assert(t[i - 1] == s[i]);
        lemma_choice_cost_first_of_supplier(t, choice, i - 1);
    }
}

/// The cost is 0, which ends the calculator, when the list has no shipment
/// of the chosen supplier, when "Back" (3) is chosen, and for any other
/// choice.
pub proof fn lemma_choice_cost_zero(s: Seq<Shipment>, choice: usize)
    requires
        forall|j: int| 0 <= j < s.len() ==> !chooses(choice, #[trigger] s[j]),
    ensures
        first_choice_cost(s, choice) == 0,
    decreases s.len(),
{
    if s.len() > 0 {
        let t = s.drop_first();
        assert forall|j: int| 0 <= j < t.len() implies !chooses(choice, #[trigger] t[j]) by {
            assert(t[j] == s[j + 1]);
        }
        lemma_choice_cost_zero(t, choice);
        assert(!chooses(choice, s[0]));
    }
}

/// The shipping cost for a menu choice (see `first_choice_cost`); 0 ends
/// the calculator.
pub fn shipment_cost_for_choice(shipments: &Vec<Shipment>, choice: usize) -> (r: u32)
    ensures
        r == first_choice_cost(shipments@, choice),
{
    let mut i: usize = 0;
    proof {
        assert(shipments@.skip(0) =~= shipments@);
    }
    while i < shipments.len()
        invariant
            i <= shipments@.len(),
            first_choice_cost(shipments@, choice) == first_choice_cost(shipments@.skip(i as int), choice),
        decreases shipments@.len() - i,
    {
        let found = match (choice, shipments[i]) {
            (0, Shipment::Almas(p)) => Some(p),
            (1, Shipment::Hamrang(p)) => Some(p),
            (2, Shipment::Inventory(p)) => Some(p),
            (3, _) => Some(0),
            _ => None,
        };
        if let Some(p) = found {
            return p;
        }
        proof {
            assert(shipments@.skip(i as int).drop_first() =~= shipments@.skip(i + 1));
        }
        i = i + 1;
    }
    0
}

/// The design costs a new order offers: the normal cost (400,000 up to 200
/// cards, else 2,000 a card), the re-order cost (2,000 a card), and 0 for a
/// cost typed in.
pub fn design_cost_options(order_count: u32) -> (r: Vec<u32>)
    requires
        order_count * 2000 <= u32::MAX,
    ensures
        r@ == seq![
            if order_count <= 200 { 400_000u32 } else { (order_count * 2000) as u32 },
            (order_count * 2000) as u32,
            0u32,
        ],
{
    let mut d_cost: Vec<u32> = Vec::new();
    d_cost.push(if order_count <= 200 { 400_000 } else { order_count * 2_000 });
    d_cost.push(order_count * 2_000);
    d_cost.push(0);
    proof {
        assert(d_cost@ =~= seq![
            if order_count <= 200 { 400_000u32 } else { (order_count * 2000) as u32 },
            (order_count * 2000) as u32,
            0u32,
        ]);
    }
    d_cost
}

/// The design cost the profit calculator suggests: 400,000 under 200
/// cards, else 2,000 a card.
pub fn default_design_cost(count: u32) -> (r: u32)
    requires
        count < 200 || count * 2000 <= u32::MAX,
    ensures
        r == (if count < 200 { 400_000 } else { count * 2000 }),
{
    if count < 200 {
        400_000
    } else {
        count * 2000
    }
}

/// What the price list shows for a card.
#[derive(Debug, Clone, Copy, PartialEq, Eq, Structural)]
pub enum PriceView {
    /// An inventory price and an order price.
    Both(u32, u32),
    /// An inventory price alone.
    Single(u32),
    /// A card listed with no price.
    Empty,
    /// A card missing from the price list.
    Missing,
}

/// How a card's price-list entry is shown: its first two prices, its only
/// price, nothing, or a notice that it is missing.
pub fn price_view(prices: Option<&Vec<u32>>) -> (r: PriceView)
    ensures
        r == (match prices {
            None => PriceView::Missing,
            Some(v) => if v@.len() >= 2 {
                PriceView::Both(v@[0], v@[1])
            } else if v@.len() == 1 {
                PriceView::Single(v@[0])
            } else {
                PriceView::Empty
            },
        }),
{
    match prices {
        None => PriceView::Missing,
        Some(v) => {
            if v.len() >= 2 {
                PriceView::Both(v[0], v[1])
            } else if v.len() == 1 {
                PriceView::Single(v[0])
            } else {
                PriceView::Empty
            }
        },
    }
}

/// Running totals of an order listing.
pub struct OrderTotals {
    /// Count times the whole card cost, summed.
    pub total_initial: u32,
    /// Count times the whole card profit, plus design, less discount, summed.
    pub total_profit: u32,
    /// Count times the raw card price, summed.
    pub card_portion_of_initial: u32,
}

impl OrderTotals {
    pub fn new() -> (t: Self)
        ensures
            t.total_initial == 0,
            t.total_profit == 0,
            t.card_portion_of_initial == 0,
    {
        OrderTotals { total_initial: 0, total_profit: 0, card_portion_of_initial: 0 }
    }

    /// Adds one order; its cost and profit per card are given in whole
    /// units.
    pub fn add_order(
        &mut self,
        order_count: u32,
        card_cost: u32,
        card_profit: u32,
        design_cost: u32,
        discount: u32,
        card_raw_price: u32,
    )
        requires
            old(self).total_initial + order_count * card_cost <= u32::MAX,
            order_count * card_profit + design_cost <= u32::MAX,
            order_count * card_profit + design_cost >= discount,
            old(self).total_profit + (order_count * card_profit + design_cost - discount) <= u32::MAX,
            old(self).card_portion_of_initial + order_count * card_raw_price <= u32::MAX,
        ensures
            final(self).total_initial == old(self).total_initial + order_count * card_cost,
            final(self).total_profit == old(self).total_profit + (order_count * card_profit + design_cost - discount),
            final(self).card_portion_of_initial == old(self).card_portion_of_initial + order_count * card_raw_price,
    {
        proof {
            assert(order_count * card_cost <= u32::MAX);
            assert(order_count * card_raw_price <= u32::MAX);
        }
        self.total_initial = self.total_initial + order_count * card_cost;
        self.total_profit = self.total_profit + (order_count * card_profit + design_cost - discount);
        self.card_portion_of_initial = self.card_portion_of_initial + order_count * card_raw_price;
    }

    /// The part of the initial cost that is ink and printer use.
    pub fn ink_printer_portion(&self) -> (r: u32)
        requires
            self.total_initial >= self.card_portion_of_initial,
        ensures
            r == self.total_initial - self.card_portion_of_initial,
    {
        self.total_initial - self.card_portion_of_initial
    }
}

/// The settings overview: printer price, ink price and prints per printer,
/// each grouped by thousands.
pub open spec fn config_overview(printer_price: u32, ink_price: u32, total_prints: u32) -> Seq<char> {
    "Config {\n\tPrinter Price: "@ + group_thousands(dec(printer_price as nat)) + "\n\tInk Price: "@
        + group_thousands(dec(ink_price as nat)) + "\n\tPrinter Renewal Counter: "@ + group_thousands(
        dec(total_prints as nat),
    ) + "\n}"@
}

/// Writes the settings overview (see `config_overview`).
pub fn config_text(printer_price: u32, ink_price: u32, total_prints: u32) -> (s: String)
    ensures
        s@ == config_overview(printer_price, ink_price, total_prints),
{
    let mut s = String::from_str("Config {\n\tPrinter Price: ");
    s.append(en_grouped(printer_price).as_str());
    s.append("\n\tInk Price: ");
    s.append(en_grouped(ink_price).as_str());
    s.append("\n\tPrinter Renewal Counter: ");
    s.append(en_grouped(total_prints).as_str());
    s.append("\n}");
    s
}

// ---------------------------------------------------------------------
// The raw price file.
// ---------------------------------------------------------------------

#[verifier::external_type_specification]
#[verifier::external_body]
pub struct ExJsonError(serde_json::Error);

/// The entries `serde_json` reads from a JSON object of card codes and
/// whole prices, in key order (a later duplicate key replacing an earlier
/// one); `None` where the text is not such an object. A function of the
/// bytes alone.
pub uninterp spec fn json_price_entries(bytes: Seq<u8>) -> Option<Seq<(Seq<char>, u32)>>;

/// `serde_json::from_slice` into a `BTreeMap<String, u32>`, its entries
/// taken out in key order.
#[verifier::external_body]
fn json_price_map(bytes: &[u8]) -> (r: Result<Vec<(String, u32)>, serde_json::Error>)
    ensures
        r is Ok <==> json_price_entries(bytes@) is Some,
        r is Ok ==> r->Ok_0@.map_values(|e: (String, u32)| (e.0@, e.1)) == json_price_entries(bytes@)->0,
{
    match serde_json::from_slice::<BTreeMap<String, u32>>(bytes) {
        Ok(m) => Ok(m.into_iter().collect()),
        Err(e) => Err(e),
    }
}

/// Why a price file could not be read.
pub enum PriceFileError {
    /// The text is not a JSON object of card codes and whole prices.
    Json(serde_json::Error),
}

/// The card codes and raw prices of a price file's bytes, in key order.
pub fn parse_raw_prices(bytes: &Vec<u8>) -> (r: Result<Vec<(String, u32)>, PriceFileError>)
    ensures
        match r {
            Ok(v) => json_price_entries(bytes@) == Some(v@.map_values(|e: (String, u32)| (e.0@, e.1))),
            Err(_) => json_price_entries(bytes@) is None,
        },
{
    match json_price_map(bytes.as_slice()) {
        Ok(v) => Ok(v),
        Err(e) => Err(PriceFileError::Json(e)),
    }
}

/// The entries `serde_json` reads from a JSON object of card codes and
/// lists of whole prices, in key order (a later duplicate key replacing an
/// earlier one); `None` where the text is not such an object. A function of
/// the bytes alone.
pub uninterp spec fn json_price_list_entries(bytes: Seq<u8>) -> Option<Seq<(Seq<char>, Seq<u32>)>>;

/// `serde_json::from_slice` into a `BTreeMap<String, Vec<u32>>`, its
/// entries taken out in key order.
#[verifier::external_body]
fn json_price_list_map(bytes: &[u8]) -> (r: Result<Vec<(String, Vec<u32>)>, serde_json::Error>)
    ensures
        r is Ok <==> json_price_list_entries(bytes@) is Some,
        r is Ok ==> r->Ok_0@.map_values(|e: (String, Vec<u32>)| (e.0@, e.1@)) == json_price_list_entries(bytes@)->0,
{
    match serde_json::from_slice::<BTreeMap<String, Vec<u32>>>(bytes) {
        Ok(m) => Ok(m.into_iter().collect()),
        Err(e) => Err(e),
    }
}

/// The card codes and offered price lists of a price file's bytes, in key
/// order.
pub fn parse_price_lists(bytes: &Vec<u8>) -> (r: Result<Vec<(String, Vec<u32>)>, PriceFileError>)
    ensures
        match r {
            Ok(v) => json_price_list_entries(bytes@) == Some(v@.map_values(|e: (String, Vec<u32>)| (e.0@, e.1@))),
            Err(_) => json_price_list_entries(bytes@) is None,
        },
{
    match json_price_list_map(bytes.as_slice()) {
        Ok(v) => Ok(v),
        Err(e) => Err(PriceFileError::Json(e)),
    }
}

// ---------------------------------------------------------------------
// The totals of an order listing.
// ---------------------------------------------------------------------

/// The whole-unit figures of one listed order.
#[derive(Debug, Clone, Copy, PartialEq, Eq, Structural)]
pub struct OrderRow {
    pub order_count: u32,
    pub card_cost: u32,
    pub card_profit: u32,
    pub design_cost: u32,
    pub discount: u32,
    pub card_raw_price: u32,
}

/// Count times card cost, summed over the rows.
pub open spec fn initial_sum(rows: Seq<OrderRow>) -> int
    decreases rows.len(),
{
    if rows.len() == 0 {
        0
    } else {
        initial_sum(rows.drop_last()) + rows.last().order_count * rows.last().card_cost
    }
}

/// The profit of one order: count times card profit, plus design, less
/// discount.
pub open spec fn order_profit(r: OrderRow) -> int {
    r.order_count * r.card_profit + r.design_cost - r.discount
}

/// The order profits, summed over the rows.
pub open spec fn profit_sum(rows: Seq<OrderRow>) -> int
    decreases rows.len(),
{
    if rows.len() == 0 {
        0
    } else {
        profit_sum(rows.drop_last()) + order_profit(rows.last())
    }
}

/// Count times raw card price, summed over the rows.
pub open spec fn card_sum(rows: Seq<OrderRow>) -> int
    decreases rows.len(),
{
    if rows.len() == 0 {
        0
    } else {
        card_sum(rows.drop_last()) + rows.last().order_count * rows.last().card_raw_price
    }
}

/// Adding the rows one by one in `u32` never overflows: every running sum
/// fits, and no order's discount exceeds its profit before discount.
pub open spec fn totals_fit(rows: Seq<OrderRow>) -> bool
    decreases rows.len(),
{
    if rows.len() == 0 {
        true
    } else {
        let r = rows.last();
        &&& totals_fit(rows.drop_last())
        &&& initial_sum(rows) <= u32::MAX
        &&& r.order_count * r.card_profit + r.design_cost <= u32::MAX
        &&& r.order_count * r.card_profit + r.design_cost >= r.discount
        &&& profit_sum(rows) <= u32::MAX
        &&& card_sum(rows) <= u32::MAX
    }
}

/// When adding all the rows never overflows, adding any first part of them
/// never does.
proof fn lemma_totals_fit_prefix(rows: Seq<OrderRow>, k: nat)
    requires
        k <= rows.len(),
        totals_fit(rows),
    ensures
        totals_fit(rows.take(k as int)),
    decreases rows.len() - k,
{
    if k < rows.len() {
        lemma_totals_fit_prefix(rows, k + 1);
        assert(rows.take((k + 1) as int).drop_last() =~= rows.take(k as int));
    } else {
        assert(rows.take(k as int) =~= rows);
    }
}

/// An empty listing totals to zero and adds up.
pub proof fn lemma_order_sums_empty()
    ensures
        initial_sum(Seq::<OrderRow>::empty()) == 0,
        profit_sum(Seq::<OrderRow>::empty()) == 0,
        card_sum(Seq::<OrderRow>::empty()) == 0,
        totals_fit(Seq::<OrderRow>::empty()),
{
}

/// One more order adds count times card cost to the initial total, count
/// times card profit plus design cost less discount to the profit, and
/// count times raw price to the card portion; the listing still adds up in
/// `u32` exactly when these sums fit and the discount does not exceed the
/// order's profit before discount.
pub proof fn lemma_order_sums_push(rows: Seq<OrderRow>, r: OrderRow)
    ensures
        initial_sum(rows.push(r)) == initial_sum(rows) + r.order_count * r.card_cost,
        profit_sum(rows.push(r)) == profit_sum(rows) + r.order_count * r.card_profit + r.design_cost - r.discount,
        card_sum(rows.push(r)) == card_sum(rows) + r.order_count * r.card_raw_price,
        totals_fit(rows.push(r)) <==> {
            &&& totals_fit(rows)
            &&& initial_sum(rows) + r.order_count * r.card_cost <= u32::MAX
            &&& r.order_count * r.card_profit + r.design_cost <= u32::MAX
            &&& r.order_count * r.card_profit + r.design_cost >= r.discount
            &&& profit_sum(rows) + r.order_count * r.card_profit + r.design_cost - r.discount <= u32::MAX
            &&& card_sum(rows) + r.order_count * r.card_raw_price <= u32::MAX
        },
{
    assert(rows.push(r).drop_last() =~= rows);
    assert(rows.push(r).last() == r);
}

/// Listing two runs of orders together gives, for each of the three
/// totals, the sum of the two runs' totals; and when the joint listing
/// adds up without overflow, so does the first run on its own.
pub proof fn lemma_order_sums_split(a: Seq<OrderRow>, b: Seq<OrderRow>)
    ensures
        initial_sum(a + b) == initial_sum(a) + initial_sum(b),
        profit_sum(a + b) == profit_sum(a) + profit_sum(b),
        card_sum(a + b) == card_sum(a) + card_sum(b),
        totals_fit(a + b) ==> totals_fit(a),
    decreases b.len(),
{
    if b.len() == 0 {
        assert(a + b =~= a);
    } else {
        lemma_order_sums_split(a, b.drop_last());
        assert((a + b).drop_last() =~= a + b.drop_last());
        assert((a + b).last() == b.last());
        if totals_fit(a + b) {
            lemma_totals_fit_prefix(a + b, a.len());
            assert((a + b).take(a.len() as int) =~= a);
        }
    }
}

/// The totals of an order listing: the three sums when adding the rows in
/// order never overflows, else `None` (where the running `u32` sums would
/// overflow).
pub fn order_totals(rows: &Vec<OrderRow>) -> (r: Option<OrderTotals>)
    ensures
        match r {
            Some(t) => totals_fit(rows@) && t.total_initial == initial_sum(rows@) && t.total_profit
                == profit_sum(rows@) && t.card_portion_of_initial == card_sum(rows@),
            None => !totals_fit(rows@),
        },
{
    let mut t = OrderTotals::new();
    let mut i: usize = 0;
    while i < rows.len()
        invariant
            i <= rows@.len(),
            totals_fit(rows@.take(i as int)),
            t.total_initial == initial_sum(rows@.take(i as int)),
            t.total_profit == profit_sum(rows@.take(i as int)),
            t.card_portion_of_initial == card_sum(rows@.take(i as int)),
        decreases rows@.len() - i,
    {
        let r = rows[i];
        let ghost next = rows@.take(i + 1);
        proof {
            assert(next.drop_last() =~= rows@.take(i as int));
            assert(next.last() == r);
        }
        proof {
            assert(r.order_count as u64 * r.card_cost as u64 <= 0xffff_fffe_0000_0001u64) by (nonlinear_arith)
                requires
                    r.order_count <= u32::MAX,
                    r.card_cost <= u32::MAX,
            ;
            assert(r.order_count as u64 * r.card_profit as u64 <= 0xffff_fffe_0000_0001u64) by (nonlinear_arith)
                requires
                    r.order_count <= u32::MAX,
                    r.card_profit <= u32::MAX,
            ;
            assert(r.order_count as u64 * r.card_raw_price as u64 <= 0xffff_fffe_0000_0001u64) by (nonlinear_arith)
                requires
                    r.order_count <= u32::MAX,
                    r.card_raw_price <= u32::MAX,
            ;
        }
        let initial = t.total_initial as u64 + r.order_count as u64 * r.card_cost as u64;
        let base = r.order_count as u64 * r.card_profit as u64 + r.design_cost as u64;
        let portion = t.card_portion_of_initial as u64 + r.order_count as u64 * r.card_raw_price as u64;
        if initial > u32::MAX as u64 || base > u32::MAX as u64 || base < r.discount as u64 || portion
            > u32::MAX as u64 || t.total_profit as u64 + (base - r.discount as u64) > u32::MAX as u64 {
            proof {
                assert(!totals_fit(next));
                if totals_fit(rows@) {
                    lemma_totals_fit_prefix(rows@, (i + 1) as nat);
                }
            }
            return None;
        }
        t.add_order(r.order_count, r.card_cost, r.card_profit, r.design_cost, r.discount, r.card_raw_price);
        i = i + 1;
    }
    proof {
        assert(rows@.take(rows@.len() as int) =~= rows@);
    }
    Some(t)
}

} // verus!
