//! Verified core of a small bookkeeping tool for a card print shop: the
//! category tree, price rules, period reports and Jalali-calendar helpers.
pub mod calendar;
pub mod category;
pub mod category_manager;
pub mod pricing;
pub mod report;
pub mod text;
