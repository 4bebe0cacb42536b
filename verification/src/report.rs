use vstd::prelude::*;
use vstd::string::StringExecFns;

verus! {

/// One line of the income/outcome report: a title and four amounts (cards,
/// ink and printer, profit, account balance).
pub struct InOutReport {
    pub title: String,
    pub v1: u32,
    pub v2: u32,
    pub v3: u32,
    pub v4: u32,
}

/// The colour a report line is shown in.
#[derive(Debug, Clone, Copy, PartialEq, Eq, Structural)]
pub enum ReportColor {
    Yellow,
    Red,
    Green,
    White,
}

/// What `str::to_lowercase` returns for a string: the Unicode lower-case
/// mapping of each character, a function of the characters alone.
pub uninterp spec fn lowercase_of(s: Seq<char>) -> Seq<char>;

/// `str::to_lowercase`.
#[verifier::external_body]
fn lowercase(s: &str) -> (r: String)
    ensures
        r@ == lowercase_of(s@),
{
    s.to_lowercase()
}

/// The colour of a line whose lower-cased title is `lowered`: income lines
/// ("+") yellow, outcome lines ("-") red, the summary green, others white.
pub open spec fn color_of_lowered(lowered: Seq<char>) -> ReportColor {
    if lowered == "+"@ {
        ReportColor::Yellow
    } else if lowered == "-"@ {
        ReportColor::Red
    } else if lowered == "summary"@ {
        ReportColor::Green
    } else {
        ReportColor::White
    }
}

impl View for InOutReport {
    type V = (Seq<char>, u32, u32, u32, u32);

    open spec fn view(&self) -> (Seq<char>, u32, u32, u32, u32) {
        (self.title@, self.v1, self.v2, self.v3, self.v4)
    }
}

impl InOutReport {
    pub fn new(title: String, v1: u32, v2: u32, v3: u32, v4: u32) -> (r: Self)
        ensures
            r@ == (title@, v1, v2, v3, v4),
    {
        Self { title, v1, v2, v3, v4 }
    }

    /// The line's title.
    pub fn title(&self) -> (t: &str)
        ensures
            t@ == self@.0,
    {
        self.title.as_str()
    }

    /// The summary line: what is left of each income amount after the
    /// matching outcome, never below zero, and as balance the income
    /// balance minus the outcome's cards, ink/printer and profit amounts.
    pub fn summary(income: &Self, outcome: &Self) -> (r: Self)
        requires
            outcome@.1 + outcome@.2 + outcome@.3 <= income@.4,
        ensures
            r@.0 == "Summary"@,
            r@.1 == if income@.1 >= outcome@.1 { income@.1 - outcome@.1 } else { 0 },
            r@.2 == if income@.2 >= outcome@.2 { income@.2 - outcome@.2 } else { 0 },
            r@.3 == if income@.3 >= outcome@.3 { income@.3 - outcome@.3 } else { 0 },
            r@.4 == income@.4 - (outcome@.1 + outcome@.2 + outcome@.3),
    {
        Self {
            title: String::from_str("Summary"),
            v1: income.v1.saturating_sub(outcome.v1),
            v2: income.v2.saturating_sub(outcome.v2),
            v3: income.v3.saturating_sub(outcome.v3),
            v4: income.v4 - (outcome.v1 + outcome.v2 + outcome.v3),
        }
    }

    /// The colour of this line, chosen by its lower-cased title.
    pub fn color(&self) -> (c: ReportColor)
        ensures
            c == color_of_lowered(lowercase_of(self@.0)),
    {
        let lowered = lowercase(self.title.as_str());
        color_for_lowered(lowered.as_str())
    }
}

/// The colour for an already lower-cased title.
pub fn color_for_lowered(lowered: &str) -> (c: ReportColor)
    ensures
        c == color_of_lowered(lowered@),
{
    let s = String::from_str(lowered);
    if s == String::from_str("+") {
        ReportColor::Yellow
    } else if s == String::from_str("-") {
        ReportColor::Red
    } else if s == String::from_str("summary") {
        ReportColor::Green
    } else {
        ReportColor::White
    }
}

} // verus!
