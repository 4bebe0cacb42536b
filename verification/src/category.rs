use vstd::prelude::*;
use vstd::string::StringExecFns;

use crate::text::{dec, decimal_string};

verus! {

/// A bookkeeping category; `parent` is the id of the enclosing category.
#[derive(Debug, Clone)]
pub struct Category {
    pub id: u32,
    pub title: String,
    pub description: String,
    pub parent: Option<u32>,
}

/// What a category is, as plain values: id, title, description, parent id.
pub type CategoryView = (u32, Seq<char>, Seq<char>, Option<u32>);

impl View for Category {
    type V = CategoryView;

    open spec fn view(&self) -> CategoryView {
        (self.id, self.title@, self.description@, self.parent)
    }
}

/// The colour a category's title is shown in.
#[derive(Debug, Clone, Copy, PartialEq, Eq, Structural)]
pub enum TitleColor {
    Green,
    Yellow,
}

/// Which categories a listing asks for.
pub enum CategoryKind {
    All,
    Root,
    Child(u32),
}

impl Category {
    pub fn new(id: u32, title: String, description: String, parent: Option<u32>) -> (c: Self)
        ensures
            c.id == id,
            c.title@ == title@,
            c.description@ == description@,
            c.parent == parent,
    {
        Self { id, title, description, parent }
    }

    /// Root categories are shown green, the others yellow.
    pub fn title_color(&self) -> (c: TitleColor)
        ensures
            c == (if self.parent is None { TitleColor::Green } else { TitleColor::Yellow }),
    {
        if self.parent.is_none() {
            TitleColor::Green
        } else {
            TitleColor::Yellow
        }
    }

    /// The parent column of a listing: the parent's id in decimal, or "-"
    /// for a root category.
    pub fn parent_label(&self) -> (s: String)
        ensures
            s@ == match self.parent {
                Some(p) => dec(p as nat),
                None => "-"@,
            },
    {
        match self.parent {
            Some(p) => decimal_string(p as u64),
            None => String::from_str("-"),
        }
    }
}

} // verus!
