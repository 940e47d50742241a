use crate::error::Error;
use crate::text::str_views;
use vstd::prelude::*;

pub mod simple;

verus! {

/// A tag filter: a note passes when it carries every tag of `ands` and,
/// unless `ors` is empty, at least one tag of `ors`.
#[derive(Debug)]
pub struct Filter<'a> {
    pub ands: Vec<&'a str>,
    pub ors: Vec<&'a str>,
}

/// What a `Filter` means in contracts.
pub struct FilterView {
    pub ands: Seq<Seq<char>>,
    pub ors: Seq<Seq<char>>,
}

impl<'a> View for Filter<'a> {
    type V = FilterView;

    open spec fn view(&self) -> FilterView {
        FilterView { ands: str_views(self.ands@), ors: str_views(self.ors@) }
    }
}

/// A grammar of filter texts.
pub trait Tokenizer {
    /// What this grammar makes of the filter text `q`: the filter it
    /// stands for, or `None` where the grammar rejects it.
    spec fn parse(&self, q: Seq<char>) -> Option<FilterView>;

    /// Reads `q` by this grammar.
    fn tokenize<'a>(&self, q: &'a str) -> (r: Result<Filter<'a>, Error>)
        ensures
            match r {
                Ok(f) => self.parse(q@) == Some(f@),
                Err(_) => self.parse(q@) is None,
            },
    ;
}

} // verus!
