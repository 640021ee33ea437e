//! The AI models the scraper can use.
use crate::frontier::views;
use vstd::prelude::*;

verus! {

/// The names of the models that have a price, in the order they are listed.
pub open spec fn supported_models() -> Seq<Seq<char>> {
    seq!["gemini-1.5-flash-latest"@]
}

pub fn get_all_models() -> (r: Vec<String>)
    ensures
        views(r@) == supported_models(),
{
    let mut r: Vec<String> = Vec::new();
    r.push("gemini-1.5-flash-latest".to_owned());
    assert(views(r@) =~= supported_models());
    r
}

} // verus!
