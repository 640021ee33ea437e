//! What the front end's fixed routes answer.
use crate::frontier::views;
use crate::utils::{get_all_models, supported_models};
use vstd::prelude::*;

verus! {

/// The greeting of the API's index route.
pub open spec fn welcome() -> Seq<char> {
    "Welcome to the web scraping API!"@
}

pub fn index() -> (r: &'static str)
    ensures
        r@ == welcome(),
{
    "Welcome to the web scraping API!"
}

/// The models a client may choose from.
pub fn get_models() -> (r: Vec<String>)
    ensures
        views(r@) == supported_models(),
{
    get_all_models()
}

} // verus!
