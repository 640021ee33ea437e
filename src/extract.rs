//! Extraction of items from a fetched page: the inner HTML of every element
//! that matches one of a list of CSS selectors.
use crate::frontier::views;
use vstd::prelude::*;

verus! {

#[verifier::external_type_specification]
#[verifier::external_body]
pub struct ExSelector(scraper::Selector);

#[verifier::external_type_specification]
#[verifier::external_body]
pub struct ExHtml(scraper::Html);

/// Whether `source` is a valid CSS selector group.
pub uninterp spec fn is_css_selector(source: Seq<char>) -> bool;

/// The inner HTML of each element of the HTML document `document` that the
/// selector group `selector` matches, in the order scraper's `select` yields
/// them.
pub uninterp spec fn matched_inner_html(document: Seq<char>, selector: Seq<char>) -> Seq<
    Seq<char>,
>;

/// Relies on scraper's `Selector::parse`: it succeeds exactly on valid
/// selector groups, which depends on the text alone.
#[verifier::external_body]
fn compile_selector(source: &str) -> (r: Option<scraper::Selector>)
    ensures
        r is Some <==> is_css_selector(source@),
{
    scraper::Selector::parse(source).ok()
}

/// Relies on scraper's `Html::parse_document`, which accepts any text.
#[verifier::external_body]
fn parse_document(source: &str) -> (r: scraper::Html) {
    scraper::Html::parse_document(source)
}

/// A parsed HTML document, with the text it was parsed from. Built only by
/// `ParsedPage::parse`, so `tree` is always the parse of `source`.
struct ParsedPage {
    source: String,
    tree: scraper::Html,
}

impl ParsedPage {
    fn parse(source: &str) -> (r: ParsedPage)
        ensures
            r.source@ == source@,
    {
        ParsedPage { source: source.to_owned(), tree: parse_document(source) }
    }
}

/// Relies on scraper's `Html::select` and `ElementRef::inner_html`: the
/// elements of the page that the selector matches, in the order `select`
/// yields them, each serialized without its own tags.
#[verifier::external_body]
fn select_inner_html(page: &ParsedPage, selector: &CssSelector) -> (r: Vec<String>)
    ensures
        views(r@) == matched_inner_html(page.source@, selector.source@),
{
    page.tree.select(&selector.compiled).map(|e| e.inner_html()).collect()
}

/// A compiled CSS selector group, with the text it was compiled from.
pub struct CssSelector {
    source: String,
    compiled: scraper::Selector,
}

impl CssSelector {
    pub closed spec fn source(&self) -> Seq<char> {
        self.source@
    }

    /// Compiles `source`; `None` when it is not a valid selector group.
    pub fn parse(source: &str) -> (r: Option<CssSelector>)
        ensures
            r is Some <==> is_css_selector(source@),
            r matches Some(s) ==> s.source() == source@,
    {
        match compile_selector(source) {
            Some(compiled) => Some(CssSelector { source: source.to_owned(), compiled }),
            None => None,
        }
    }
}

/// What the selectors `selectors` extract from `document`: the matches of
/// each selector in turn.
pub open spec fn extracted(document: Seq<char>, selectors: Seq<Seq<char>>) -> Seq<Seq<char>>
    decreases selectors.len(),
{
    if selectors.len() == 0 {
        Seq::empty()
    } else {
        extracted(document, selectors.drop_last()) + matched_inner_html(
            document,
            selectors.last(),
        )
    }
}

/// The selector texts of a list of compiled selectors.
pub open spec fn selector_sources(selectors: Seq<CssSelector>) -> Seq<Seq<char>> {
    selectors.map_values(|s: CssSelector| s.source())
}

/// Extracts items from pages with a fixed list of selectors.
pub struct PageExtractor {
    selectors: Vec<CssSelector>,
}

impl PageExtractor {
    pub closed spec fn selectors(&self) -> Seq<Seq<char>> {
        selector_sources(self.selectors@)
    }

    /// Compiles each of `sources`. Fails with the position of the first
    /// text that is not a valid selector group.
    pub fn new(sources: &Vec<String>) -> (r: Result<PageExtractor, usize>)
        ensures
            r matches Ok(e) ==> e.selectors() == views(sources@) && forall|i: int|
                0 <= i < sources@.len() ==> is_css_selector(#[trigger] sources@[i]@),
            r matches Err(i) ==> i < sources@.len() && !is_css_selector(sources@[i as int]@)
                && forall|j: int| 0 <= j < i ==> is_css_selector(#[trigger] sources@[j]@),
    {
        let mut selectors: Vec<CssSelector> = Vec::new();
        let mut i: usize = 0;
        while i < sources.len()
            invariant
                i <= sources@.len(),
                selectors@.len() == i,
                selector_sources(selectors@) == views(sources@).subrange(0, i as int),
                forall|j: int| 0 <= j < i ==> is_css_selector(#[trigger] sources@[j]@),
            decreases sources@.len() - i,
        {
            match CssSelector::parse(sources[i].as_str()) {
                Some(s) => {
                    let ghost before = selectors@;
                    selectors.push(s);
                    assert(selector_sources(selectors@) =~= views(sources@).subrange(
                        0,
                        i as int + 1,
                    )) by {
                        assert(selector_sources(before) =~= views(sources@).subrange(0, i as int));
                    }
                },
                None => {
                    return Err(i);
                },
            }
            i = i + 1;
        }
        assert(views(sources@).subrange(0, i as int) =~= views(sources@));
        Ok(PageExtractor { selectors })
    }

    /// The inner HTML of every element of `html` that a selector matches:
    /// the matches of the first selector, then of the second, and so on.
    pub fn extract(&self, html: &str) -> (r: Vec<String>)
        ensures
            views(r@) == extracted(html@, self.selectors()),
    {
        let page = ParsedPage::parse(html);
        let mut items: Vec<String> = Vec::new();
        let mut i: usize = 0;
        while i < self.selectors.len()
            invariant
                i <= self.selectors@.len(),
                page.source@ == html@,
                views(items@) == extracted(html@, self.selectors().subrange(0, i as int)),
            decreases self.selectors@.len() - i,
        {
            let s = &self.selectors[i];
            let mut found = select_inner_html(&page, s);
            let ghost before = items@;
            let ghost prefix = self.selectors().subrange(0, i as int);
            let ghost next = self.selectors().subrange(0, i as int + 1);
            assert(next.drop_last() =~= prefix);
            assert(next.last() == s.source@);
            items.append(&mut found);
            assert(views(items@) =~= views(before) + matched_inner_html(html@, s.source@));
            i = i + 1;
        }
        assert(self.selectors().subrange(0, i as int) =~= self.selectors());
        items
    }
}

} // verus!
