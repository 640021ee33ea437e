//! Plain data exchanged with the front end.
use vstd::prelude::*;

verus! {

/// The kind of a progress message sent to subscribers.
#[derive(Debug, Clone, PartialEq, Eq, Hash, Structural)]
pub enum MessageType {
    Progress,
    Raw,
    ScrapingResult,
    Error,
    Success,
    Warning,
}

/// What a client asks to have scraped.
#[derive(Clone, Debug)]
pub struct ScrapeParams {
    pub model: String,
    pub api_key: String,
    pub url: String,
    pub enable_scraping: bool,
    pub tags: Vec<String>,
    pub enable_pagination: bool,
    pub pagination_details: Option<String>,
}

/// The settings a client may give a crawler: delay in milliseconds and the
/// sizes of the two worker pools.
#[derive(Debug)]
pub struct InitializeCrawlerRequest {
    pub delay: u64,
    pub crawling_concurrency: usize,
    pub processing_concurrency: usize,
}

/// URLs a client asks to have crawled.
pub struct CrawlRequest {
    pub urls: Vec<String>,
}

/// The items a crawl extracted.
pub struct CrawlResponse {
    pub items: Vec<String>,
}

} // verus!
