//! Crawl orchestration: a deduplicating URL frontier, a bounded scrape stage
//! and a bounded process stage, coupled through a single coordinating state
//! machine that decides every dispatch and detects quiescence.
pub mod config;
pub mod frontier;
pub mod engine;
pub mod extract;
pub mod guarantees;
pub mod models;
pub mod routes;
pub mod socket;
pub mod utils;

pub use config::{ConfigError, Crawler};
pub use engine::{Action, Engine, EngineView};
pub use extract::{CssSelector, PageExtractor};
pub use frontier::Frontier;
pub use models::{CrawlRequest, CrawlResponse, InitializeCrawlerRequest, MessageType, ScrapeParams};
pub use routes::{get_models, index};
pub use socket::{on_client_frame, ClientFrame, SocketStep};
pub use utils::get_all_models;
