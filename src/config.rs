//! Construction-time configuration of a crawl.
use std::time::Duration;
use vstd::prelude::*;

verus! {

/// Slots per scrape worker in the queue that carries completion reports back
/// to the coordinating loop.
pub const FRONTIER_SLOTS_PER_WORKER: usize = 400;

/// Each process worker may have this many items waiting for it in the item queue.
pub const ITEM_SLOTS_PER_WORKER: usize = 10;

/// Why a configuration was rejected.
#[derive(Debug, PartialEq, Eq, Structural)]
pub enum ConfigError {
    /// The scrape stage needs at least one worker.
    ZeroCrawlingConcurrency,
    /// The process stage needs at least one worker.
    ZeroProcessingConcurrency,
    /// A queue capacity derived from a concurrency does not fit in `usize`.
    CapacityOverflow,
}

/// The validated settings of a crawl: politeness delay and the sizes of the
/// two worker pools, with the queue capacities that follow from them.
pub struct Crawler {
    delay: Duration,
    crawling_concurrency: usize,
    processing_concurrency: usize,
    crawling_queue_capacity: usize,
    processing_queue_capacity: usize,
}

impl Crawler {
    pub closed spec fn spec_delay(&self) -> Duration {
        self.delay
    }

    pub closed spec fn spec_crawling_concurrency(&self) -> nat {
        self.crawling_concurrency as nat
    }

    pub closed spec fn spec_processing_concurrency(&self) -> nat {
        self.processing_concurrency as nat
    }

    /// Every crawler that `new` hands out satisfies this.
    pub closed spec fn wf(&self) -> bool {
        &&& self.crawling_concurrency > 0
        &&& self.processing_concurrency > 0
        &&& self.crawling_queue_capacity == self.crawling_concurrency * FRONTIER_SLOTS_PER_WORKER
        &&& self.processing_queue_capacity == self.processing_concurrency * ITEM_SLOTS_PER_WORKER
    }

    pub proof fn lemma_wf(&self)
        requires
            self.wf(),
        ensures
            self.spec_crawling_concurrency() > 0,
            self.spec_processing_concurrency() > 0,
    {
    }

    /// Validates the configuration. Zero workers in either stage is rejected
    /// here rather than discovered mid-crawl.
    pub fn new(delay: Duration, crawling_concurrency: usize, processing_concurrency: usize) -> (r:
        Result<Crawler, ConfigError>)
        ensures
            crawling_concurrency == 0 ==> r == Err::<Crawler, ConfigError>(
                ConfigError::ZeroCrawlingConcurrency,
            ),
            crawling_concurrency > 0 && processing_concurrency == 0 ==> r == Err::<
                Crawler,
                ConfigError,
            >(ConfigError::ZeroProcessingConcurrency),
            crawling_concurrency > 0 && processing_concurrency > 0 ==> {
                if crawling_concurrency * FRONTIER_SLOTS_PER_WORKER > usize::MAX
                    || processing_concurrency * ITEM_SLOTS_PER_WORKER > usize::MAX {
                    r == Err::<Crawler, ConfigError>(ConfigError::CapacityOverflow)
                } else {
                    &&& r is Ok
                    &&& r->Ok_0.wf()
                    &&& r->Ok_0.spec_delay() == delay
                    &&& r->Ok_0.spec_crawling_concurrency() == crawling_concurrency
                    &&& r->Ok_0.spec_processing_concurrency() == processing_concurrency
                }
            },
    {
        if crawling_concurrency == 0 {
            return Err(ConfigError::ZeroCrawlingConcurrency);
        }
        if processing_concurrency == 0 {
            return Err(ConfigError::ZeroProcessingConcurrency);
        }
        let crawling_queue_capacity = match crawling_concurrency.checked_mul(
            FRONTIER_SLOTS_PER_WORKER,
        ) {
            Some(c) => c,
            None => return Err(ConfigError::CapacityOverflow),
        };
        let processing_queue_capacity = match processing_concurrency.checked_mul(
            ITEM_SLOTS_PER_WORKER,
        ) {
            Some(c) => c,
            None => return Err(ConfigError::CapacityOverflow),
        };
        Ok(Crawler {
            delay,
            crawling_concurrency,
            processing_concurrency,
            crawling_queue_capacity,
            processing_queue_capacity,
        })
    }

    /// The pause each scrape worker takes after a fetch.
    pub fn delay(&self) -> (r: Duration)
        ensures
            r == self.spec_delay(),
    {
        self.delay
    }

    pub fn crawling_concurrency(&self) -> (r: usize)
        ensures
            r == self.spec_crawling_concurrency(),
    {
        self.crawling_concurrency
    }

    pub fn processing_concurrency(&self) -> (r: usize)
        ensures
            r == self.spec_processing_concurrency(),
    {
        self.processing_concurrency
    }

    /// Capacity of the queue that carries completion reports from the workers
    /// back to the coordinating loop.
    pub fn crawling_queue_capacity(&self) -> (r: usize)
        requires
            self.wf(),
        ensures
            r == self.spec_crawling_concurrency() * FRONTIER_SLOTS_PER_WORKER,
    {
        self.crawling_queue_capacity
    }

    /// Capacity of the item queue between the two stages.
    pub fn processing_queue_capacity(&self) -> (r: usize)
        requires
            self.wf(),
        ensures
            r == self.spec_processing_concurrency() * ITEM_SLOTS_PER_WORKER,
    {
        self.processing_queue_capacity
    }
}

} // verus!
