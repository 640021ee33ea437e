use std::time::Duration;

use scrapy::frontier::Frontier;
use scrapy::{Action, ConfigError, Crawler, Engine};

type Outcome = Result<(Vec<String>, Vec<String>), String>;

/// What a simulated crawl observed.
struct Run {
    fetched: Vec<String>,
    processed: Vec<String>,
    max_queued: usize,
    max_in_flight: usize,
    elapsed: Duration,
    finished: bool,
}

enum Pending {
    Fetched(String),
    Paused,
    Processed(String),
}

/// Drives an engine to quiescence. Fetches and processing take no time; a
/// pause takes the crawler's delay. Completions are taken in time order.
fn simulate(crawler: &Crawler, seeds: &[&str], fetch: &dyn Fn(&str) -> Outcome) -> Run {
    let seeds: Vec<String> = seeds.iter().map(|s| s.to_string()).collect();
    let (mut engine, first) = Engine::<String>::start(crawler, &seeds);
    let delay = crawler.delay();
    let mut now = Duration::ZERO;
    let mut queue: Vec<(Duration, usize, Pending)> = Vec::new();
    let mut order = 0usize;
    let mut run = Run {
        fetched: Vec::new(),
        processed: Vec::new(),
        max_queued: 0,
        max_in_flight: 0,
        elapsed: Duration::ZERO,
        finished: false,
    };
    let mut schedule = |actions: Vec<Action<String>>,
                        now: Duration,
                        queue: &mut Vec<(Duration, usize, Pending)>,
                        run: &mut Run| {
        for action in actions {
            order += 1;
            match action {
                Action::Fetch(url) => {
                    run.fetched.push(url.clone());
                    queue.push((now, order, Pending::Fetched(url)));
                }
                Action::Pause => queue.push((now + delay, order, Pending::Paused)),
                Action::Process(item) => queue.push((now, order, Pending::Processed(item))),
            }
        }
    };
    schedule(first, now, &mut queue, &mut run);
    while !queue.is_empty() {
        let mut best = 0;
        for i in 1..queue.len() {
            if (queue[i].0, queue[i].1) < (queue[best].0, queue[best].1) {
                best = i;
            }
        }
        let (at, _, event) = queue.remove(best);
        now = at;
        let next = match event {
            Pending::Fetched(url) => {
                let outcome = fetch(&url);
                engine.on_fetched(url, outcome)
            }
            Pending::Paused => engine.on_paused(),
            Pending::Processed(item) => {
                run.processed.push(item);
                engine.on_processed()
            }
        };
        schedule(next, now, &mut queue, &mut run);
        run.max_queued = run.max_queued.max(engine.queued_items());
        run.max_in_flight = run.max_in_flight.max(engine.in_flight());
    }
    run.elapsed = now;
    run.finished = engine.is_finished();
    run
}

fn scraped(url: &str) -> Outcome {
    Ok((vec![format!("Scraped {}", url)], vec![]))
}

fn links(pairs: &[(&str, &[&str])], url: &str) -> Outcome {
    for (from, to) in pairs {
        if *from == url {
            return Ok((
                vec![format!("item of {}", url)],
                to.iter().map(|s| s.to_string()).collect(),
            ));
        }
    }
    Err(format!("no page at {}", url))
}

#[test]
fn test_crawler_creation() {
    let crawler = Crawler::new(Duration::from_millis(100), 2, 2).unwrap();
    assert_eq!(crawler.delay(), Duration::from_millis(100));
    assert_eq!(crawler.crawling_concurrency(), 2);
    assert_eq!(crawler.processing_concurrency(), 2);
}

#[test]
fn test_crawler_crawl() {
    let crawler = Crawler::new(Duration::from_millis(10), 2, 2).unwrap();
    let run = simulate(&crawler, &["http://example.com", "http://example.org"], &scraped);
    let items = run.processed;
    assert_eq!(items.len(), 2);
    assert!(items.contains(&"Scraped http://example.com".to_string()));
    assert!(items.contains(&"Scraped http://example.org".to_string()));
}

#[test]
fn test_crawler_respects_delay() {
    let delay = Duration::from_millis(100);
    let crawler = Crawler::new(delay, 1, 1).unwrap();
    let run = simulate(&crawler, &["http://example.com", "http://example.org"], &scraped);
    assert!(run.elapsed >= delay * 2, "Crawler should respect the delay between requests");
}

#[test]
fn zero_crawling_concurrency_is_rejected() {
    assert!(matches!(
        Crawler::new(Duration::from_millis(1), 0, 3),
        Err(ConfigError::ZeroCrawlingConcurrency)
    ));
}

#[test]
fn zero_processing_concurrency_is_rejected() {
    assert!(matches!(
        Crawler::new(Duration::from_millis(1), 3, 0),
        Err(ConfigError::ZeroProcessingConcurrency)
    ));
}

#[test]
fn oversized_concurrency_is_rejected() {
    assert!(matches!(
        Crawler::new(Duration::from_millis(1), usize::MAX, 1),
        Err(ConfigError::CapacityOverflow)
    ));
    assert!(matches!(
        Crawler::new(Duration::from_millis(1), 1, usize::MAX / 5),
        Err(ConfigError::CapacityOverflow)
    ));
}

#[test]
fn queue_capacities_scale_with_concurrency() {
    let crawler = Crawler::new(Duration::from_millis(200), 2, 500).unwrap();
    assert_eq!(crawler.crawling_queue_capacity(), 800);
    assert_eq!(crawler.processing_queue_capacity(), 5000);
}

#[test]
fn cycle_is_fetched_once_per_url() {
    let crawler = Crawler::new(Duration::from_millis(5), 2, 2).unwrap();
    let graph: &[(&str, &[&str])] = &[("http://a", &["http://b"]), ("http://b", &["http://a"])];
    let run = simulate(&crawler, &["http://a"], &|u| links(graph, u));
    assert_eq!(run.fetched, vec!["http://a".to_string(), "http://b".to_string()]);
    assert_eq!(run.processed.len(), 2);
    assert!(run.finished);
}

#[test]
fn every_reachable_url_is_fetched_exactly_once() {
    let crawler = Crawler::new(Duration::from_millis(1), 3, 2).unwrap();
    let graph: &[(&str, &[&str])] = &[
        ("r", &["a", "b", "a", "r"]),
        ("a", &["c", "b"]),
        ("b", &["c", "d"]),
        ("c", &["r"]),
        ("d", &["e"]),
        ("e", &[]),
        ("unlinked", &["a"]),
    ];
    let run = simulate(&crawler, &["r", "r"], &|u| links(graph, u));
    let mut fetched = run.fetched.clone();
    fetched.sort();
    assert_eq!(fetched, vec!["a", "b", "c", "d", "e", "r"]);
    assert_eq!(run.processed.len(), 6);
    assert!(run.finished);
}

#[test]
fn failed_fetch_yields_no_items_and_no_links() {
    let crawler = Crawler::new(Duration::from_millis(1), 2, 2).unwrap();
    let fetch = |u: &str| -> Outcome {
        match u {
            "root" => Ok((vec!["root item".to_string()], vec!["broken".into(), "fine".into()])),
            "broken" => Err("connection reset".to_string()),
            "fine" => Ok((vec!["fine item".to_string()], vec![])),
            _ => Ok((vec![format!("item of {}", u)], vec![])),
        }
    };
    let run = simulate(&crawler, &["root"], &fetch);
    let mut fetched = run.fetched.clone();
    fetched.sort();
    assert_eq!(fetched, vec!["broken", "fine", "root"]);
    let mut processed = run.processed.clone();
    processed.sort();
    assert_eq!(processed, vec!["fine item", "root item"]);
    assert!(run.finished);
}

#[test]
fn finished_crawl_has_nothing_in_flight() {
    let crawler = Crawler::new(Duration::from_millis(3), 4, 1).unwrap();
    let graph: &[(&str, &[&str])] = &[("x", &["y", "z"]), ("y", &[]), ("z", &["x"])];
    let seeds: Vec<String> = vec!["x".to_string()];
    let (mut engine, mut actions) = Engine::<String>::start(&crawler, &seeds);
    let mut steps = 0;
    while !actions.is_empty() {
        let action = actions.remove(0);
        let more = match action {
            Action::Fetch(url) => {
                let outcome = links(graph, &url);
                engine.on_fetched(url, outcome)
            }
            Action::Pause => engine.on_paused(),
            Action::Process(_) => engine.on_processed(),
        };
        actions.extend(more);
        steps += 1;
        assert!(steps < 1000);
    }
    assert!(engine.is_finished());
    assert_eq!(engine.in_flight(), 0);
    assert_eq!(engine.queued_items(), 0);
    assert_eq!(engine.visited_count(), 3);
}

#[test]
fn item_queue_never_exceeds_capacity() {
    let crawler = Crawler::new(Duration::from_millis(1), 8, 1).unwrap();
    let fetch = |u: &str| -> Outcome {
        let items: Vec<String> = (0..25).map(|i| format!("{} #{}", u, i)).collect();
        let next: Vec<String> = if u.len() < 4 {
            (0..3).map(|i| format!("{}{}", u, i)).collect()
        } else {
            vec![]
        };
        Ok((items, next))
    };
    let run = simulate(&crawler, &["p"], &fetch);
    assert_eq!(run.fetched.len(), 1 + 3 + 9 + 27);
    assert_eq!(run.processed.len(), 40 * 25);
    assert!(run.max_queued <= crawler.processing_queue_capacity());
    assert_eq!(run.max_queued, 10);
    assert!(run.max_in_flight <= 8);
    assert!(run.finished);
}

#[test]
fn single_worker_spaces_fetches_by_the_delay() {
    let delay = Duration::from_millis(40);
    let crawler = Crawler::new(delay, 1, 3).unwrap();
    let seeds = ["u1", "u2", "u3", "u4", "u5"];
    let run = simulate(&crawler, &seeds, &scraped);
    assert_eq!(run.fetched.len(), 5);
    assert!(run.elapsed >= delay * 4);
    assert_eq!(run.max_in_flight, 1);
}

#[test]
fn end_to_end_two_page_cycle() {
    let crawler = Crawler::new(Duration::from_millis(2), 2, 2).unwrap();
    let fetch = |u: &str| -> Outcome {
        match u {
            "http://a" => Ok((vec!["item a".to_string()], vec!["http://b".to_string()])),
            "http://b" => Ok((vec!["item b".to_string()], vec!["http://a".to_string()])),
            _ => Err("unexpected".to_string()),
        }
    };
    let run = simulate(&crawler, &["http://a"], &fetch);
    assert_eq!(run.fetched.len(), 2);
    assert_eq!(run.processed.len(), 2);
    assert!(run.finished);
}

#[test]
fn report_for_unknown_url_changes_nothing() {
    let crawler = Crawler::new(Duration::from_millis(2), 1, 1).unwrap();
    let seeds = vec!["a".to_string(), "b".to_string()];
    let (mut engine, first) = Engine::<String>::start(&crawler, &seeds);
    assert_eq!(first.len(), 1);
    assert!(matches!(&first[0], Action::Fetch(u) if u == "a"));
    let none = engine.on_fetched::<String>("b".to_string(), Ok((vec!["x".to_string()], vec![])));
    assert!(none.is_empty());
    assert_eq!(engine.in_flight(), 1);
    assert!(engine.on_paused().is_empty());
    assert!(engine.on_processed().is_empty());
}

#[test]
fn failed_fetch_pauses_the_worker() {
    let crawler = Crawler::new(Duration::from_millis(2), 1, 1).unwrap();
    let seeds = vec!["a".to_string(), "b".to_string()];
    let (mut engine, _) = Engine::<String>::start(&crawler, &seeds);
    let after = engine.on_fetched("a".to_string(), Err("timeout".to_string()));
    assert_eq!(after.len(), 1);
    assert!(matches!(after[0], Action::Pause));
    assert_eq!(engine.queued_items(), 0);
    let next = engine.on_paused();
    assert_eq!(next.len(), 1);
    assert!(matches!(&next[0], Action::Fetch(u) if u == "b"));
}

#[test]
fn seeding_skips_repeated_urls() {
    let mut frontier = Frontier::new();
    let seeds: Vec<String> = vec!["a".into(), "b".into(), "a".into()];
    frontier.seed(&seeds);
    assert_eq!(frontier.visited_len(), 2);
    assert_eq!(frontier.pending_len(), 2);
    assert_eq!(frontier.pop(), Some("a".to_string()));
    assert_eq!(frontier.pop(), Some("b".to_string()));
    assert_eq!(frontier.pop(), None);
}

#[test]
fn rereporting_visited_urls_enqueues_nothing() {
    let mut frontier = Frontier::new();
    frontier.seed(&vec!["a".to_string()]);
    let found: Vec<String> = vec!["b".into(), "c".into(), "b".into()];
    frontier.report_discovered(&"a".to_string(), &found);
    assert_eq!(frontier.visited_len(), 3);
    assert_eq!(frontier.pending_len(), 3);
    frontier.report_discovered(&"a".to_string(), &found);
    frontier.report_discovered(&"b".to_string(), &vec!["a".to_string(), "c".to_string()]);
    assert_eq!(frontier.visited_len(), 3);
    assert_eq!(frontier.pending_len(), 3);
    assert!(frontier.is_visited(&"c".to_string()));
    assert!(!frontier.is_visited(&"d".to_string()));
}

#[test]
fn reported_source_is_marked_visited() {
    let mut frontier = Frontier::new();
    frontier.report_discovered(&"s".to_string(), &vec![]);
    assert!(frontier.is_visited(&"s".to_string()));
    assert_eq!(frontier.pending_len(), 0);
}

#[test]
fn links_wait_until_items_are_queued() {
    let crawler = Crawler::new(Duration::from_millis(2), 2, 1).unwrap();
    let seeds = vec!["a".to_string(), "x".to_string()];
    let (mut engine, first) = Engine::<String>::start(&crawler, &seeds);
    assert_eq!(first.len(), 2);
    let items: Vec<String> = (0..12).map(|i| format!("a{}", i)).collect();
    let after = engine.on_fetched::<String>("a".to_string(), Ok((items, vec!["b".to_string()])));
    // One item goes to processing, ten fill the queue, one waits with the worker.
    assert_eq!(after.len(), 1);
    assert!(matches!(&after[0], Action::Process(i) if i == "a0"));
    assert_eq!(engine.queued_items(), 10);
    assert_eq!(engine.visited_count(), 2);
    let next = engine.on_processed();
    assert_eq!(engine.visited_count(), 3);
    assert!(next.iter().any(|a| matches!(a, Action::Pause)));
    assert!(!next.iter().any(|a| matches!(a, Action::Fetch(_))));
    assert_eq!(engine.in_flight(), 2);
}
