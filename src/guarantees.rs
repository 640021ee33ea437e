//! What every crawl driven by the engine guarantees, stated over its
//! abstract state and proved from the invariant its methods maintain.
use crate::engine::{
    absorbed, fetched_urls, is_link_path, lemma_path_mono, pause_count, reached_by_links, Action,
    EngineView,
};
use crate::frontier::lemma_admitted_of_seen;
use vstd::prelude::*;

verus! {

proof fn lemma_finished_visited_were_fetched<T>(v: EngineView<T>, x: Seq<char>)
    requires
        v.inv(),
        v.finished(),
        v.visited.contains(x),
    ensures
        v.dispatched.contains(x),
        v.in_progress == Set::<Seq<char>>::empty(),
{
    assert(v.dispatched + v.pending =~= v.dispatched);
    v.in_progress.lemma_len0_is_empty();
}

/// No URL is ever fetched twice: the URLs handed out for fetching are
/// distinct, however the discovered links repeat or cycle.
pub proof fn lemma_fetched_at_most_once<T>(v: EngineView<T>)
    requires
        v.inv(),
    ensures
        v.dispatched.no_duplicates(),
{
    assert forall|i: int, j: int|
        0 <= i < v.dispatched.len() && 0 <= j < v.dispatched.len() && i != j implies v.dispatched[i]
        != v.dispatched[j] by {
        assert((v.dispatched + v.pending)[i] == v.dispatched[i]);
        assert((v.dispatched + v.pending)[j] == v.dispatched[j]);
    }
}

/// A finished crawl in which no fetch failed has fetched every URL that the
/// link graph reaches from the start URLs, where the graph is the one the
/// fetches reported.
pub proof fn lemma_finished_fetched_all_reachable<T>(
    v: EngineView<T>,
    graph: Map<Seq<char>, Seq<Seq<char>>>,
    path: Seq<Seq<char>>,
)
    requires
        v.inv(),
        v.finished(),
        v.failed == Set::<Seq<char>>::empty(),
        forall|w: Seq<char>| #[trigger]
            v.succeeded.contains_key(w) ==> graph.contains_key(w) && graph[w] == v.succeeded[w],
        is_link_path(graph, v.seeds, path),
    ensures
        v.dispatched.contains(path.last()),
{
    lemma_path_prefix_fetched(v, graph, path, path.len() - 1);
}

proof fn lemma_path_prefix_fetched<T>(
    v: EngineView<T>,
    graph: Map<Seq<char>, Seq<Seq<char>>>,
    path: Seq<Seq<char>>,
    i: int,
)
    requires
        v.inv(),
        v.finished(),
        v.failed == Set::<Seq<char>>::empty(),
        forall|w: Seq<char>| #[trigger]
            v.succeeded.contains_key(w) ==> graph.contains_key(w) && graph[w] == v.succeeded[w],
        is_link_path(graph, v.seeds, path),
        0 <= i < path.len(),
    ensures
        v.dispatched.contains(path[i]),
    decreases i,
{
    if i == 0 {
        lemma_finished_visited_were_fetched(v, path[0]);
    } else {
        lemma_path_prefix_fetched(v, graph, path, i - 1);
        let w = path[i - 1];
        v.in_progress.lemma_len0_is_empty();
        assert(v.succeeded.contains_key(w)) by {
            assert(!v.in_progress.contains(w));
            assert(!v.failed.contains(w));
        }
        assert(graph[w].contains(path[i]));
        assert(v.succeeded[w].contains(path[i]));
        assert(!v.blocked_urls.contains(w));
        lemma_finished_visited_were_fetched(v, path[i]);
    }
}

/// Every URL the crawl has seen lies on a link path from the start URLs
/// whose pages were all fetched successfully.
pub proof fn lemma_seen_urls_reached_through_successes<T>(v: EngineView<T>, x: Seq<char>)
    requires
        v.inv(),
        v.visited.contains(x),
    ensures
        exists|p: Seq<Seq<char>>| #[trigger] is_link_path(v.succeeded, v.seeds, p) && p.last() == x,
{
    reveal(reached_by_links);
}

/// A failed fetch isolates what lies behind it: a URL that every link path
/// from the start URLs reaches only through the page `u` whose fetch failed
/// is never seen, let alone fetched. `graph` is the link graph the successful
/// fetches reported.
pub proof fn lemma_failure_isolates<T>(
    v: EngineView<T>,
    graph: Map<Seq<char>, Seq<Seq<char>>>,
    u: Seq<char>,
    x: Seq<char>,
)
    requires
        v.inv(),
        v.failed.contains(u),
        forall|w: Seq<char>| #[trigger]
            v.succeeded.contains_key(w) ==> graph.contains_key(w) && graph[w] == v.succeeded[w],
        forall|p: Seq<Seq<char>>| #[trigger]
            is_link_path(graph, v.seeds, p) && p.last() == x ==> exists|i: int|
                0 <= i < p.len() - 1 && p[i] == u,
    ensures
        !v.visited.contains(x),
        !v.dispatched.contains(x),
{
    if v.dispatched.contains(x) {
        let j = choose|j: int| 0 <= j < v.dispatched.len() && v.dispatched[j] == x;
        assert((v.dispatched + v.pending)[j] == x);
    }
    if v.visited.contains(x) {
        reveal(reached_by_links);
        let p = choose|p: Seq<Seq<char>>| #[trigger] is_link_path(v.succeeded, v.seeds, p) && p.last() == x;
        lemma_path_mono(v.succeeded, graph, v.seeds, p);
        let i = choose|i: int| 0 <= i < p.len() - 1 && p[i] == u;
        assert(v.succeeded.contains_key(p[i]));
    }
}

/// Only reachable URLs are fetched: every URL handed out for fetching ends a
/// link path from the start URLs in the graph the fetches reported.
pub proof fn lemma_fetched_only_reachable<T>(
    v: EngineView<T>,
    graph: Map<Seq<char>, Seq<Seq<char>>>,
    x: Seq<char>,
)
    requires
        v.inv(),
        forall|w: Seq<char>| #[trigger]
            v.succeeded.contains_key(w) ==> graph.contains_key(w) && graph[w] == v.succeeded[w],
        v.dispatched.contains(x),
    ensures
        exists|p: Seq<Seq<char>>| #[trigger] is_link_path(graph, v.seeds, p) && p.last() == x,
{
    let j = choose|j: int| 0 <= j < v.dispatched.len() && v.dispatched[j] == x;
    assert((v.dispatched + v.pending)[j] == x);
    assert(v.visited.contains(x));
    reveal(reached_by_links);
    let p = choose|p: Seq<Seq<char>>| #[trigger] is_link_path(v.succeeded, v.seeds, p) && p.last() == x;
    lemma_path_mono(v.succeeded, graph, v.seeds, p);
}

/// A crawl whose reachable URLs form a finite set `reach` makes at most
/// `reach.len()` fetches.
pub proof fn lemma_fetch_count_bounded<T>(
    v: EngineView<T>,
    graph: Map<Seq<char>, Seq<Seq<char>>>,
    reach: Set<Seq<char>>,
)
    requires
        v.inv(),
        forall|w: Seq<char>| #[trigger]
            v.succeeded.contains_key(w) ==> graph.contains_key(w) && graph[w] == v.succeeded[w],
        reach.finite(),
        forall|p: Seq<Seq<char>>| #[trigger] is_link_path(graph, v.seeds, p) ==> reach.contains(p.last()),
    ensures
        v.dispatched.len() <= reach.len(),
{
    lemma_fetched_at_most_once(v);
    assert forall|x: Seq<char>| #[trigger] v.dispatched.to_set().contains(x) implies reach.contains(x) by {
        lemma_fetched_only_reachable(v, graph, x);
    }
    v.dispatched.unique_seq_to_set();
    vstd::set_lib::lemma_len_subset(v.dispatched.to_set(), reach);
}

/// A fetch that reports only URLs seen before queues nothing and leaves the
/// visited set as it is.
pub proof fn lemma_seen_links_queue_nothing<T>(
    v: EngineView<T>,
    url: Seq<char>,
    items: Seq<T>,
    links: Seq<Seq<char>>,
)
    requires
        forall|i: int| 0 <= i < links.len() ==> v.visited.contains(#[trigger] links[i]),
    ensures
        v.fetch_succeeded(url, items, links).pending == v.pending,
        v.fetch_succeeded(url, items, links).visited == v.visited,
{
    if items.len() > 0 {
        return;
    }
    lemma_admitted_of_seen(v.visited, links);
    assert(v.pending + Seq::<Seq<char>>::empty() =~= v.pending);
    assert forall|x: Seq<char>| links.to_set().contains(x) implies v.visited.contains(x) by {
        assert(links.contains(x));
    }
    assert(v.visited.union(links.to_set()) =~= v.visited);
}

/// A worker reports its links only after its items are in the item queue: a
/// successful fetch that returned items leaves the frontier and the visited
/// set untouched and keeps the worker blocked, and a dispatch folds in only
/// the links of the workers it releases, oldest first, one per pause started.
pub proof fn lemma_items_before_links<T>(
    v: EngineView<T>,
    url: Seq<char>,
    items: Seq<T>,
    links: Seq<Seq<char>>,
    next: EngineView<T>,
    actions: Seq<Action<T>>,
)
    requires
        items.len() > 0,
        v.fetch_succeeded(url, items, links).steps_to(next, actions),
    ensures
        v.fetch_succeeded(url, items, links).visited == v.visited,
        v.fetch_succeeded(url, items, links).pending == v.pending,
        v.fetch_succeeded(url, items, links).blocked_urls == v.blocked_urls.push(url),
        v.fetch_succeeded(url, items, links).blocked == v.blocked.push(items),
        next.visited == absorbed(
            v.visited,
            v.fetch_succeeded(url, items, links).released_links(pause_count(actions)),
        ),
{
}

/// A failed fetch delivers no items and discovers no URLs.
pub proof fn lemma_failed_fetch_yields_nothing<T>(v: EngineView<T>, url: Seq<char>)
    ensures
        v.fetch_failed(url).accepted == v.accepted,
        v.fetch_failed(url).visited == v.visited,
        v.fetch_failed(url).pending == v.pending,
        v.fetch_failed(url).items == v.items,
        v.fetch_failed(url).blocked == v.blocked,
{
}

/// A quiescent crawl has lost no work: no scrape worker is in flight, the
/// frontier and the item queue are empty, no worker waits to deliver items,
/// and every item a fetch returned has been handed to processing, in order.
pub proof fn lemma_finished_lost_nothing<T>(v: EngineView<T>)
    requires
        v.inv(),
        v.finished(),
    ensures
        v.in_flight() == 0,
        v.pending.len() == 0,
        v.items.len() == 0,
        v.blocked.len() == 0,
        v.handed == v.accepted,
{
    assert(v.blocked =~= Seq::<Seq<T>>::empty());
    assert(v.accepted =~= v.handed);
}

/// The crawl cannot hang: when no fetch, pause or processing is outstanding,
/// the crawl is finished.
pub proof fn lemma_idle_is_finished<T>(v: EngineView<T>)
    requires
        v.inv(),
        v.in_progress.len() == 0,
        v.pausing == 0,
        v.processing == 0,
    ensures
        v.finished(),
{
}

/// Backpressure: the item queue never holds more than its capacity, and a
/// scrape worker is suspended on delivery only while the queue is full.
pub proof fn lemma_item_queue_bounded<T>(v: EngineView<T>)
    requires
        v.inv(),
    ensures
        v.items.len() <= v.item_capacity,
        v.blocked.len() > 0 ==> v.items.len() == v.item_capacity,
{
}

/// With one scrape worker, the report of a fetch never starts the next fetch:
/// the worker is released only when its pause ends, so every two fetches are
/// separated by a full politeness delay.
pub proof fn lemma_single_worker_pauses_between_fetches<T>(
    v: EngineView<T>,
    mid: EngineView<T>,
    next: EngineView<T>,
    actions: Seq<Action<T>>,
    url: Seq<char>,
)
    requires
        v.inv(),
        v.crawling_concurrency == 1,
        v.in_progress.contains(url),
        mid == v.fetch_failed(url) || exists|items: Seq<T>, links: Seq<Seq<char>>|
            mid == #[trigger] v.fetch_succeeded(url, items, links),
        mid.steps_to(next, actions),
        next.inv(),
    ensures
        fetched_urls(actions).len() == 0,
{
    assert(mid.in_progress.len() + 1 == v.in_progress.len());
    assert(mid.blocked.len() + mid.pausing >= 1);
    if fetched_urls(actions).len() > 0 {
        let f = fetched_urls(actions)[0];
        assert(fetched_urls(actions).to_set().contains(f));
        assert(next.in_progress.contains(f));
        vstd::set_lib::lemma_len_subset(set![f], next.in_progress);
        assert(set![f].len() == 1);
    }
}

} // verus!
