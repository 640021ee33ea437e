//! The coordinating state machine of a crawl.
//!
//! The engine owns the frontier, the item queue between the two stages and
//! the worker accounting. It never waits: the runtime that drives it performs
//! each returned [`Action`] and reports the outcome through the matching
//! `on_*` method, which returns the next actions. Every decision of the crawl
//! (what to fetch, which item to process, when a worker is released, when the
//! crawl is over) is made here.
use crate::config::Crawler;
use crate::frontier::{admitted, lemma_push_unique, views, Frontier};
use std::collections::VecDeque;
use vstd::prelude::*;

verus! {

broadcast use {
    vstd::seq_lib::lemma_seq_contains_after_push,
    vstd::seq_lib::lemma_seq_concat_contains_all_elements,
    Seq::lemma_push_to_set_commute,
};

/// Work that the runtime carries out for the engine.
pub enum Action<T> {
    /// Fetch this URL with the fetch capability, then report the outcome with
    /// `on_fetched`.
    Fetch(String),
    /// Hand this item to the processing capability, then call `on_processed`.
    Process(T),
    /// Let one scrape worker wait the politeness delay, then call `on_paused`.
    Pause,
}

/// The URLs that `actions` ask to fetch, in order.
pub open spec fn fetched_urls<T>(actions: Seq<Action<T>>) -> Seq<Seq<char>>
    decreases actions.len(),
{
    if actions.len() == 0 {
        Seq::empty()
    } else {
        let prev = fetched_urls(actions.drop_last());
        match actions.last() {
            Action::Fetch(u) => prev.push(u@),
            _ => prev,
        }
    }
}

/// The items that `actions` hand to processing, in order.
pub open spec fn processed_items<T>(actions: Seq<Action<T>>) -> Seq<T>
    decreases actions.len(),
{
    if actions.len() == 0 {
        Seq::empty()
    } else {
        let prev = processed_items(actions.drop_last());
        match actions.last() {
            Action::Process(x) => prev.push(x),
            _ => prev,
        }
    }
}

/// How many pauses `actions` start.
pub open spec fn pause_count<T>(actions: Seq<Action<T>>) -> nat
    decreases actions.len(),
{
    if actions.len() == 0 {
        0
    } else {
        let prev = pause_count(actions.drop_last());
        match actions.last() {
            Action::Pause => prev + 1,
            _ => prev,
        }
    }
}

/// `path` follows the links of `graph` from a start URL: it begins at one
/// of `seeds`, and each next URL is a link on the page before it, where
/// `graph[w]` are the links on the page at `w`.
pub open spec fn is_link_path(
    graph: Map<Seq<char>, Seq<Seq<char>>>,
    seeds: Seq<Seq<char>>,
    path: Seq<Seq<char>>,
) -> bool {
    &&& path.len() > 0
    &&& seeds.contains(path[0])
    &&& forall|i: int|
        0 <= i < path.len() - 1 ==> graph.contains_key(#[trigger] path[i]) && graph[path[i]].contains(
            path[i + 1],
        )
}

/// Every URL of `visited` is the end of a link path of `graph` from `seeds`.
#[verifier::opaque]
pub open spec fn reached_by_links(
    graph: Map<Seq<char>, Seq<Seq<char>>>,
    seeds: Seq<Seq<char>>,
    visited: Set<Seq<char>>,
) -> bool {
    forall|x: Seq<char>| #[trigger]
        visited.contains(x) ==> exists|p: Seq<Seq<char>>| #[trigger]
            is_link_path(graph, seeds, p) && p.last() == x
}

/// The visited set after the link lists `reports` are folded in, in order.
pub open spec fn absorbed(visited: Set<Seq<char>>, reports: Seq<Seq<Seq<char>>>) -> Set<Seq<char>>
    decreases reports.len(),
{
    if reports.len() == 0 {
        visited
    } else {
        absorbed(visited, reports.drop_last()).union(reports.last().to_set())
    }
}

/// The URLs queued when the link lists `reports` are folded in, in order.
pub open spec fn queued_from(visited: Set<Seq<char>>, reports: Seq<Seq<Seq<char>>>) -> Seq<
    Seq<char>,
>
    decreases reports.len(),
{
    if reports.len() == 0 {
        Seq::empty()
    } else {
        queued_from(visited, reports.drop_last()) + admitted(
            absorbed(visited, reports.drop_last()),
            reports.last(),
        )
    }
}

/// The abstract state of a crawl.
pub struct EngineView<T> {
    pub crawling_concurrency: nat,
    pub processing_concurrency: nat,
    /// Capacity of the item queue.
    pub item_capacity: nat,
    /// The start URLs.
    pub seeds: Seq<Seq<char>>,
    /// Every URL seen so far.
    pub visited: Set<Seq<char>>,
    /// URLs waiting to be fetched, oldest first.
    pub pending: Seq<Seq<char>>,
    /// URLs handed out for fetching, in order.
    pub dispatched: Seq<Seq<char>>,
    /// URLs whose fetch has not been reported yet.
    pub in_progress: Set<Seq<char>>,
    /// The item queue, oldest first.
    pub items: Seq<T>,
    /// Scrape workers suspended on a full item queue, each with the items it
    /// still has to deliver.
    pub blocked: Seq<Seq<T>>,
    /// The URL each blocked worker fetched, in the same order. Its links are
    /// reported only once all its items are in the queue.
    pub blocked_urls: Seq<Seq<char>>,
    /// Scrape workers in their politeness delay.
    pub pausing: nat,
    /// Items being processed.
    pub processing: nat,
    /// Every item a successful fetch returned, in order of arrival.
    pub accepted: Seq<T>,
    /// Every item handed to processing, in order.
    pub handed: Seq<T>,
    /// The links each successful fetch returned, recorded when the fetch
    /// reports and folded into the frontier once its items are all queued.
    pub succeeded: Map<Seq<char>, Seq<Seq<char>>>,
    /// URLs whose fetch failed.
    pub failed: Set<Seq<char>>,
}

impl<T> EngineView<T> {
    /// The in-flight counter: scrape workers between the start of a fetch and
    /// the end of the delay that follows it.
    pub open spec fn in_flight(self) -> nat {
        self.in_progress.len() + self.blocked.len() + self.pausing
    }

    /// Quiescence: nothing waits to be fetched, no scrape worker is active,
    /// the item queue is empty and no item is being processed.
    pub open spec fn finished(self) -> bool {
        &&& self.pending.len() == 0
        &&& self.in_flight() == 0
        &&& self.items.len() == 0
        &&& self.processing == 0
    }

    /// What holds of every state, between any two events.
    pub open spec fn inv_core(self) -> bool {
        &&& self.crawling_concurrency > 0
        &&& self.processing_concurrency > 0
        &&& self.item_capacity > 0
        &&& (self.dispatched + self.pending).no_duplicates()
        &&& self.visited == (self.dispatched + self.pending).to_set()
        &&& forall|s: Seq<char>| #[trigger] self.seeds.contains(s) ==> self.visited.contains(s)
        &&& self.in_progress.finite()
        &&& forall|u: Seq<char>| #[trigger]
            self.in_progress.contains(u) ==> {
                &&& self.dispatched.contains(u)
                &&& !self.succeeded.contains_key(u)
                &&& !self.failed.contains(u)
            }
        &&& forall|u: Seq<char>| #[trigger]
            self.dispatched.contains(u) ==> self.in_progress.contains(u)
                || self.succeeded.contains_key(u) || self.failed.contains(u)
        &&& forall|u: Seq<char>| #[trigger]
            self.succeeded.contains_key(u) ==> self.dispatched.contains(u)
        &&& forall|u: Seq<char>| #[trigger] self.failed.contains(u) ==> self.dispatched.contains(u)
        &&& forall|u: Seq<char>| #[trigger]
            self.failed.contains(u) ==> !self.succeeded.contains_key(u)
        &&& self.blocked_urls.len() == self.blocked.len()
        &&& self.blocked_urls.no_duplicates()
        &&& forall|u: Seq<char>| #[trigger]
            self.blocked_urls.contains(u) ==> self.succeeded.contains_key(u)
        &&& forall|u: Seq<char>, l: Seq<char>| #[trigger]
            self.succeeded.contains_key(u) && #[trigger] self.succeeded[u].contains(l)
                && !self.blocked_urls.contains(u) ==> self.visited.contains(l)
        &&& reached_by_links(self.succeeded, self.seeds, self.visited)
        &&& self.items.len() <= self.item_capacity
        &&& forall|i: int| 0 <= i < self.blocked.len() ==> #[trigger] self.blocked[i].len() > 0
        &&& self.in_flight() <= self.crawling_concurrency
        &&& self.processing <= self.processing_concurrency
        &&& self.accepted == self.handed + self.items + self.blocked.flatten()
    }

    /// Work is handed out as soon as there is room for it.
    pub open spec fn greedy(self) -> bool {
        &&& self.processing < self.processing_concurrency ==> self.items.len() == 0
        &&& self.items.len() < self.item_capacity ==> self.blocked.len() == 0
        &&& self.in_flight() < self.crawling_concurrency ==> self.pending.len() == 0
    }

    pub open spec fn inv(self) -> bool {
        self.inv_core() && self.greedy()
    }

    /// The link lists of the first `k` blocked workers, oldest first.
    pub open spec fn released_links(self, k: nat) -> Seq<Seq<Seq<char>>> {
        Seq::new(k, |i: int| self.succeeded[self.blocked_urls[i]])
    }

    /// `next` follows from `self` by handing out `actions`: fetches from the
    /// front of the frontier, items from the front of the item queue, and
    /// the release of each worker, oldest first, whose items have all entered
    /// the queue. A released worker reports its links to the frontier and
    /// starts its pause.
    pub open spec fn steps_to(self, next: Self, actions: Seq<Action<T>>) -> bool {
        let k = pause_count(actions);
        let reports = self.released_links(k);
        &&& next.crawling_concurrency == self.crawling_concurrency
        &&& next.processing_concurrency == self.processing_concurrency
        &&& next.item_capacity == self.item_capacity
        &&& next.seeds == self.seeds
        &&& next.accepted == self.accepted
        &&& next.succeeded == self.succeeded
        &&& next.failed == self.failed
        &&& k <= self.blocked_urls.len()
        &&& next.blocked_urls == self.blocked_urls.skip(k as int)
        &&& next.visited == absorbed(self.visited, reports)
        &&& self.pending + queued_from(self.visited, reports) == fetched_urls(actions) + next.pending
        &&& next.dispatched == self.dispatched + fetched_urls(actions)
        &&& next.in_progress == self.in_progress.union(fetched_urls(actions).to_set())
        &&& next.handed == self.handed + processed_items(actions)
        &&& next.processing == self.processing + processed_items(actions).len()
        &&& next.pausing == self.pausing + k
        &&& next.blocked.len() + next.pausing == self.blocked.len() + self.pausing
    }

    /// `next` is where `self` leads once all the work there is room for has
    /// been handed out by `actions`.
    pub open spec fn dispatches_to(self, next: Self, actions: Seq<Action<T>>) -> bool {
        self.steps_to(next, actions) && next.inv()
    }

    /// The fetch of `url` returned `items` and `links`. A worker with items
    /// waits to deliver them and reports its links afterwards; a worker with
    /// none reports its links at once and pauses.
    pub open spec fn fetch_succeeded(
        self,
        url: Seq<char>,
        items: Seq<T>,
        links: Seq<Seq<char>>,
    ) -> Self {
        if items.len() > 0 {
            EngineView {
                in_progress: self.in_progress.remove(url),
                blocked: self.blocked.push(items),
                blocked_urls: self.blocked_urls.push(url),
                accepted: self.accepted + items,
                succeeded: self.succeeded.insert(url, links),
                ..self
            }
        } else {
            EngineView {
                visited: self.visited.union(links.to_set()),
                pending: self.pending + admitted(self.visited, links),
                in_progress: self.in_progress.remove(url),
                pausing: self.pausing + 1,
                succeeded: self.succeeded.insert(url, links),
                ..self
            }
        }
    }

    /// The fetch of `url` failed: it yields no items and no links.
    pub open spec fn fetch_failed(self, url: Seq<char>) -> Self {
        EngineView {
            in_progress: self.in_progress.remove(url),
            pausing: self.pausing + 1,
            failed: self.failed.insert(url),
            ..self
        }
    }

    /// A scrape worker finished its delay and is released.
    pub open spec fn pause_ended(self) -> Self {
        EngineView { pausing: (self.pausing - 1) as nat, ..self }
    }

    /// A process worker finished an item.
    pub open spec fn item_done(self) -> Self {
        EngineView { processing: (self.processing - 1) as nat, ..self }
    }
}

/// The state of a crawl right after its start URLs were seeded.
pub open spec fn seeded<T>(
    crawling_concurrency: nat,
    processing_concurrency: nat,
    item_capacity: nat,
    seeds: Seq<Seq<char>>,
) -> EngineView<T> {
    EngineView {
        crawling_concurrency,
        processing_concurrency,
        item_capacity,
        seeds,
        visited: seeds.to_set(),
        pending: admitted(Set::empty(), seeds),
        dispatched: Seq::empty(),
        in_progress: Set::empty(),
        items: Seq::empty(),
        blocked: Seq::empty(),
        blocked_urls: Seq::empty(),
        pausing: 0,
        processing: 0,
        accepted: Seq::empty(),
        handed: Seq::empty(),
        succeeded: Map::empty(),
        failed: Set::empty(),
    }
}

/// The crawl's coordinating state machine over items of type `T`.
pub struct Engine<T> {
    crawling_concurrency: usize,
    processing_concurrency: usize,
    item_capacity: usize,
    frontier: Frontier,
    in_progress: Vec<String>,
    items: VecDeque<T>,
    blocked: VecDeque<Vec<T>>,
    /// For each blocked worker, the URL it fetched and the links it found.
    blocked_reports: VecDeque<(String, Vec<String>)>,
    pausing: usize,
    processing: usize,
    seeds: Ghost<Seq<Seq<char>>>,
    accepted: Ghost<Seq<T>>,
    handed: Ghost<Seq<T>>,
    succeeded: Ghost<Map<Seq<char>, Seq<Seq<char>>>>,
    failed: Ghost<Set<Seq<char>>>,
}

impl<T> View for Engine<T> {
    type V = EngineView<T>;

    closed spec fn view(&self) -> EngineView<T> {
        EngineView {
            crawling_concurrency: self.crawling_concurrency as nat,
            processing_concurrency: self.processing_concurrency as nat,
            item_capacity: self.item_capacity as nat,
            seeds: self.seeds@,
            visited: self.frontier.visited(),
            pending: self.frontier.pending(),
            dispatched: self.frontier.issued(),
            in_progress: views(self.in_progress@).to_set(),
            items: self.items@,
            blocked: self.blocked@.map_values(|b: Vec<T>| b@),
            blocked_urls: self.blocked_reports@.map_values(|r: (String, Vec<String>)| r.0@),
            pausing: self.pausing as nat,
            processing: self.processing as nat,
            accepted: self.accepted@,
            handed: self.handed@,
            succeeded: self.succeeded@,
            failed: self.failed@,
        }
    }
}

proof fn lemma_actions_push<T>(a: Seq<Action<T>>, x: Action<T>)
    ensures
        fetched_urls(a.push(x)) == match x {
            Action::Fetch(u) => fetched_urls(a).push(u@),
            _ => fetched_urls(a),
        },
        processed_items(a.push(x)) == match x {
            Action::Process(i) => processed_items(a).push(i),
            _ => processed_items(a),
        },
        pause_count(a.push(x)) == match x {
            Action::Pause => pause_count(a) + 1,
            _ => pause_count(a),
        },
{
    assert(a.push(x).drop_last() =~= a);
}

/// The invariant survives moves of items between the blocked workers, the
/// item queue and processing.
proof fn lemma_items_frame<T>(before: EngineView<T>, after: EngineView<T>)
    requires
        before.inv_core(),
        after.crawling_concurrency == before.crawling_concurrency,
        after.processing_concurrency == before.processing_concurrency,
        after.item_capacity == before.item_capacity,
        after.seeds == before.seeds,
        after.visited == before.visited,
        after.pending == before.pending,
        after.dispatched == before.dispatched,
        after.in_progress == before.in_progress,
        after.succeeded == before.succeeded,
        after.failed == before.failed,
        after.blocked_urls == before.blocked_urls,
        after.blocked.len() == before.blocked.len(),
        forall|i: int| 0 <= i < after.blocked.len() ==> #[trigger] after.blocked[i].len() > 0,
        after.items.len() <= after.item_capacity,
        after.in_flight() <= after.crawling_concurrency,
        after.processing <= after.processing_concurrency,
        after.accepted == after.handed + after.items + after.blocked.flatten(),
    ensures
        after.inv_core(),
{
}

/// The invariant survives handing out the oldest pending URL for fetching
/// while a scrape worker is free.
proof fn lemma_fetch_frame<T>(before: EngineView<T>, after: EngineView<T>, u: Seq<char>)
    requires
        before.inv_core(),
        before.in_flight() < before.crawling_concurrency,
        before.pending.len() > 0,
        u == before.pending[0],
        after.crawling_concurrency == before.crawling_concurrency,
        after.processing_concurrency == before.processing_concurrency,
        after.item_capacity == before.item_capacity,
        after.seeds == before.seeds,
        after.visited == before.visited,
        after.pending == before.pending.drop_first(),
        after.dispatched == before.dispatched.push(u),
        after.in_progress == before.in_progress.insert(u),
        after.succeeded == before.succeeded,
        after.failed == before.failed,
        after.items == before.items,
        after.blocked == before.blocked,
        after.blocked_urls == before.blocked_urls,
        after.pausing == before.pausing,
        after.processing == before.processing,
        after.accepted == before.accepted,
        after.handed == before.handed,
    ensures
        after.inv_core(),
{
    let all = before.dispatched + before.pending;
    assert(after.dispatched + after.pending =~= all);
    assert(all[before.dispatched.len() as int] == u);
    assert(!before.dispatched.contains(u)) by {
        if before.dispatched.contains(u) {
            let j = choose|j: int| 0 <= j < before.dispatched.len() && before.dispatched[j] == u;
            assert(all[j] == u);
        }
    }
    assert(!before.in_progress.contains(u));
    assert(after.in_progress.len() == before.in_progress.len() + 1);
    assert forall|x: Seq<char>| #[trigger] after.dispatched.contains(x) implies after.in_progress.contains(x)
        || after.succeeded.contains_key(x) || after.failed.contains(x) by {
        if x != u {
            assert(before.dispatched.contains(x));
        }
    }
}

proof fn lemma_concat_unique<A>(s: Seq<A>, t: Seq<A>)
    requires
        s.no_duplicates(),
        t.no_duplicates(),
        forall|x: A| #[trigger] t.contains(x) ==> !s.contains(x),
    ensures
        (s + t).no_duplicates(),
{
    assert forall|i: int, j: int| 0 <= i < (s + t).len() && 0 <= j < (s + t).len() && i != j implies (s
        + t)[i] != (s + t)[j] by {
        if i < s.len() && j >= s.len() {
            assert(t.contains(t[j - s.len()]));
            assert(s.contains(s[i]));
        } else if j < s.len() && i >= s.len() {
            assert(t.contains(t[i - s.len()]));
            assert(s.contains(s[j]));
        } else if i >= s.len() && j >= s.len() {
            assert(t[i - s.len()] != t[j - s.len()]);
        }
    }
}

/// A link path stays a link path when the graph only gains pages.
pub proof fn lemma_path_mono(
    g: Map<Seq<char>, Seq<Seq<char>>>,
    g2: Map<Seq<char>, Seq<Seq<char>>>,
    seeds: Seq<Seq<char>>,
    p: Seq<Seq<char>>,
)
    requires
        is_link_path(g, seeds, p),
        forall|k: Seq<char>| #[trigger] g.contains_key(k) ==> g2.contains_key(k) && g2[k] == g[k],
    ensures
        is_link_path(g2, seeds, p),
{
    assert forall|i: int| 0 <= i < p.len() - 1 implies g2.contains_key(#[trigger] p[i])
        && g2[p[i]].contains(p[i + 1]) by {
        assert(g.contains_key(p[i]));
    }
}

/// Every seen URL still has a link path after the graph gains pages.
proof fn lemma_paths_mono(
    g: Map<Seq<char>, Seq<Seq<char>>>,
    g2: Map<Seq<char>, Seq<Seq<char>>>,
    seeds: Seq<Seq<char>>,
    visited: Set<Seq<char>>,
)
    requires
        reached_by_links(g, seeds, visited),
        forall|k: Seq<char>| #[trigger] g.contains_key(k) ==> g2.contains_key(k) && g2[k] == g[k],
    ensures
        reached_by_links(g2, seeds, visited),
{
    reveal(reached_by_links);
    assert forall|x: Seq<char>| #[trigger] visited.contains(x) implies exists|p: Seq<Seq<char>>|
        #[trigger] is_link_path(g2, seeds, p) && p.last() == x by {
        let p = choose|p: Seq<Seq<char>>| #[trigger] is_link_path(g, seeds, p) && p.last() == x;
        lemma_path_mono(g, g2, seeds, p);
    }
}

/// Folding the links of a reached page into the visited set keeps every
/// seen URL reached by a link path.
proof fn lemma_paths_fold(
    g: Map<Seq<char>, Seq<Seq<char>>>,
    seeds: Seq<Seq<char>>,
    visited: Set<Seq<char>>,
    url: Seq<char>,
)
    requires
        reached_by_links(g, seeds, visited),
        visited.contains(url),
        g.contains_key(url),
    ensures
        reached_by_links(g, seeds, visited.union(g[url].to_set())),
{
    reveal(reached_by_links);
    assert forall|x: Seq<char>| #[trigger] visited.union(g[url].to_set()).contains(x) implies exists|
        p: Seq<Seq<char>>,
    | #[trigger] is_link_path(g, seeds, p) && p.last() == x by {
        if !visited.contains(x) {
            assert(g[url].contains(x));
            let p = choose|p: Seq<Seq<char>>| #[trigger] is_link_path(g, seeds, p) && p.last() == url;
            let q = p.push(x);
            assert forall|i: int| 0 <= i < q.len() - 1 implies g.contains_key(#[trigger] q[i])
                && g[q[i]].contains(q[i + 1]) by {
                if i < p.len() - 1 {
                    assert(q[i] == p[i] && q[i + 1] == p[i + 1]);
                }
            }
            assert(is_link_path(g, seeds, q) && q.last() == x);
        }
    }
}

/// Folding links into the frontier keeps it free of duplicates and equal, as
/// a set, to what has been seen.
proof fn lemma_fold_links(
    d: Seq<Seq<char>>,
    p: Seq<Seq<char>>,
    visited: Set<Seq<char>>,
    links: Seq<Seq<char>>,
)
    requires
        (d + p).no_duplicates(),
        visited == (d + p).to_set(),
    ensures
        (d + (p + admitted(visited, links))).no_duplicates(),
        visited.union(links.to_set()) == (d + (p + admitted(visited, links))).to_set(),
{
    let adm = admitted(visited, links);
    crate::frontier::lemma_admitted_fresh(visited, links);
    assert forall|x: Seq<char>| #[trigger] adm.contains(x) implies !(d + p).contains(x) by {
        assert(!visited.contains(x));
    }
    lemma_concat_unique(d + p, adm);
    assert(d + (p + adm) =~= (d + p) + adm);
    assert forall|x: Seq<char>| visited.union(links.to_set()).contains(x) <==> (d + (p
        + adm)).to_set().contains(x) by {
        crate::frontier::lemma_admitted_contains(visited, links, x);
        assert(links.to_set().contains(x) <==> links.contains(x));
    }
    assert(visited.union(links.to_set()) =~= (d + (p + adm)).to_set());
}

/// The invariant survives a successful fetch report for a URL in progress.
proof fn lemma_fetch_succeeded_inv<T>(
    v: EngineView<T>,
    url: Seq<char>,
    items: Seq<T>,
    links: Seq<Seq<char>>,
)
    requires
        v.inv_core(),
        v.in_progress.contains(url),
    ensures
        v.fetch_succeeded(url, items, links).inv_core(),
{
    let w = v.fetch_succeeded(url, items, links);
    assert(!v.succeeded.contains_key(url));
    assert(w.succeeded == v.succeeded.insert(url, links));
    lemma_paths_mono(v.succeeded, w.succeeded, v.seeds, v.visited);
    assert(w.in_progress.len() + 1 == v.in_progress.len());
    assert(v.visited.contains(url));
    if items.len() > 0 {
        v.blocked.lemma_flatten_push(items);
        assert(w.accepted =~= w.handed + w.items + w.blocked.flatten());
        assert forall|i: int| 0 <= i < w.blocked.len() implies #[trigger] w.blocked[i].len() > 0 by {
            if i < v.blocked.len() {
                assert(w.blocked[i] == v.blocked[i]);
            }
        }
        assert(!v.blocked_urls.contains(url));
        lemma_push_unique(v.blocked_urls, url);
        assert forall|u: Seq<char>, l: Seq<char>| #[trigger]
            w.succeeded.contains_key(u) && #[trigger] w.succeeded[u].contains(l)
                && !w.blocked_urls.contains(u) implies w.visited.contains(l) by {
            assert(u != url);
            assert(v.succeeded[u].contains(l));
        }
    } else {
        lemma_fold_links(v.dispatched, v.pending, v.visited, links);
        assert(w.dispatched + w.pending == v.dispatched + (v.pending + admitted(v.visited, links)));
        lemma_paths_fold(w.succeeded, w.seeds, v.visited, url);
        assert(w.accepted =~= w.handed + w.items + w.blocked.flatten());
        assert forall|u: Seq<char>, l: Seq<char>| #[trigger]
            w.succeeded.contains_key(u) && #[trigger] w.succeeded[u].contains(l)
                && !w.blocked_urls.contains(u) implies w.visited.contains(l) by {
            if u == url {
                assert(links.to_set().contains(l));
            } else {
                assert(v.succeeded[u].contains(l));
            }
        }
    }
    assert forall|x: Seq<char>| #[trigger] w.dispatched.contains(x) implies w.in_progress.contains(x)
        || w.succeeded.contains_key(x) || w.failed.contains(x) by {
        if x != url {
            assert(v.in_progress.contains(x) || v.succeeded.contains_key(x) || v.failed.contains(x));
        }
    }
}

/// The invariant survives a failed fetch report for a URL in progress.
proof fn lemma_fetch_failed_inv<T>(v: EngineView<T>, url: Seq<char>)
    requires
        v.inv_core(),
        v.in_progress.contains(url),
    ensures
        v.fetch_failed(url).inv_core(),
{
    let w = v.fetch_failed(url);
    assert(w.in_progress.len() + 1 == v.in_progress.len());
    assert forall|x: Seq<char>| #[trigger] w.dispatched.contains(x) implies w.in_progress.contains(x)
        || w.succeeded.contains_key(x) || w.failed.contains(x) by {
        if x != url {
            assert(v.in_progress.contains(x) || v.succeeded.contains_key(x) || v.failed.contains(x));
        }
    }
}

/// The invariant survives releasing the oldest blocked worker: its last item
/// enters the queue, its links are folded into the frontier and it pauses.
proof fn lemma_release_inv<T>(before: EngineView<T>, after: EngineView<T>, item: T)
    requires
        before.inv_core(),
        before.blocked.len() > 0,
        before.blocked[0] == seq![item],
        before.items.len() < before.item_capacity,
        after.crawling_concurrency == before.crawling_concurrency,
        after.processing_concurrency == before.processing_concurrency,
        after.item_capacity == before.item_capacity,
        after.seeds == before.seeds,
        after.visited == before.visited.union(before.succeeded[before.blocked_urls[0]].to_set()),
        after.pending == before.pending + admitted(
            before.visited,
            before.succeeded[before.blocked_urls[0]],
        ),
        after.dispatched == before.dispatched,
        after.in_progress == before.in_progress,
        after.items == before.items.push(item),
        after.blocked == before.blocked.drop_first(),
        after.blocked_urls == before.blocked_urls.drop_first(),
        after.pausing == before.pausing + 1,
        after.processing == before.processing,
        after.accepted == before.accepted,
        after.handed == before.handed,
        after.succeeded == before.succeeded,
        after.failed == before.failed,
    ensures
        after.inv_core(),
{
    let u = before.blocked_urls[0];
    let links = before.succeeded[u];
    assert(before.blocked_urls.contains(u));
    assert(before.dispatched.contains(u));
    assert(before.visited.contains(u)) by {
        assert((before.dispatched + before.pending).contains(u)) by {
            let j = choose|j: int| 0 <= j < before.dispatched.len() && before.dispatched[j] == u;
            assert((before.dispatched + before.pending)[j] == u);
        }
    }
    lemma_fold_links(before.dispatched, before.pending, before.visited, links);
    assert(after.dispatched + after.pending == before.dispatched + (before.pending + admitted(
        before.visited,
        links,
    )));
    lemma_paths_fold(before.succeeded, before.seeds, before.visited, u);
    assert(before.blocked.flatten() == before.blocked[0] + before.blocked.drop_first().flatten());
    assert(after.accepted =~= after.handed + after.items + after.blocked.flatten());
    assert forall|i: int| 0 <= i < after.blocked.len() implies #[trigger] after.blocked[i].len() > 0 by {
        assert(after.blocked[i] == before.blocked[i + 1]);
    }
    assert(after.blocked_urls.no_duplicates()) by {
        assert forall|i: int, j: int|
            0 <= i < after.blocked_urls.len() && 0 <= j < after.blocked_urls.len() && i != j implies after.blocked_urls[i]
            != after.blocked_urls[j] by {
            assert(before.blocked_urls[i + 1] != before.blocked_urls[j + 1]);
        }
    }
    assert forall|w: Seq<char>| #[trigger] after.blocked_urls.contains(w) implies after.succeeded.contains_key(w) by {
        let j = choose|j: int| 0 <= j < after.blocked_urls.len() && after.blocked_urls[j] == w;
        assert(before.blocked_urls[j + 1] == w);
        assert(before.blocked_urls.contains(w));
    }
    assert forall|w: Seq<char>, l: Seq<char>| #[trigger]
        after.succeeded.contains_key(w) && #[trigger] after.succeeded[w].contains(l)
            && !after.blocked_urls.contains(w) implies after.visited.contains(l) by {
        if w == u {
            assert(links.to_set().contains(l));
        } else {
            if before.blocked_urls.contains(w) {
                let j = choose|j: int| 0 <= j < before.blocked_urls.len() && before.blocked_urls[j] == w;
                assert(j != 0);
                assert(after.blocked_urls[j - 1] == w);
            }
        }
    }
}

proof fn lemma_remove_to_set<A>(s: Seq<A>, i: int)
    requires
        s.no_duplicates(),
        0 <= i < s.len(),
    ensures
        s.remove(i).to_set() == s.to_set().remove(s[i]),
        s.remove(i).no_duplicates(),
{
    assert forall|x: A| s.remove(i).to_set().contains(x) <==> s.to_set().remove(s[i]).contains(
        x,
    ) by {
        if s.remove(i).contains(x) {
            let j = choose|j: int| 0 <= j < s.remove(i).len() && s.remove(i)[j] == x;
            if j < i {
                assert(s[j] == x);
            } else {
                assert(s[j + 1] == x);
            }
        }
        if s.contains(x) && x != s[i] {
            let j = choose|j: int| 0 <= j < s.len() && s[j] == x;
            if j < i {
                assert(s.remove(i)[j] == x);
            } else {
                assert(s.remove(i)[j - 1] == x);
            }
        }
    }
    assert(s.remove(i).to_set() =~= s.to_set().remove(s[i]));
}

/// Where `url` stands in `v`, if anywhere.
fn position(v: &Vec<String>, url: &String) -> (r: Option<usize>)
    ensures
        match r {
            Some(i) => i < v@.len() && v@[i as int]@ == url@,
            None => forall|j: int| 0 <= j < v@.len() ==> v@[j]@ != url@,
        },
{
    let mut i: usize = 0;
    while i < v.len()
        invariant
            i <= v@.len(),
            forall|j: int| 0 <= j < i ==> v@[j]@ != url@,
        decreases v@.len() - i,
    {
        if v[i] == *url {
            return Some(i);
        }
        i = i + 1;
    }
    None
}

impl<T> Engine<T> {
    /// Internal consistency, with the abstract invariant save greediness.
    pub closed spec fn wf_core(&self) -> bool {
        &&& self.frontier.wf()
        &&& self.frontier.exact()
        &&& views(self.in_progress@).no_duplicates()
        &&& forall|i: int|
            0 <= i < self.blocked_reports@.len() ==> views(#[trigger] self.blocked_reports@[i].1@)
                == self.succeeded@[self.blocked_reports@[i].0@]
        &&& self@.inv_core()
    }

    /// The invariant of every engine between events.
    pub closed spec fn wf(&self) -> bool {
        self.wf_core() && self@.greedy()
    }

    /// A well-formed engine's abstract state satisfies the invariant, which is
    /// what the guarantees of a crawl are proved from.
    pub proof fn lemma_wf(&self)
        requires
            self.wf(),
        ensures
            self@.inv(),
    {
    }

    proof fn lemma_in_flight_len(&self)
        requires
            views(self.in_progress@).no_duplicates(),
        ensures
            self@.in_progress.len() == self.in_progress@.len(),
            self@.in_progress.finite(),
    {
        views(self.in_progress@).unique_seq_to_set();
    }

    /// Starts a crawl of `seeds` under the limits of `crawler`: the start URLs
    /// are marked seen and queued, once each, in order, and the first fetches
    /// are handed out.
    pub fn start(crawler: &Crawler, seeds: &Vec<String>) -> (r: (Engine<T>, Vec<Action<T>>))
        requires
            crawler.wf(),
        ensures
            r.0.wf(),
            seeded::<T>(
                crawler.spec_crawling_concurrency(),
                crawler.spec_processing_concurrency(),
                (crawler.spec_processing_concurrency() * crate::config::ITEM_SLOTS_PER_WORKER) as nat,
                views(seeds@),
            ).dispatches_to(r.0@, r.1@),
    {
        proof {
            crawler.lemma_wf();
        }
        let mut frontier = Frontier::new();
        frontier.seed(seeds);
        let mut e = Engine {
            crawling_concurrency: crawler.crawling_concurrency(),
            processing_concurrency: crawler.processing_concurrency(),
            item_capacity: crawler.processing_queue_capacity(),
            frontier,
            in_progress: Vec::new(),
            items: VecDeque::new(),
            blocked: VecDeque::new(),
            blocked_reports: VecDeque::new(),
            pausing: 0,
            processing: 0,
            seeds: Ghost(views(seeds@)),
            accepted: Ghost(Seq::empty()),
            handed: Ghost(Seq::empty()),
            succeeded: Ghost(Map::empty()),
            failed: Ghost(Set::empty()),
        };
        proof {
            let goal = seeded::<T>(
                crawler.spec_crawling_concurrency(),
                crawler.spec_processing_concurrency(),
                (crawler.spec_processing_concurrency() * crate::config::ITEM_SLOTS_PER_WORKER) as nat,
                views(seeds@),
            );
            e.frontier.lemma_wf();
            assert(views(e.in_progress@) =~= Seq::<Seq<char>>::empty());
            assert(e@.in_progress =~= Set::<Seq<char>>::empty());
            assert(e@.blocked =~= Seq::<Seq<T>>::empty());
            assert(e@.blocked_urls =~= Seq::<Seq<char>>::empty());
            reveal(reached_by_links);
            assert forall|x: Seq<char>| #[trigger] e@.visited.contains(x) implies exists|p: Seq<Seq<char>>|
                #[trigger] is_link_path(e@.succeeded, e@.seeds, p) && p.last() == x by {
                assert(views(seeds@).contains(x));
                assert(is_link_path(e@.succeeded, e@.seeds, seq![x]));
            }
            assert(e@.items =~= Seq::<T>::empty());
            assert(e@.visited =~= views(seeds@).to_set());
            assert(e@.dispatched + e@.pending =~= e@.pending);
            assert(e@.accepted =~= e@.handed + e@.items + e@.blocked.flatten());
            assert(forall|s: Seq<char>| #[trigger] views(seeds@).contains(s) ==> views(seeds@).to_set().contains(s));
            assert(e@ == goal);
        }
        let actions = e.dispatch(Vec::new());
        assert(actions@.skip(0) =~= actions@);
        (e, actions)
    }

    /// Reports the outcome of the fetch of `url`. A successful fetch hands
    /// its items to the item queue, the worker staying suspended while the
    /// queue is full, and only then its links to the frontier; a failed one
    /// yields nothing. Either way the worker then pauses. A report for a URL that is
    /// not being fetched changes nothing.
    pub fn on_fetched<E>(&mut self, url: String, outcome: Result<(Vec<T>, Vec<String>), E>) -> (r:
        Vec<Action<T>>)
        requires
            old(self).wf(),
        ensures
            final(self).wf(),
            !old(self)@.in_progress.contains(url@) ==> final(self)@ == old(self)@ && r@.len() == 0,
            old(self)@.in_progress.contains(url@) ==> match outcome {
                Ok((items, links)) => if items@.len() > 0 {
                    old(self)@.fetch_succeeded(url@, items@, views(links@)).dispatches_to(
                        final(self)@,
                        r@,
                    )
                } else {
                    &&& r@.len() > 0
                    &&& r@[0] is Pause
                    &&& old(self)@.fetch_succeeded(url@, items@, views(links@)).dispatches_to(
                        final(self)@,
                        r@.drop_first(),
                    )
                },
                Err(_) => {
                    &&& r@.len() > 0
                    &&& r@[0] is Pause
                    &&& old(self)@.fetch_failed(url@).dispatches_to(final(self)@, r@.drop_first())
                },
            },
    {
        let i = match position(&self.in_progress, &url) {
            None => {
                proof {
                    if old(self)@.in_progress.contains(url@) {
                        let j = choose|j: int| 0 <= j < views(self.in_progress@).len() && views(self.in_progress@)[j] == url@;
                        assert(self.in_progress@[j]@ == url@);
                    }
                }
                return Vec::new();
            },
            Some(i) => i,
        };
        proof {
            assert(views(self.in_progress@)[i as int] == url@);
            assert(views(self.in_progress@).contains(url@));
            self.lemma_in_flight_len();
            self.frontier.lemma_wf();
            lemma_remove_to_set(views(self.in_progress@), i as int);
        }
        let ghost v = self@;
        let ghost before = self.in_progress@;
        self.in_progress.remove(i);
        assert(views(self.in_progress@) =~= views(before).remove(i as int));
        let prefix = match outcome {
            Ok((items, links)) => {
                let ghost w = v.fetch_succeeded(url@, items@, views(links@));
                proof {
                    lemma_fetch_succeeded_inv(v, url@, items@, views(links@));
                    assert(v.visited.insert(url@) =~= v.visited);
                }
                proof {
                    assert forall|j: int| 0 <= j < self.blocked_reports@.len() implies #[trigger] self.blocked_reports@[j].0@ != url@ by {
                        assert(v.blocked_urls[j] == self.blocked_reports@[j].0@);
                        assert(v.blocked_urls.contains(v.blocked_urls[j]));
                    }
                }
                if items.len() > 0 {
                    proof {
                        self.succeeded@ = self.succeeded@.insert(url@, views(links@));
                        self.accepted@ = self.accepted@ + items@;
                    }
                    self.blocked.push_back(items);
                    let ghost rb = self.blocked_reports@;
                    self.blocked_reports.push_back((url, links));
                    proof {
                        assert(self@.blocked =~= w.blocked);
                        assert(self@.blocked_urls =~= w.blocked_urls);
                        assert(self@ == w);
                        assert forall|j: int| 0 <= j < self.blocked_reports@.len() implies views(#[trigger] self.blocked_reports@[j].1@)
                            == self.succeeded@[self.blocked_reports@[j].0@] by {
                            if j < rb.len() {
                                assert(self.blocked_reports@[j] == rb[j]);
                            }
                        }
                    }
                    Vec::new()
                } else {
                    self.frontier.report_discovered(&url, &links);
                    proof {
                        self.succeeded@ = self.succeeded@.insert(url@, views(links@));
                    }
                    self.pausing = self.pausing + 1;
                    proof {
                        assert(self@ == w);
                    }
                    vec![Action::Pause]
                }
            },
            Err(_) => {
                proof {
                    lemma_fetch_failed_inv(v, url@);
                    self.failed@ = self.failed@.insert(url@);
                }
                self.pausing = self.pausing + 1;
                assert(self@ == v.fetch_failed(url@));
                vec![Action::Pause]
            },
        };
        let ghost n = prefix@.len();
        let r = self.dispatch(prefix);
        proof {
            if n == 0 {
                assert(r@.skip(0) =~= r@);
            } else {
                assert(r@.skip(1) =~= r@.drop_first());
                assert(r@[0] == r@.subrange(0, 1)[0]);
            }
        }
        r
    }

    /// Reports that a scrape worker finished its delay; it is released. A
    /// report with no worker pausing changes nothing.
    pub fn on_paused(&mut self) -> (r: Vec<Action<T>>)
        requires
            old(self).wf(),
        ensures
            final(self).wf(),
            old(self)@.pausing == 0 ==> final(self)@ == old(self)@ && r@.len() == 0,
            old(self)@.pausing > 0 ==> old(self)@.pause_ended().dispatches_to(final(self)@, r@),
    {
        if self.pausing == 0 {
            return Vec::new();
        }
        let ghost v = self@;
        self.pausing = self.pausing - 1;
        proof {
            lemma_items_frame(v, self@);
            assert(self@ == v.pause_ended());
        }
        let r = self.dispatch(Vec::new());
        assert(r@.skip(0) =~= r@);
        r
    }

    /// Reports that processing of one item finished. A report with no item
    /// being processed changes nothing.
    pub fn on_processed(&mut self) -> (r: Vec<Action<T>>)
        requires
            old(self).wf(),
        ensures
            final(self).wf(),
            old(self)@.processing == 0 ==> final(self)@ == old(self)@ && r@.len() == 0,
            old(self)@.processing > 0 ==> old(self)@.item_done().dispatches_to(final(self)@, r@),
    {
        if self.processing == 0 {
            return Vec::new();
        }
        let ghost v = self@;
        self.processing = self.processing - 1;
        proof {
            lemma_items_frame(v, self@);
            assert(self@ == v.item_done());
        }
        let r = self.dispatch(Vec::new());
        assert(r@.skip(0) =~= r@);
        r
    }

    /// Whether the crawl is quiescent and may end.
    pub fn is_finished(&self) -> (r: bool)
        requires
            self.wf(),
        ensures
            r == self@.finished(),
    {
        proof {
            self.lemma_in_flight_len();
        }
        self.frontier.pending_len() == 0 && self.in_progress.len() == 0 && self.blocked.len() == 0
            && self.pausing == 0 && self.items.len() == 0 && self.processing == 0
    }

    /// The in-flight counter.
    pub fn in_flight(&self) -> (r: usize)
        requires
            self.wf(),
        ensures
            r == self@.in_flight(),
    {
        proof {
            self.lemma_in_flight_len();
        }
        self.in_progress.len() + self.blocked.len() + self.pausing
    }

    /// Number of items waiting in the item queue.
    pub fn queued_items(&self) -> (r: usize)
        ensures
            r == self@.items.len(),
    {
        self.items.len()
    }

    /// Number of distinct URLs seen so far.
    pub fn visited_count(&self) -> (r: usize)
        requires
            self.wf(),
        ensures
            r == self@.visited.len(),
    {
        self.frontier.visited_len()
    }

    /// Hands out all the work there is room for, after the actions of `prefix`.
    fn dispatch(&mut self, prefix: Vec<Action<T>>) -> (r: Vec<Action<T>>)
        requires
            old(self).wf_core(),
        ensures
            final(self).wf(),
            r@.len() >= prefix@.len(),
            r@.subrange(0, prefix@.len() as int) == prefix@,
            old(self)@.dispatches_to(final(self)@, r@.skip(prefix@.len() as int)),
    {
        let ghost start = prefix@;
        let ghost n0 = prefix@.len() as int;
        let mut actions = prefix;
        assert(actions@.skip(n0) =~= Seq::<Action<T>>::empty());
        assert(actions@.subrange(0, n0) =~= start);
        proof {
            let e = Seq::<Action<T>>::empty();
            assert(fetched_urls(e) =~= Seq::<Seq<char>>::empty());
            assert(processed_items(e) =~= Seq::<T>::empty());
            assert(self@.pending =~= fetched_urls(e) + self@.pending);
            assert(self@.dispatched =~= self@.dispatched + fetched_urls(e));
            assert(self@.in_progress =~= self@.in_progress.union(fetched_urls(e).to_set()));
            assert(self@.handed =~= self@.handed + processed_items(e));
            assert(self@.released_links(0) =~= Seq::<Seq<Seq<char>>>::empty());
            assert(self@.blocked_urls.skip(0) =~= self@.blocked_urls);
            assert(self@.pending + queued_from(self@.visited, self@.released_links(0)) =~= self@.pending);
        }
        loop
            invariant
                self.wf_core(),
                n0 == start.len(),
                actions@.len() >= n0,
                actions@.subrange(0, n0) == start,
                old(self)@.steps_to(self@, actions@.skip(n0)),
            ensures
                self.wf_core(),
                n0 == start.len(),
                actions@.len() >= n0,
                actions@.subrange(0, n0) == start,
                old(self)@.steps_to(self@, actions@.skip(n0)),
                self@.processing < self@.processing_concurrency ==> self@.items.len() == 0,
                self@.items.len() < self@.item_capacity ==> self@.blocked.len() == 0,
            decreases 2 * (self.processing_concurrency - self.processing) + (self.item_capacity
                - self.items@.len()),
        {
            let ghost before = self@;
            let ghost a = actions@.skip(n0);
            if self.processing < self.processing_concurrency && self.items.len() > 0 {
                let item = self.items.pop_front().unwrap();
                proof {
                    self.handed@ = self.handed@.push(item);
                }
                self.processing = self.processing + 1;
                actions.push(Action::Process(item));
                proof {
                    assert(actions@.skip(n0) =~= a.push(Action::Process(item)));
                    lemma_actions_push(a, Action::Process(item));
                    assert(before.items =~= seq![item] + self@.items);
                    assert(self@.handed + self@.items =~= before.handed + before.items);
                    assert(actions@.subrange(0, n0) =~= start);
                    lemma_items_frame(before, self@);
                }
            } else if self.items.len() < self.item_capacity && self.blocked.len() > 0 {
                let mut batch = self.blocked.pop_front().unwrap();
                let ghost rest = before.blocked.drop_first();
                assert(self@.blocked =~= rest);
                assert(before.blocked[0] == batch@);
                let item = batch.remove(0);
                self.items.push_back(item);
                assert(before.blocked.flatten() == before.blocked[0] + rest.flatten());
                if batch.len() > 0 {
                    self.blocked.push_front(batch);
                    proof {
                        assert(self@.blocked =~= seq![batch@] + rest);
                        assert((seq![batch@] + rest).drop_first() =~= rest);
                        assert(self@.blocked.flatten() == batch@ + rest.flatten());
                        assert(self@.accepted =~= self@.handed + self@.items + self@.blocked.flatten());
                        assert forall|i: int| 0 <= i < self@.blocked.len() implies #[trigger] self@.blocked[i].len() > 0 by {
                            if i > 0 {
                                assert(self@.blocked[i] == before.blocked[i]);
                            }
                        }
                        lemma_items_frame(before, self@);
                    }
                } else {
                    let ghost k = pause_count(a);
                    let ghost rb = self.blocked_reports@;
                    let report = self.blocked_reports.pop_front().unwrap();
                    proof {
                        assert(before.blocked_urls[0] == report.0@);
                        assert(views(report.1@) == before.succeeded[report.0@]);
                        assert(before.blocked_urls.contains(report.0@));
                        assert(before.visited.contains(report.0@)) by {
                            let j = choose|j: int| 0 <= j < before.dispatched.len() && before.dispatched[j] == report.0@;
                            assert((before.dispatched + before.pending)[j] == report.0@);
                        }
                        assert(before.visited.insert(report.0@) =~= before.visited);
                    }
                    self.frontier.report_discovered(&report.0, &report.1);
                    self.pausing = self.pausing + 1;
                    actions.push(Action::Pause);
                    proof {
                        assert(actions@.skip(n0) =~= a.push(Action::Pause));
                        lemma_actions_push(a, Action::Pause);
                        assert(actions@.subrange(0, n0) =~= start);
                        assert(batch@ =~= Seq::<T>::empty());
                        assert(before.blocked[0] =~= seq![item]);
                        assert(self@.blocked =~= before.blocked.drop_first());
                        assert(self@.blocked_urls =~= before.blocked_urls.drop_first());
                        lemma_release_inv(before, self@, item);
                        assert forall|j: int| 0 <= j < self.blocked_reports@.len() implies views(#[trigger] self.blocked_reports@[j].1@)
                            == self.succeeded@[self.blocked_reports@[j].0@] by {
                            assert(self.blocked_reports@[j] == rb[j + 1]);
                        }
                        // the released worker's links extend the fold
                        let o = old(self)@;
                        assert(before.blocked_urls =~= o.blocked_urls.skip(k as int));
                        assert(o.blocked_urls[k as int] == report.0@);
                        assert(o.released_links(k + 1) =~= o.released_links(k).push(views(report.1@)));
                        assert(o.released_links(k + 1).drop_last() =~= o.released_links(k));
                        assert(self@.blocked_urls =~= o.blocked_urls.skip(k + 1 as int));
                        assert(self@.visited == absorbed(o.visited, o.released_links(k + 1)));
                        assert(self@.pending == before.pending + admitted(before.visited, views(report.1@)));
                        let r0 = o.released_links(k);
                        let r1 = o.released_links(k + 1);
                        assert(r1.last() == views(report.1@));
                        assert(absorbed(o.visited, r0) == before.visited);
                        assert(queued_from(o.visited, r1) == queued_from(o.visited, r0) + admitted(
                            before.visited,
                            views(report.1@),
                        ));
                        assert(o.pending + queued_from(o.visited, r0) == fetched_urls(a) + before.pending);
                        assert(fetched_urls(actions@.skip(n0)) == fetched_urls(a));
                        let q0 = queued_from(o.visited, r0);
                        let adm = admitted(before.visited, views(report.1@));
                        assert(o.pending + (q0 + adm) =~= (o.pending + q0) + adm);
                        assert((fetched_urls(a) + before.pending) + adm =~= fetched_urls(a) + (before.pending + adm));
                        assert(o.pending + queued_from(o.visited, o.released_links(k + 1)) =~= fetched_urls(
                            actions@.skip(n0),
                        ) + self@.pending);
                    }
                }
            } else {
                break;
            }
        }
        loop
            invariant
                self.wf_core(),
                n0 == start.len(),
                actions@.len() >= n0,
                actions@.subrange(0, n0) == start,
                old(self)@.steps_to(self@, actions@.skip(n0)),
                self@.processing < self@.processing_concurrency ==> self@.items.len() == 0,
                self@.items.len() < self@.item_capacity ==> self@.blocked.len() == 0,
            ensures
                self.wf_core(),
                n0 == start.len(),
                actions@.len() >= n0,
                actions@.subrange(0, n0) == start,
                old(self)@.steps_to(self@, actions@.skip(n0)),
                self@.processing < self@.processing_concurrency ==> self@.items.len() == 0,
                self@.items.len() < self@.item_capacity ==> self@.blocked.len() == 0,
                self@.in_flight() < self@.crawling_concurrency ==> self@.pending.len() == 0,
            decreases self@.pending.len(),
        {
            let ghost before = self@;
            let ghost a = actions@.skip(n0);
            proof {
                self.lemma_in_flight_len();
            }
            if self.in_progress.len() + self.blocked.len() + self.pausing >= self.crawling_concurrency {
                break;
            }
            match self.frontier.pop() {
                None => {
                    break;
                },
                Some(url) => {
                    proof {
                        self.frontier.lemma_wf();
                        assert(before.dispatched + before.pending =~= self@.dispatched + self@.pending);
                        if before.in_progress.contains(url@) {
                            let j = choose|j: int| 0 <= j < before.dispatched.len() && before.dispatched[j] == url@;
                            assert((before.dispatched + before.pending)[j] == url@);
                            assert((before.dispatched + before.pending)[before.dispatched.len() as int] == url@);
                        }
                        assert(!views(self.in_progress@).contains(url@));
                        lemma_push_unique(views(self.in_progress@), url@);
                        if before.succeeded.contains_key(url@) || before.failed.contains(url@) {
                            let j = choose|j: int| 0 <= j < before.dispatched.len() && before.dispatched[j] == url@;
                            assert((before.dispatched + before.pending)[j] == url@);
                            assert((before.dispatched + before.pending)[before.dispatched.len() as int] == url@);
                        }
                    }
                    let ghost vbefore = self.in_progress@;
                    self.in_progress.push(url.clone());
                    assert(views(self.in_progress@) =~= views(vbefore).push(url@));
                    actions.push(Action::Fetch(url));
                    proof {
                        assert(actions@.skip(n0) =~= a.push(Action::Fetch(url)));
                        lemma_actions_push(a, Action::Fetch(url));
                        assert(actions@.subrange(0, n0) =~= start);
                        assert(before.pending =~= seq![url@] + self@.pending);
                        let o = old(self)@;
                        let rl = o.released_links(pause_count(actions@.skip(n0)));
                        assert(o.pending + queued_from(o.visited, rl) =~= fetched_urls(actions@.skip(n0)) + self@.pending);
                        assert(self@.in_progress =~= before.in_progress.insert(url@));
                        assert(self@.in_progress =~= old(self)@.in_progress.union(fetched_urls(actions@.skip(n0)).to_set()));
                        self.lemma_in_flight_len();
                        lemma_fetch_frame(before, self@, url@);
                    }
                },
            }
        }
        actions
    }
}

} // verus!
