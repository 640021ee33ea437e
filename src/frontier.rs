//! The frontier and dedup manager: the single owner of "has this URL been
//! seen", and of the queue of URLs waiting to be fetched.
use std::collections::VecDeque;
use vstd::prelude::*;

verus! {

broadcast use {
    vstd::seq_lib::lemma_seq_contains_after_push,
    Seq::lemma_push_to_set_commute,
    vstd::seq_lib::lemma_seq_concat_contains_all_elements,
};

/// The character sequences of a list of strings.
pub open spec fn views(v: Seq<String>) -> Seq<Seq<char>> {
    v.map_values(|s: String| s@)
}

/// Appending a new element keeps a sequence free of duplicates.
pub proof fn lemma_push_unique<A>(s: Seq<A>, a: A)
    requires
        s.no_duplicates(),
        !s.contains(a),
    ensures
        s.push(a).no_duplicates(),
{
    assert forall|i: int, j: int|
        0 <= i < s.push(a).len() && 0 <= j < s.push(a).len() && i != j implies s.push(a)[i]
        != s.push(a)[j] by {
        if i < s.len() && j < s.len() {
            assert(s[i] != s[j]);
        } else if i < s.len() {
            assert(s.contains(s[i]));
        } else if j < s.len() {
            assert(s.contains(s[j]));
        }
    }
}

/// The URLs of `urls` that enter the frontier when `seen` have been seen
/// already: each URL not in `seen`, at its first occurrence, in order.
pub open spec fn admitted(seen: Set<Seq<char>>, urls: Seq<Seq<char>>) -> Seq<Seq<char>>
    decreases urls.len(),
{
    if urls.len() == 0 {
        Seq::empty()
    } else {
        let prev = admitted(seen, urls.drop_last());
        let u = urls.last();
        if seen.contains(u) || prev.contains(u) {
            prev
        } else {
            prev.push(u)
        }
    }
}

/// A URL is admitted exactly when it is offered and has not been seen.
pub proof fn lemma_admitted_contains(seen: Set<Seq<char>>, urls: Seq<Seq<char>>, x: Seq<char>)
    ensures
        admitted(seen, urls).contains(x) <==> (urls.contains(x) && !seen.contains(x)),
    decreases urls.len(),
{
    if urls.len() > 0 {
        lemma_admitted_contains(seen, urls.drop_last(), x);
        assert(urls == urls.drop_last().push(urls.last()));
    }
}

/// The admitted URLs are new and each is admitted once.
pub proof fn lemma_admitted_fresh(seen: Set<Seq<char>>, urls: Seq<Seq<char>>)
    ensures
        admitted(seen, urls).no_duplicates(),
        forall|x: Seq<char>| #[trigger] admitted(seen, urls).contains(x) ==> !seen.contains(x),
    decreases urls.len(),
{
    if urls.len() > 0 {
        lemma_admitted_fresh(seen, urls.drop_last());
        let prev = admitted(seen, urls.drop_last());
        let u = urls.last();
        if !(seen.contains(u) || prev.contains(u)) {
            lemma_push_unique(prev, u);
        }
    }
}

/// Offering only URLs that were seen already admits nothing.
pub proof fn lemma_admitted_of_seen(seen: Set<Seq<char>>, urls: Seq<Seq<char>>)
    requires
        forall|i: int| 0 <= i < urls.len() ==> seen.contains(#[trigger] urls[i]),
    ensures
        admitted(seen, urls) == Seq::<Seq<char>>::empty(),
    decreases urls.len(),
{
    if urls.len() > 0 {
        lemma_admitted_of_seen(seen, urls.drop_last());
    }
}

/// The visited set and the pending-URL queue of one crawl. Both grow with the
/// number of distinct URLs discovered, and the visited set never shrinks
/// while the crawl runs. The visited set is a list searched from the front,
/// so each lookup costs time linear in the URLs seen.
///
/// The pending queue has no capacity of its own. With one coordinating loop
/// owning it, a bound would only move the waiting URLs elsewhere: a loop
/// blocked on a full queue still holds the rest of the discovered batch, and
/// the workers' reports wait behind it. Memory is bounded instead by the
/// number of distinct URLs, which the visited set holds anyway.
pub struct Frontier {
    visited: Vec<String>,
    pending: VecDeque<String>,
    /// Every URL handed out by `pop`, oldest first.
    issued: Ghost<Seq<Seq<char>>>,
}

impl Frontier {
    /// The URLs seen so far.
    pub closed spec fn visited(&self) -> Set<Seq<char>> {
        views(self.visited@).to_set()
    }

    /// The URLs waiting to be fetched, oldest first.
    pub closed spec fn pending(&self) -> Seq<Seq<char>> {
        views(self.pending@)
    }

    /// The URLs handed out so far, oldest first.
    pub closed spec fn issued(&self) -> Seq<Seq<char>> {
        self.issued@
    }

    /// Every URL that ever entered the queue, in order of entry.
    pub open spec fn enqueued(&self) -> Seq<Seq<char>> {
        self.issued() + self.pending()
    }

    pub closed spec fn wf(&self) -> bool {
        &&& views(self.visited@).no_duplicates()
        &&& self.enqueued().no_duplicates()
        &&& forall|u: Seq<char>| #[trigger] self.enqueued().contains(u) ==> self.visited().contains(u)
    }

    /// Every visited URL has entered the queue.
    pub open spec fn exact(&self) -> bool {
        forall|u: Seq<char>| #[trigger] self.visited().contains(u) ==> self.enqueued().contains(u)
    }

    pub fn new() -> (r: Frontier)
        ensures
            r.wf(),
            r.exact(),
            r.visited() == Set::<Seq<char>>::empty(),
            r.pending() == Seq::<Seq<char>>::empty(),
            r.issued() == Seq::<Seq<char>>::empty(),
    {
        let r = Frontier { visited: Vec::new(), pending: VecDeque::new(), issued: Ghost(Seq::empty()) };
        assert(views(r.visited@) =~= Seq::<Seq<char>>::empty());
        assert(r.pending() =~= Seq::<Seq<char>>::empty());
        assert(r.visited() =~= Set::<Seq<char>>::empty());
        r
    }

    /// Whether `url` has been seen.
    pub fn is_visited(&self, url: &String) -> (r: bool)
        ensures
            r == self.visited().contains(url@),
    {
        let mut i: usize = 0;
        while i < self.visited.len()
            invariant
                i <= self.visited@.len(),
                forall|j: int| 0 <= j < i ==> self.visited@[j]@ != url@,
            decreases self.visited@.len() - i,
        {
            if self.visited[i] == *url {
                assert(views(self.visited@)[i as int] == url@);
                return true;
            }
            i = i + 1;
        }
        proof {
            if views(self.visited@).to_set().contains(url@) {
                let j = choose|j: int|
                    0 <= j < views(self.visited@).len() && views(self.visited@)[j] == url@;
                assert(self.visited@[j]@ == url@);
            }
        }
        false
    }

    /// Number of distinct URLs seen.
    pub fn visited_len(&self) -> (r: usize)
        requires
            self.wf(),
        ensures
            r == self.visited().len(),
    {
        proof {
            views(self.visited@).unique_seq_to_set();
        }
        self.visited.len()
    }

    /// Number of URLs waiting to be fetched.
    pub fn pending_len(&self) -> (r: usize)
        ensures
            r == self.pending().len(),
    {
        self.pending.len()
    }

    /// Marks each URL of `urls` not seen yet as seen and queues it, in order.
    fn enqueue_unseen(&mut self, urls: &Vec<String>)
        requires
            old(self).wf(),
        ensures
            final(self).wf(),
            final(self).visited() == old(self).visited().union(views(urls@).to_set()),
            final(self).pending() == old(self).pending() + admitted(
                old(self).visited(),
                views(urls@),
            ),
            final(self).issued() == old(self).issued(),
    {
        let ghost seen = self.visited();
        let ghost start = self.pending();
        let mut i: usize = 0;
        while i < urls.len()
            invariant
                i <= urls@.len(),
                self.wf(),
                self.issued() == old(self).issued(),
                self.visited() == seen.union(views(urls@).subrange(0, i as int).to_set()),
                self.pending() == start + admitted(seen, views(urls@).subrange(0, i as int)),
                seen == old(self).visited(),
                start == old(self).pending(),
            decreases urls@.len() - i,
        {
            let ghost prefix = views(urls@).subrange(0, i as int);
            let ghost next = views(urls@).subrange(0, i as int + 1);
            assert(next.drop_last() == prefix);
            assert(next.last() == urls@[i as int]@);
            let u = &urls[i];
            proof {
                lemma_admitted_contains(seen, prefix, u@);
                assert(prefix.to_set().contains(u@) <==> prefix.contains(u@));
            }
            if !self.is_visited(u) {
                let ghost before = self.enqueued();
                proof {
                    lemma_admitted_fresh(seen, next);
                }
                let ghost vbefore = self.visited@;
                let ghost pbefore = self.pending@;
                self.visited.push(u.clone());
                self.pending.push_back(u.clone());
                assert(views(self.visited@) =~= views(vbefore).push(u@));
                assert(views(self.pending@) =~= views(pbefore).push(u@));
                assert(!prefix.contains(u@));
                assert(!admitted(seen, prefix).contains(u@));
                assert(admitted(seen, next) == admitted(seen, prefix).push(u@));
                assert(self.pending() =~= start + admitted(seen, next));
                assert(self.enqueued() =~= before.push(u@));
                assert(!views(vbefore).contains(u@));
                assert(!before.contains(u@));
                proof {
                    lemma_push_unique(views(vbefore), u@);
                    lemma_push_unique(before, u@);
                }
                assert(views(vbefore).push(u@).to_set() == views(vbefore).to_set().insert(u@));
                assert(next.to_set() == prefix.to_set().insert(u@)) by {
                    assert(next == prefix.push(u@));
                }
                assert(self.visited() =~= seen.union(next.to_set()));
            } else {
                assert(next.to_set() == prefix.to_set().insert(u@)) by {
                    assert(next == prefix.push(u@));
                }
                assert(self.visited() =~= seen.union(next.to_set()));
            }
            i = i + 1;
        }
        assert(views(urls@).subrange(0, urls@.len() as int) == views(urls@));
    }

    /// Marks each URL of `urls` not seen yet as seen and queues it, in the
    /// order given. Called once, with the start URLs of the crawl.
    pub fn seed(&mut self, urls: &Vec<String>)
        requires
            old(self).wf(),
        ensures
            final(self).wf(),
            old(self).exact() ==> final(self).exact(),
            final(self).visited() == old(self).visited().union(views(urls@).to_set()),
            final(self).pending() == old(self).pending() + admitted(
                old(self).visited(),
                views(urls@),
            ),
            final(self).issued() == old(self).issued(),
    {
        self.enqueue_unseen(urls);
        proof {
            if old(self).exact() {
                self.lemma_exact_after(*old(self), views(urls@));
            }
        }
    }

    /// Folds in what a fetch of `source` discovered: `source` is marked seen,
    /// and each URL of `urls` not seen yet is marked seen and queued, in order.
    pub fn report_discovered(&mut self, source: &String, urls: &Vec<String>)
        requires
            old(self).wf(),
        ensures
            final(self).wf(),
            old(self).exact() && old(self).visited().contains(source@) ==> final(self).exact(),
            final(self).visited() == old(self).visited().insert(source@).union(
                views(urls@).to_set(),
            ),
            final(self).pending() == old(self).pending() + admitted(
                old(self).visited().insert(source@),
                views(urls@),
            ),
            final(self).issued() == old(self).issued(),
    {
        if !self.is_visited(source) {
            let ghost vbefore = self.visited@;
            self.visited.push(source.clone());
            assert(views(self.visited@) =~= views(vbefore).push(source@));
            proof {
                lemma_push_unique(views(vbefore), source@);
            }
        } else {
            assert(self.visited().insert(source@) =~= self.visited());
        }
        let ghost mid = *self;
        self.enqueue_unseen(urls);
        proof {
            if old(self).visited().contains(source@) {
                assert(mid.visited() =~= old(self).visited());
            }
            if old(self).exact() && old(self).visited().contains(source@) {
                self.lemma_exact_after(mid, views(urls@));
            }
        }
    }

    /// Takes the oldest pending URL, to be fetched.
    pub fn pop(&mut self) -> (r: Option<String>)
        requires
            old(self).wf(),
        ensures
            final(self).wf(),
            old(self).exact() ==> final(self).exact(),
            final(self).visited() == old(self).visited(),
            final(self).enqueued() == old(self).enqueued(),
            old(self).pending().len() == 0 ==> {
                &&& r is None
                &&& final(self).pending() == old(self).pending()
                &&& final(self).issued() == old(self).issued()
            },
            old(self).pending().len() > 0 ==> {
                &&& r is Some
                &&& r->Some_0@ == old(self).pending()[0]
                &&& final(self).pending() == old(self).pending().drop_first()
                &&& final(self).issued() == old(self).issued().push(r->Some_0@)
            },
    {
        let r = self.pending.pop_front();
        match &r {
            Some(u) => {
                self.issued = Ghost(self.issued@.push(u@));
                assert(views(old(self).pending@) =~= seq![u@] + views(self.pending@));
            },
            None => {},
        }
        assert(self.enqueued() =~= old(self).enqueued());
        assert(self.visited() == old(self).visited());
        assert(old(self).exact() ==> self.exact()) by {
            if old(self).exact() {
                assert forall|u: Seq<char>| #[trigger] self.visited().contains(u) implies self.enqueued().contains(u) by {
                    assert(old(self).visited().contains(u));
                }
            }
        }
        r
    }

    /// What well-formedness gives a caller: no URL entered the queue twice,
    /// and every URL that entered it has been seen.
    pub proof fn lemma_wf(&self)
        requires
            self.wf(),
        ensures
            self.enqueued().no_duplicates(),
            forall|u: Seq<char>| #[trigger] self.enqueued().contains(u) ==> self.visited().contains(u),
            self.exact() ==> self.visited() == self.enqueued().to_set(),
    {
        if self.exact() {
            assert(self.visited() =~= self.enqueued().to_set());
        }
    }

    proof fn lemma_exact_after(&self, before: Frontier, urls: Seq<Seq<char>>)
        requires
            before.exact(),
            self.visited() == before.visited().union(urls.to_set()),
            self.pending() == before.pending() + admitted(before.visited(), urls),
            self.issued() == before.issued(),
        ensures
            self.exact(),
    {
        assert forall|u: Seq<char>| #[trigger] self.visited().contains(u) implies self.enqueued().contains(
            u,
        ) by {
            if before.visited().contains(u) {
                assert(before.enqueued().contains(u));
                let j = choose|j: int| 0 <= j < before.enqueued().len() && before.enqueued()[j] == u;
                assert(self.enqueued()[j] == u);
            } else {
                assert(urls.contains(u));
                lemma_admitted_contains(before.visited(), urls, u);
                assert(self.enqueued() =~= before.enqueued() + admitted(before.visited(), urls));
            }
        }
    }
}

/// Reporting URLs that have all been seen already, from a source that has
/// been seen, queues nothing and adds nothing to the visited set.
pub proof fn lemma_rereport_changes_nothing(
    visited: Set<Seq<char>>,
    source: Seq<char>,
    urls: Seq<Seq<char>>,
)
    requires
        visited.contains(source),
        forall|i: int| 0 <= i < urls.len() ==> visited.contains(#[trigger] urls[i]),
    ensures
        admitted(visited.insert(source), urls) == Seq::<Seq<char>>::empty(),
        visited.insert(source).union(urls.to_set()) == visited,
{
    assert(visited.insert(source) =~= visited);
    lemma_admitted_of_seen(visited, urls);
    assert(visited.union(urls.to_set()) =~= visited);
}

/// Reporting the same discoveries twice queues them at most once: after the
/// first report, the second queues nothing and leaves the visited set as it is.
pub proof fn lemma_report_twice(visited: Set<Seq<char>>, source: Seq<char>, urls: Seq<Seq<char>>)
    ensures
        ({
            let after = visited.insert(source).union(urls.to_set());
            &&& admitted(after.insert(source), urls) == Seq::<Seq<char>>::empty()
            &&& after.insert(source).union(urls.to_set()) == after
        }),
{
    let after = visited.insert(source).union(urls.to_set());
    assert forall|i: int| 0 <= i < urls.len() implies after.contains(#[trigger] urls[i]) by {
        assert(urls.to_set().contains(urls[i]));
    }
    lemma_rereport_changes_nothing(after, source, urls);
}

} // verus!
