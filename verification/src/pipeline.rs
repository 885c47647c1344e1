//! The crawl stage pipeline's decisions: per-cycle deduplication of raw
//! invite links, collection of newly verified entries, and the paging
//! policy of the discovery stage.
//!
//! The external collaborators — the search source, the link resolver and
//! the invite verifier — are driven by the caller, which feeds their
//! results in as plain values; every decision about those results is made
//! and verified here.

use vstd::prelude::*;
use crate::entry::Entry;
use crate::entry::models;
use crate::entry::bytes_eq;
use crate::entry::clone_bytes;

verus! {

/// The models of a sequence of candidate links.
pub open spec fn link_models(s: Seq<Vec<u8>>) -> Seq<Seq<u8>> {
    Seq::new(s.len(), |i: int| s[i]@)
}

/// The links of `cands` that survive deduplication against `seen`: first
/// occurrences only, in discovery order.
pub open spec fn new_links(seen: Seq<Seq<u8>>, cands: Seq<Seq<u8>>) -> Seq<Seq<u8>>
    decreases cands.len(),
{
    if cands.len() == 0 {
        Seq::empty()
    } else if seen.contains(cands[0]) {
        new_links(seen, cands.skip(1))
    } else {
        seq![cands[0]] + new_links(seen.push(cands[0]), cands.skip(1))
    }
}

/// Per-cycle dedup: the surviving links are pairwise distinct, were not
/// seen before, and all come from the candidates.
pub proof fn lemma_new_links_dedup(seen: Seq<Seq<u8>>, cands: Seq<Seq<u8>>)
    ensures
        forall|a: int, b: int| 0 <= a < b < new_links(seen, cands).len()
            ==> new_links(seen, cands)[a] != new_links(seen, cands)[b],
        forall|a: int| 0 <= a < new_links(seen, cands).len()
            ==> !seen.contains(#[trigger] new_links(seen, cands)[a])
                && cands.contains(new_links(seen, cands)[a]),
    decreases cands.len(),
{
    if cands.len() == 0 {
    } else if seen.contains(cands[0]) {
        lemma_new_links_dedup(seen, cands.skip(1));
        let nl = new_links(seen, cands);
        let nlr = new_links(seen, cands.skip(1));
        assert(nl == nlr);
        assert forall|a: int, b: int| 0 <= a < b < nl.len()
            implies nl[a] != nl[b] by {
            assert(nl[a] == nlr[a]);
            assert(nl[b] == nlr[b]);
        }
        assert forall|a: int| 0 <= a < nl.len()
            implies !seen.contains(#[trigger] nl[a]) && cands.contains(nl[a]) by {
            assert(nl[a] == nlr[a]);
            let x = nlr[a];
            assert(cands.skip(1).contains(x));
            let i = choose|i: int| 0 <= i < cands.skip(1).len() && cands.skip(1)[i] == x;
            assert(cands[i + 1] == x);
        }
    } else {
        let c0 = cands[0];
        let rest = new_links(seen.push(c0), cands.skip(1));
        lemma_new_links_dedup(seen.push(c0), cands.skip(1));
        let nl = new_links(seen, cands);
        assert(nl == seq![c0] + rest);
        assert(nl[0] == c0);
        assert(forall|a: int| 1 <= a < nl.len() ==> #[trigger] nl[a] == rest[a - 1]);
        assert forall|a: int, b: int| 0 <= a < b < nl.len()
            implies nl[a] != nl[b] by {
            if a == 0 {
                assert(!seen.push(c0).contains(rest[b - 1]));
                assert(seen.push(c0)[seen.len() as int] == c0);
                if rest[b - 1] == c0 {
                    assert(seen.push(c0).contains(c0));
                }
            }
        }
        assert forall|a: int| 0 <= a < nl.len()
            implies !seen.contains(#[trigger] nl[a]) && cands.contains(nl[a]) by {
            if a == 0 {
                assert(cands[0] == c0);
            } else {
                let x = rest[a - 1];
                assert(!seen.push(c0).contains(x));
                if seen.contains(x) {
                    let i = choose|i: int| 0 <= i < seen.len() && seen[i] == x;
                    assert(seen.push(c0)[i] == x);
                }
                assert(cands.skip(1).contains(x));
                let i = choose|i: int| 0 <= i < cands.skip(1).len() && cands.skip(1)[i] == x;
                assert(cands[i + 1] == x);
            }
        }
    }
}

/// Whether `l` is among the links of `seen`.
fn contains_link(seen: &Vec<Vec<u8>>, l: &Vec<u8>) -> (r: bool)
    ensures
        r == link_models(seen@).contains(l@),
{
    let mut i: usize = 0;
    while i < seen.len()
        invariant
            i <= seen@.len(),
            forall|j: int| 0 <= j < i ==> link_models(seen@)[j] != l@,
        decreases seen@.len() - i,
    {
        if bytes_eq(&seen[i], l) {
            proof {
                assert(link_models(seen@)[i as int] == l@);
            }
            return true;
        }
        i += 1;
    }
    proof {
        if link_models(seen@).contains(l@) {
            let j = choose|j: int| 0 <= j < seen@.len() && link_models(seen@)[j] == l@;
            assert(false);
        }
    }
    false
}

/// One cycle's transient crawl state: the raw invite links already handled
/// this cycle, and the entries created so far. The seen-set starts empty
/// every cycle and is never persisted.
pub struct CycleState {
    /// Raw invite links already claimed this cycle.
    pub seen: Vec<Vec<u8>>,
    /// Entries created from successfully verified invites this cycle.
    pub found: Vec<Entry>,
}

impl CycleState {
    /// A fresh cycle: nothing seen, nothing found.
    pub fn begin() -> (r: CycleState)
        ensures
            r.seen@.len() == 0,
            r.found@.len() == 0,
    {
        CycleState { seen: Vec::new(), found: Vec::new() }
    }

    /// Claim the candidates not yet handled this cycle: returns the first
    /// occurrences of links never seen before, in order, and marks them
    /// seen. Only these may be handed to the invite verifier.
    pub fn claim_unseen(&mut self, candidates: &Vec<Vec<u8>>) -> (fresh: Vec<Vec<u8>>)
        ensures
            final(self).found == old(self).found,
            link_models(fresh@) == new_links(
                link_models(old(self).seen@),
                link_models(candidates@),
            ),
            link_models(final(self).seen@) == link_models(old(self).seen@)
                + link_models(fresh@),
    {
        let ghost seen0 = link_models(self.seen@);
        let ghost cm = link_models(candidates@);
        let mut fresh: Vec<Vec<u8>> = Vec::new();
        proof {
            assert(cm.skip(0) =~= cm);
            assert(link_models(fresh@) =~= Seq::<Seq<u8>>::empty());
            assert(seen0 + link_models(fresh@) =~= seen0);
        }
        let mut i: usize = 0;
        while i < candidates.len()
            invariant
                i <= candidates@.len(),
                cm == link_models(candidates@),
                self.found == old(self).found,
                link_models(self.seen@) == seen0 + link_models(fresh@),
                new_links(seen0, cm) == link_models(fresh@)
                    + new_links(link_models(self.seen@), cm.skip(i as int)),
            decreases candidates@.len() - i,
        {
            let ghost cur = link_models(self.seen@);
            let link = clone_bytes(&candidates[i]);
            proof {
                assert(link@ == cm[i as int]);
                assert(cm.skip(i as int)[0] == cm[i as int]);
                assert(cm.skip(i as int).skip(1) =~= cm.skip(i + 1));
            }
            if contains_link(&self.seen, &link) {
                proof {
                    assert(new_links(cur, cm.skip(i as int))
                        == new_links(cur, cm.skip(i + 1)));
                }
            } else {
                let kept = clone_bytes(&link);
                self.seen.push(link);
                fresh.push(kept);
                proof {
                    assert(link_models(self.seen@) =~= cur.push(cm[i as int]));
                    assert(new_links(cur, cm.skip(i as int))
                        == seq![cm[i as int]]
                            + new_links(cur.push(cm[i as int]), cm.skip(i + 1)));
                    assert(link_models(fresh@)
                        =~= link_models(fresh@.drop_last()) + seq![cm[i as int]]);
                    assert(link_models(fresh@.drop_last()) + (seq![cm[i as int]]
                        + new_links(link_models(self.seen@), cm.skip(i + 1)))
                        =~= link_models(fresh@)
                            + new_links(link_models(self.seen@), cm.skip(i + 1)));
                    assert(seen0 + link_models(fresh@.drop_last()).push(cm[i as int])
                        =~= seen0 + link_models(fresh@));
                }
            }
            i += 1;
        }
        proof {
            assert(cm.skip(candidates@.len() as int) =~= Seq::<Seq<u8>>::empty());
            assert(new_links(link_models(self.seen@), Seq::<Seq<u8>>::empty())
                == Seq::<Seq<u8>>::empty());
            assert(link_models(fresh@) + Seq::<Seq<u8>>::empty() =~= link_models(fresh@));
        }
        fresh
    }

    /// Record one entry created from a successfully verified invite. A
    /// failed verification records nothing and leaves the state exactly as
    /// it was, so one link's failure never disturbs the others.
    pub fn record_entry(&mut self, e: Entry)
        ensures
            final(self).seen == old(self).seen,
            models(final(self).found@) == models(old(self).found@).push(e@),
    {
        self.found.push(e);
        proof {
            assert(models(self.found@) =~= models(old(self).found@).push(e@));
        }
    }
}

/// The outcome of one search page, as handed back by the search source.
pub enum PageOutcome {
    /// The page was fetched; these are the candidate links it yielded.
    Links(Vec<Vec<u8>>),
    /// The page could not be fetched.
    Failed,
}

/// The discovery stage: pages of the search source are consumed in order
/// up to a fixed limit; an empty page stops discovery early, and a failed
/// page is skipped without aborting the cycle.
pub struct Discovery {
    /// Next page index to ask the search source for.
    pub next_page: u64,
    /// Pages are consumed while `next_page < page_limit`.
    pub page_limit: u64,
    /// Candidate links discovered so far, in first-seen order.
    pub links: Vec<Vec<u8>>,
    /// Whether discovery is over, by exhaustion or by an empty page.
    pub done: bool,
}

impl Discovery {
    /// Start discovery over a fixed range of pages.
    pub fn begin(page_limit: u64) -> (r: Discovery)
        ensures
            r.next_page == 0,
            r.page_limit == page_limit,
            r.links@.len() == 0,
            r.done == (page_limit == 0),
    {
        Discovery { next_page: 0, page_limit, links: Vec::new(), done: page_limit == 0 }
    }

    /// Consume the outcome of the page `self.next_page`: a non-empty page
    /// extends the discovered links, an empty page ends discovery early,
    /// and a failed page is skipped.
    pub fn on_page(&mut self, outcome: PageOutcome)
        requires
            !old(self).done,
            old(self).next_page < old(self).page_limit,
        ensures
            final(self).page_limit == old(self).page_limit,
            match outcome {
                PageOutcome::Links(ls) => if ls@.len() > 0 {
                    &&& link_models(final(self).links@) == link_models(old(self).links@)
                        + link_models(ls@)
                    &&& final(self).next_page == old(self).next_page + 1
                    &&& final(self).done == (old(self).next_page + 1 == old(self).page_limit)
                } else {
                    &&& final(self).links == old(self).links
                    &&& final(self).next_page == old(self).next_page
                    &&& final(self).done
                },
                PageOutcome::Failed => {
                    &&& final(self).links == old(self).links
                    &&& final(self).next_page == old(self).next_page + 1
                    &&& final(self).done == (old(self).next_page + 1 == old(self).page_limit)
                },
            },
    {
        match outcome {
            PageOutcome::Links(ls) => {
                if ls.len() > 0 {
                    let ghost before = link_models(self.links@);
                    let ghost lsm = link_models(ls@);
                    let mut more = ls;
                    self.links.append(&mut more);
                    self.next_page = self.next_page + 1;
                    self.done = self.next_page == self.page_limit;
                    proof {
                        assert(link_models(self.links@) =~= before + lsm);
                    }
                } else {
                    self.done = true;
                }
            },
            PageOutcome::Failed => {
                self.next_page = self.next_page + 1;
                self.done = self.next_page == self.page_limit;
            },
        }
    }
}

} // verus!
