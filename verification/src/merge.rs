//! The merge engine: one crawl's freshly verified entries are reconciled
//! with the previously stored catalog into a single deduplicated sequence,
//! sorted ascending by id, where for each id the entry with the greatest
//! `observed_at` survives (a later occurrence winning a timestamp tie).

use vstd::prelude::*;
use crate::entry::Entry;
use crate::entry::EntryModel;
use crate::entry::models;
use crate::entry::lex_lt;
use crate::entry::lemma_lex_irrefl;
use crate::entry::lemma_lex_trans;
use crate::entry::lemma_lex_connected;
use crate::entry::bytes_eq;
use crate::entry::bytes_lt;

verus! {

/// The surviving record for key `id` after processing `s` in order: the
/// entry carrying `id` with the greatest `observed_at`, a later occurrence
/// winning a timestamp tie; `None` when no entry carries `id`.
pub open spec fn best(s: Seq<EntryModel>, id: Seq<u8>) -> Option<EntryModel>
    decreases s.len(),
{
    if s.len() == 0 {
        None
    } else {
        let head_best = best(s.drop_last(), id);
        let last = s.last();
        if last.id != id {
            head_best
        } else {
            match head_best {
                None => Some(last),
                Some(p) => if last.observed_at >= p.observed_at {
                    Some(last)
                } else {
                    Some(p)
                },
            }
        }
    }
}

/// Strictly ascending by id: the catalog's derived order.
pub open spec fn sorted_by_id(s: Seq<EntryModel>) -> bool {
    forall|i: int, j: int| 0 <= i < j < s.len() ==> lex_lt(s[i].id, s[j].id)
}

/// `out` is the merge of `input`: sorted ascending by id, every record is
/// the surviving one for its id, and every id of `input` is represented.
pub open spec fn merged(input: Seq<EntryModel>, out: Seq<EntryModel>) -> bool {
    &&& sorted_by_id(out)
    &&& forall|k: int| 0 <= k < out.len() ==> best(input, (#[trigger] out[k]).id) == Some(out[k])
    &&& forall|j: int| 0 <= j < input.len() ==>
        exists|k: int| 0 <= k < out.len() && (#[trigger] out[k]).id == (#[trigger] input[j]).id
}

/// How one more processed record changes the survivor for each id.
pub proof fn lemma_best_push(s: Seq<EntryModel>, e: EntryModel, id: Seq<u8>)
    ensures
        best(s.push(e), id) == (if e.id == id {
            match best(s, id) {
                None => Some(e),
                Some(p) => if e.observed_at >= p.observed_at {
                    Some(e)
                } else {
                    Some(p)
                },
            }
        } else {
            best(s, id)
        }),
{
    assert(s.push(e).drop_last() =~= s);
    assert(s.push(e).last() == e);
}

/// The survivor for `id`, when there is one, occurs in `s`, carries `id`,
/// and has the greatest timestamp among records carrying `id`; when there
/// is none, no record of `s` carries `id`.
pub proof fn lemma_best_props(s: Seq<EntryModel>, id: Seq<u8>)
    ensures
        best(s, id) is None ==> forall|i: int| 0 <= i < s.len() ==> (#[trigger] s[i]).id != id,
        best(s, id) matches Some(e) ==> {
            &&& exists|i: int| 0 <= i < s.len() && s[i] == e
            &&& e.id == id
            &&& forall|i: int| 0 <= i < s.len() && (#[trigger] s[i]).id == id
                ==> s[i].observed_at <= e.observed_at
        },
    decreases s.len(),
{
    if s.len() > 0 {
        lemma_best_props(s.drop_last(), id);
        let h = s.drop_last();
        assert(forall|i: int| 0 <= i < h.len() ==> #[trigger] s[i] == h[i]);
        if best(s, id) is Some {
            let e = best(s, id)->Some_0;
            assert(exists|i: int| 0 <= i < s.len() && s[i] == e) by {
                if e == s.last() {
                    assert(s[s.len() - 1] == e);
                } else {
                    let i = choose|i: int| 0 <= i < h.len() && h[i] == e;
                    assert(s[i] == e);
                }
            }
        }
    }
}

/// In a strictly sorted catalog no two records share an id.
pub proof fn lemma_sorted_distinct(s: Seq<EntryModel>)
    requires
        sorted_by_id(s),
    ensures
        forall|i: int, j: int| 0 <= i < s.len() && 0 <= j < s.len() && i != j
            ==> (#[trigger] s[i]).id != (#[trigger] s[j]).id,
{
    assert forall|i: int, j: int| 0 <= i < s.len() && 0 <= j < s.len() && i != j
        implies (#[trigger] s[i]).id != (#[trigger] s[j]).id by {
        if i < j {
            assert(lex_lt(s[i].id, s[j].id));
            if s[i].id == s[j].id {
                lemma_lex_irrefl(s[i].id);
            }
        } else {
            assert(lex_lt(s[j].id, s[i].id));
            if s[i].id == s[j].id {
                lemma_lex_irrefl(s[i].id);
            }
        }
    }
}

/// In a catalog with pairwise distinct ids, every record is the survivor
/// for its own id.
pub proof fn lemma_best_of_distinct(s: Seq<EntryModel>, j: int)
    requires
        0 <= j < s.len(),
        forall|a: int, b: int| 0 <= a < s.len() && 0 <= b < s.len() && a != b
            ==> (#[trigger] s[a]).id != (#[trigger] s[b]).id,
    ensures
        best(s, s[j].id) == Some(s[j]),
    decreases s.len(),
{
    let h = s.drop_last();
    assert(forall|i: int| 0 <= i < h.len() ==> #[trigger] h[i] == s[i]);
    if j == s.len() - 1 {
        lemma_best_props(h, s[j].id);
        if best(h, s[j].id) is Some {
            let w = best(h, s[j].id)->Some_0;
            let i = choose|i: int| 0 <= i < h.len() && h[i] == w;
            assert(s[i].id == s[j].id);
            assert(false);
        }
    } else {
        assert(s.last().id != s[j].id);
        lemma_best_of_distinct(h, j);
    }
}

/// A catalog that is already sorted by id is its own merge.
pub proof fn lemma_merged_self(c: Seq<EntryModel>)
    requires
        sorted_by_id(c),
    ensures
        merged(c, c),
{
    lemma_sorted_distinct(c);
    assert forall|k: int| 0 <= k < c.len()
        implies best(c, (#[trigger] c[k]).id) == Some(c[k]) by {
        lemma_best_of_distinct(c, k);
    }
    assert forall|j: int| 0 <= j < c.len()
        implies exists|k: int| 0 <= k < c.len()
            && (#[trigger] c[k]).id == (#[trigger] c[j]).id by {
        assert(c[j].id == c[j].id);
    }
}

/// Whether the record `e` occurs in `s`.
pub open spec fn appears(s: Seq<EntryModel>, e: EntryModel) -> bool {
    exists|k: int| 0 <= k < s.len() && s[k] == e
}

/// Two sorted catalogs made of each other's records are equal.
#[verifier::rlimit(60)]
proof fn lemma_sorted_mutual_eq(x: Seq<EntryModel>, y: Seq<EntryModel>)
    requires
        sorted_by_id(x),
        sorted_by_id(y),
        forall|i: int| 0 <= i < x.len() ==> #[trigger] appears(y, x[i]),
        forall|j: int| 0 <= j < y.len() ==> #[trigger] appears(x, y[j]),
    ensures
        x == y,
    decreases x.len(),
{
    if x.len() == 0 {
        if y.len() > 0 {
            assert(appears(x, y[0]));
            let i = choose|i: int| 0 <= i < x.len() && x[i] == y[0];
            assert(false);
        }
        assert(x =~= y);
    } else if y.len() == 0 {
        assert(appears(y, x[0]));
        let j = choose|j: int| 0 <= j < y.len() && y[j] == x[0];
        assert(false);
    } else {
        lemma_sorted_distinct(x);
        lemma_sorted_distinct(y);
        assert(appears(y, x[0]));
        assert(appears(x, y[0]));
        let j0 = choose|j: int| 0 <= j < y.len() && y[j] == x[0];
        let i0 = choose|i: int| 0 <= i < x.len() && x[i] == y[0];
        if j0 > 0 && i0 > 0 {
            assert(lex_lt(y[0].id, y[j0].id));
            assert(lex_lt(x[0].id, x[i0].id));
            crate::entry::lemma_lex_asym(x[0].id, y[0].id);
            assert(false);
        }
        assert(x[0] == y[0]);
        let xt = x.skip(1);
        let yt = y.skip(1);
        assert(forall|i: int| 0 <= i < xt.len() ==> #[trigger] xt[i] == x[i + 1]);
        assert(forall|j: int| 0 <= j < yt.len() ==> #[trigger] yt[j] == y[j + 1]);
        assert forall|i: int| 0 <= i < xt.len() implies #[trigger] appears(yt, xt[i]) by {
            assert(appears(y, x[i + 1]));
            let j = choose|j: int| 0 <= j < y.len() && y[j] == x[i + 1];
            if j == 0 {
                assert(x[i + 1] == x[0]);
                assert(false);
            }
            assert(yt[j - 1] == xt[i]);
        }
        assert forall|j: int| 0 <= j < yt.len() implies #[trigger] appears(xt, yt[j]) by {
            assert(appears(x, y[j + 1]));
            let i = choose|i: int| 0 <= i < x.len() && x[i] == y[j + 1];
            if i == 0 {
                assert(y[j + 1] == y[0]);
                assert(false);
            }
            assert(xt[i - 1] == yt[j]);
        }
        lemma_sorted_mutual_eq(xt, yt);
        assert forall|i: int| 0 <= i < x.len() implies x[i] == y[i] by {
            if i > 0 {
                assert(x[i] == xt[i - 1]);
                assert(y[i] == yt[i - 1]);
            }
        }
        assert(x =~= y);
    }
}

/// The merge of a given input is unique: the contract of `merge` pins its
/// result completely.
pub proof fn lemma_merged_unique(input: Seq<EntryModel>, o1: Seq<EntryModel>, o2: Seq<EntryModel>)
    requires
        merged(input, o1),
        merged(input, o2),
    ensures
        o1 == o2,
{
    assert forall|k: int| 0 <= k < o1.len() implies #[trigger] appears(o2, o1[k]) by {
        lemma_merged_member(input, o1, o2, k);
    }
    assert forall|k: int| 0 <= k < o2.len() implies #[trigger] appears(o1, o2[k]) by {
        lemma_merged_member(input, o2, o1, k);
    }
    lemma_sorted_mutual_eq(o1, o2);
}

/// Every record of one merge result occurs in any other merge result of
/// the same input.
proof fn lemma_merged_member(input: Seq<EntryModel>, o1: Seq<EntryModel>, o2: Seq<EntryModel>, k: int)
    requires
        merged(input, o1),
        merged(input, o2),
        0 <= k < o1.len(),
    ensures
        appears(o2, o1[k]),
{
    let id = o1[k].id;
    assert(best(input, id) == Some(o1[k]));
    lemma_best_props(input, id);
    let i = choose|i: int| 0 <= i < input.len() && input[i] == o1[k];
    assert(input[i].id == id);
    let x = choose|x: int| 0 <= x < o2.len() && o2[x].id == input[i].id;
    assert(best(input, o2[x].id) == Some(o2[x]));
    assert(o2[x] == o1[k]);
}

/// Merging a catalog (one record per id) with nothing new only reorders
/// it by id: the result is sorted and holds exactly the same records.
pub proof fn lemma_merge_reorders_catalog(c: Seq<EntryModel>, out: Seq<EntryModel>)
    requires
        forall|a: int, b: int| 0 <= a < c.len() && 0 <= b < c.len() && a != b
            ==> (#[trigger] c[a]).id != (#[trigger] c[b]).id,
        merged(c, out),
    ensures
        sorted_by_id(out),
        forall|i: int| 0 <= i < c.len() ==> #[trigger] appears(out, c[i]),
        forall|k: int| 0 <= k < out.len() ==> #[trigger] appears(c, out[k]),
{
    assert forall|i: int| 0 <= i < c.len() implies #[trigger] appears(out, c[i]) by {
        lemma_best_of_distinct(c, i);
        let x = choose|x: int| 0 <= x < out.len() && out[x].id == c[i].id;
        assert(best(c, out[x].id) == Some(out[x]));
        assert(out[x] == c[i]);
    }
    assert forall|k: int| 0 <= k < out.len() implies #[trigger] appears(c, out[k]) by {
        assert(best(c, out[k].id) == Some(out[k]));
        lemma_best_props(c, out[k].id);
    }
}

/// Idempotence: merging a sorted catalog with nothing new returns it
/// unchanged.
pub proof fn lemma_merge_idempotent(c: Seq<EntryModel>, out: Seq<EntryModel>)
    requires
        sorted_by_id(c),
        merged(c, out),
    ensures
        out == c,
{
    lemma_merged_self(c);
    lemma_merged_unique(c, out, c);
}

/// Uniqueness: no two records of a merge result share an id.
pub proof fn lemma_merge_unique_ids(input: Seq<EntryModel>, out: Seq<EntryModel>)
    requires
        merged(input, out),
    ensures
        forall|a: int, b: int| 0 <= a < out.len() && 0 <= b < out.len() && a != b
            ==> (#[trigger] out[a]).id != (#[trigger] out[b]).id,
{
    lemma_sorted_distinct(out);
}

/// Freshness: when an id occurs once in the prior catalog and once in the
/// fresh entries with a different timestamp, the merge keeps the record
/// with the greater `observed_at`.
pub proof fn lemma_merge_freshness(
    prior: Seq<EntryModel>,
    fresh: Seq<EntryModel>,
    out: Seq<EntryModel>,
    i: int,
    j: int,
)
    requires
        merged(prior + fresh, out),
        0 <= i < prior.len(),
        0 <= j < fresh.len(),
        prior[i].id == fresh[j].id,
        forall|i2: int| 0 <= i2 < prior.len() && (#[trigger] prior[i2]).id == prior[i].id
            ==> i2 == i,
        forall|j2: int| 0 <= j2 < fresh.len() && (#[trigger] fresh[j2]).id == fresh[j].id
            ==> j2 == j,
        prior[i].observed_at != fresh[j].observed_at,
    ensures
        out.contains(
            if fresh[j].observed_at > prior[i].observed_at {
                fresh[j]
            } else {
                prior[i]
            },
        ),
{
    let input = prior + fresh;
    let id = prior[i].id;
    assert(input[i] == prior[i]);
    assert(input[prior.len() + j] == fresh[j]);
    let k = choose|k: int| 0 <= k < out.len() && out[k].id == input[i].id;
    assert(best(input, out[k].id) == Some(out[k]));
    lemma_best_props(input, id);
    let e = best(input, id)->Some_0;
    assert(out[k] == e);
    let w = choose|w: int| 0 <= w < input.len() && input[w] == e;
    assert(input[w].id == id);
    assert(w == i || w == prior.len() + j) by {
        if w < prior.len() {
            assert(input[w] == prior[w]);
        } else {
            assert(input[w] == fresh[w - prior.len()]);
        }
    }
    assert(e.observed_at >= input[i].observed_at);
    assert(e.observed_at >= input[prior.len() + j].observed_at);
    if fresh[j].observed_at > prior[i].observed_at {
        assert(e == fresh[j]);
        assert(out[k] == fresh[j]);
    } else {
        assert(e == prior[i]);
        assert(out[k] == prior[i]);
    }
}

/// First index at which `id` could stand in the sorted catalog `out`.
fn find_slot(out: &Vec<Entry>, id: &Vec<u8>) -> (k: usize)
    ensures
        k <= out@.len(),
        forall|j: int| 0 <= j < k ==> lex_lt(models(out@)[j].id, id@),
        k < out@.len() ==> !lex_lt(models(out@)[k as int].id, id@),
{
    let mut k: usize = 0;
    while k < out.len()
        invariant
            k <= out@.len(),
            forall|j: int| 0 <= j < k ==> lex_lt(models(out@)[j].id, id@),
        decreases out@.len() - k,
    {
        if !bytes_lt(&out[k].id, id) {
            return k;
        }
        k += 1;
    }
    k
}

/// Combine the previously stored catalog with a crawl's freshly verified
/// entries: concatenate, keep for every id the entry with the greatest
/// `observed_at` (a fresh entry winning a timestamp tie), and sort the
/// result ascending by id.
pub fn merge(prior: Vec<Entry>, fresh: Vec<Entry>) -> (r: Vec<Entry>)
    ensures
        merged(models(prior@) + models(fresh@), models(r@)),
{
    let mut input = prior;
    let mut tail = fresh;
    proof {
        assert(models(input@) + models(tail@) =~= models(input@ + tail@));
    }
    input.append(&mut tail);
    let ghost inp = models(input@);
    let mut out: Vec<Entry> = Vec::new();
    proof {
        assert(inp.take(0) =~= Seq::<EntryModel>::empty());
        assert(models(out@) =~= Seq::<EntryModel>::empty());
    }
    let mut i: usize = 0;
    while i < input.len()
        invariant
            i <= input@.len(),
            inp == models(input@),
            merged(inp.take(i as int), models(out@)),
        decreases input@.len() - i,
    {
        let ghost pi = inp.take(i as int);
        let ghost m0 = models(out@);
        let e = input[i].duplicate();
        proof {
            assert(e@ == inp[i as int]);
            assert(pi.push(e@) =~= inp.take(i + 1));
        }
        let k = find_slot(&out, &e.id);
        let mut same_id = false;
        if k < out.len() {
            if bytes_eq(&out[k].id, &e.id) {
                same_id = true;
            }
        }
        proof {
            // Every record of `out` other than position `k` carries an id
            // different from `e`'s.
            assert forall|j: int| 0 <= j < m0.len() && j != k
                implies (#[trigger] m0[j]).id != e@.id by {
                if j < k {
                    if m0[j].id == e@.id {
                        lemma_lex_irrefl(e@.id);
                    }
                } else {
                    // j > k, so k < m0.len(): m0[k].id <= ... < m0[j].id
                    assert(lex_lt(m0[k as int].id, m0[j].id));
                    if !same_id {
                        if !lex_lt(e@.id, m0[k as int].id) {
                            lemma_lex_connected(m0[k as int].id, e@.id);
                        }
                        assert(lex_lt(e@.id, m0[k as int].id));
                        lemma_lex_trans(e@.id, m0[k as int].id, m0[j].id);
                        if m0[j].id == e@.id {
                            lemma_lex_irrefl(e@.id);
                        }
                    } else {
                        if m0[j].id == e@.id {
                            lemma_lex_irrefl(e@.id);
                        }
                    }
                }
            }
        }
        if same_id {
            if e.observed_at >= out[k].observed_at {
                let _replaced = out.remove(k);
                out.insert(k, e);
                proof {
                    assert(models(out@) =~= m0.update(k as int, e@));
                }
            }
            proof {
                let m1 = models(out@);
                assert(m1.len() == m0.len());
                assert(forall|j: int| 0 <= j < m1.len() && j != k
                    ==> #[trigger] m1[j] == m0[j]);
                assert(m1[k as int].id == e@.id);
                assert(m1[k as int].observed_at >= e@.observed_at
                    && m1[k as int].observed_at >= m0[k as int].observed_at);
                assert(m1[k as int] == e@ || m1[k as int] == m0[k as int]);
                // sortedness: position k keeps the same id
                assert(m1[k as int].id == m0[k as int].id);
                assert(sorted_by_id(m1));
                // each record is still the survivor for its id
                assert forall|x: int| 0 <= x < m1.len()
                    implies best(pi.push(e@), (#[trigger] m1[x]).id) == Some(m1[x]) by {
                    lemma_best_push(pi, e@, m1[x].id);
                    if x == k {
                        assert(best(pi, m0[k as int].id) == Some(m0[k as int]));
                    }
                }
                // every processed id is represented
                assert forall|j: int| 0 <= j < pi.push(e@).len()
                    implies exists|x: int| 0 <= x < m1.len()
                        && (#[trigger] m1[x]).id == (#[trigger] pi.push(e@)[j]).id by {
                    if j < pi.len() {
                        let x = choose|x: int| 0 <= x < m0.len() && m0[x].id == pi[j].id;
                        assert(m1[x].id == pi.push(e@)[j].id);
                    } else {
                        assert(pi.push(e@)[j] == e@);
                        assert(m1[k as int].id == e@.id);
                    }
                }
                assert(merged(pi.push(e@), models(out@)));
            }
        } else {
            proof {
                // `e`'s id is new to the processed prefix
                lemma_best_props(pi, e@.id);
                if best(pi, e@.id) is Some {
                    let w = best(pi, e@.id)->Some_0;
                    let j = choose|j: int| 0 <= j < pi.len() && pi[j] == w;
                    let x = choose|x: int| 0 <= x < m0.len() && m0[x].id == pi[j].id;
                    assert(m0[x].id == e@.id);
                    if x != k {
                        assert(false);
                    } else {
                        assert(!same_id);
                        assert(false);
                    }
                }
                assert(best(pi, e@.id) is None);
                if k < m0.len() {
                    if !lex_lt(e@.id, m0[k as int].id) {
                        lemma_lex_connected(m0[k as int].id, e@.id);
                    }
                    assert(lex_lt(e@.id, m0[k as int].id));
                }
            }
            out.insert(k, e);
            proof {
                let m1 = models(out@);
                assert(m1 =~= m0.insert(k as int, e@));
                assert(forall|j: int| 0 <= j < k ==> #[trigger] m1[j] == m0[j]);
                assert(m1[k as int] == e@);
                assert(forall|j: int| k < j < m1.len() ==> #[trigger] m1[j] == m0[j - 1]);
                assert forall|a: int, b: int| 0 <= a < b < m1.len()
                    implies lex_lt((#[trigger] m1[a]).id, (#[trigger] m1[b]).id) by {
                    if a < k && b == k {
                        assert(lex_lt(m0[a].id, e@.id));
                    } else if a < k && b > k {
                        assert(lex_lt(m0[a].id, m0[b - 1].id));
                    } else if a == k && b > k {
                        if b - 1 > k {
                            assert(lex_lt(m0[k as int].id, m0[b - 1].id));
                            lemma_lex_trans(e@.id, m0[k as int].id, m0[b - 1].id);
                        }
                    }
                }
                assert(sorted_by_id(m1));
                assert forall|x: int| 0 <= x < m1.len()
                    implies best(pi.push(e@), (#[trigger] m1[x]).id) == Some(m1[x]) by {
                    lemma_best_push(pi, e@, m1[x].id);
                    if x < k {
                        assert(m1[x] == m0[x]);
                        assert(m0[x].id != e@.id);
                    } else if x > k {
                        assert(m1[x] == m0[x - 1]);
                        assert(m0[x - 1].id != e@.id);
                    }
                }
                assert forall|j: int| 0 <= j < pi.push(e@).len()
                    implies exists|x: int| 0 <= x < m1.len()
                        && (#[trigger] m1[x]).id == (#[trigger] pi.push(e@)[j]).id by {
                    if j < pi.len() {
                        let x = choose|x: int| 0 <= x < m0.len() && m0[x].id == pi[j].id;
                        if x < k {
                            assert(m1[x].id == pi.push(e@)[j].id);
                        } else {
                            assert(m1[x + 1].id == pi.push(e@)[j].id);
                        }
                    } else {
                        assert(pi.push(e@)[j] == e@);
                        assert(m1[k as int].id == e@.id);
                    }
                }
                assert(merged(pi.push(e@), models(out@)));
            }
        }
        i += 1;
    }
    proof {
        assert(inp.take(input@.len() as int) =~= inp);
    }
    out
}

} // verus!
