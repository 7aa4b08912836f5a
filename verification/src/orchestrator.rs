//! One refresh cycle: retried, partial-failure-tolerant collection of
//! scraped results, committed to the snapshot store only when something was
//! collected.
//!
//! The cycle itself is a state machine.  The caller drives it: while the
//! cycle is not done, it scrapes the pending locations and records the
//! batch that came back, or records the failure; each attempt spends one
//! unit of the retry budget.  A location whose data arrived leaves the
//! pending list; one that kept failing is simply dropped for this cycle.
//! Committing an empty cycle is a no-op: the previous snapshot stands,
//! since stale-but-available beats empty.

use vstd::prelude::*;
use crate::model::{LocationBookings, LocationView, locs_view};
use crate::store::{BookingManager, clean_results};
use crate::autofind::str_eq;

verus! {

/// The views of a sequence of location keys.
pub open spec fn strs_view(v: Seq<String>) -> Seq<Seq<char>> {
    Seq::new(v.len(), |i: int| v[i]@)
}

/// Whether some location in the run has the given key.
pub open spec fn has_loc(rs: Seq<LocationView>, id: Seq<char>) -> bool {
    exists|k: int| 0 <= k < rs.len() && #[trigger] rs[k].location == id
}

/// One scraped location folded into the collection: it replaces the first
/// entry with its key, or joins at the end.
pub open spec fn merge_one(acc: Seq<LocationView>, item: LocationView) -> Seq<LocationView>
    decreases acc.len(),
{
    if acc.len() == 0 {
        seq![item]
    } else if acc[0].location == item.location {
        seq![item] + acc.drop_first()
    } else {
        seq![acc[0]] + merge_one(acc.drop_first(), item)
    }
}

/// A whole batch folded into the collection, in batch order; the batch
/// wins over what was collected before.
pub open spec fn merge_all(acc: Seq<LocationView>, batch: Seq<LocationView>) -> Seq<LocationView>
    decreases batch.len(),
{
    if batch.len() == 0 {
        acc
    } else {
        merge_all(merge_one(acc, batch[0]), batch.drop_first())
    }
}

/// The pending keys that the collection still lacks, in order.
pub open spec fn prune(rem: Seq<Seq<char>>, rs: Seq<LocationView>) -> Seq<Seq<char>>
    decreases rem.len(),
{
    if rem.len() == 0 {
        Seq::empty()
    } else if has_loc(rs, rem[0]) {
        prune(rem.drop_first(), rs)
    } else {
        seq![rem[0]] + prune(rem.drop_first(), rs)
    }
}

/// What recording a failed attempt does: one unit of the retry budget is
/// spent and nothing else changes.
pub open spec fn failure_step(pre: RefreshCycle, post: RefreshCycle) -> bool {
    &&& post.attempts_used == pre.attempts_used + 1
    &&& post.max_retries == pre.max_retries
    &&& post.remaining == pre.remaining
    &&& post.collected == pre.collected
}

/// What recording a successful batch does: one unit of the retry budget is
/// spent, the batch is folded into the collection, and every key the
/// collection now covers leaves the pending list.
pub open spec fn success_step(pre: RefreshCycle, post: RefreshCycle, batch: Seq<LocationView>) -> bool {
    &&& post.attempts_used == pre.attempts_used + 1
    &&& post.max_retries == pre.max_retries
    &&& locs_view(post.collected@) == merge_all(locs_view(pre.collected@), batch)
    &&& strs_view(post.remaining@) == prune(strs_view(pre.remaining@), locs_view(post.collected@))
}

/// One bounded, retried, partially-tolerant refresh cycle over a list of
/// location keys.
pub struct RefreshCycle {
    /// Keys not yet scraped successfully this cycle.
    pub remaining: Vec<String>,
    /// Every location that succeeded so far, across all attempts.
    pub collected: Vec<LocationBookings>,
    /// Attempts spent so far.
    pub attempts_used: u64,
    /// The cycle's whole retry budget.
    pub max_retries: u64,
}

/// The first index among the collected locations with the given key.
fn find_loc_index(collected: &Vec<LocationBookings>, id: &str) -> (r: Option<usize>)
    ensures
        ({
            let cv = locs_view(collected@);
            match r {
                Some(k) => k < cv.len() && cv[k as int].location == id@ && (forall|j: int|
                    0 <= j < k ==> #[trigger] cv[j].location != id@),
                None => forall|j: int| 0 <= j < cv.len() ==> #[trigger] cv[j].location != id@,
            }
        }),
{
    let ghost cv = locs_view(collected@);
    let mut i: usize = 0;
    while i < collected.len()
        invariant
            i <= collected.len(),
            cv == locs_view(collected@),
            forall|j: int| 0 <= j < i ==> #[trigger] cv[j].location != id@,
        decreases collected.len() - i,
    {
        if str_eq(collected[i].location.as_str(), id) {
            return Some(i);
        }
        i = i + 1;
    }
    None
}

/// Folding an item in replaces its first keyed entry when one exists.
proof fn lemma_merge_one_update(acc: Seq<LocationView>, item: LocationView, k: int)
    requires
        0 <= k < acc.len(),
        acc[k].location == item.location,
        forall|j: int| 0 <= j < k ==> #[trigger] acc[j].location != item.location,
    ensures
        merge_one(acc, item) == acc.update(k, item),
    decreases acc.len(),
{
    if k == 0 {
        assert(merge_one(acc, item) == seq![item] + acc.drop_first());
        assert(seq![item] + acc.drop_first() =~= acc.update(0, item));
    } else {
        assert(acc[0].location != item.location);
        assert(forall|j: int|
            0 <= j < k - 1 ==> #[trigger] acc.drop_first()[j].location == acc[j + 1].location);
        lemma_merge_one_update(acc.drop_first(), item, k - 1);
        assert(seq![acc[0]] + acc.drop_first().update(k - 1, item) =~= acc.update(k, item));
    }
}

/// Folding an item in appends it when its key is new.
proof fn lemma_merge_one_push(acc: Seq<LocationView>, item: LocationView)
    requires
        forall|j: int| 0 <= j < acc.len() ==> #[trigger] acc[j].location != item.location,
    ensures
        merge_one(acc, item) == acc.push(item),
    decreases acc.len(),
{
    if acc.len() == 0 {
        assert(seq![item] =~= acc.push(item));
    } else {
        assert(forall|j: int|
            0 <= j < acc.drop_first().len() ==> #[trigger] acc.drop_first()[j].location == acc[j
                + 1].location);
        lemma_merge_one_push(acc.drop_first(), item);
        assert(seq![acc[0]] + acc.drop_first().push(item) =~= acc.push(item));
    }
}

impl RefreshCycle {
    /// A fresh cycle over the given keys, with the given retry budget.
    pub fn new(locations: Vec<String>, max_retries: u64) -> (r: Self)
        ensures
            r.remaining == locations,
            r.collected@.len() == 0,
            r.attempts_used == 0,
            r.max_retries == max_retries,
    {
        RefreshCycle { remaining: locations, collected: Vec::new(), attempts_used: 0, max_retries }
    }

    /// Whether the cycle is over: every location succeeded, or the retry
    /// budget is spent.
    pub open spec fn spec_done(&self) -> bool {
        self.remaining@.len() == 0 || self.attempts_used >= self.max_retries
    }

    /// Whether the cycle is over.
    pub fn is_done(&self) -> (r: bool)
        ensures
            r == self.spec_done(),
    {
        self.remaining.len() == 0 || self.attempts_used >= self.max_retries
    }

    /// The keys the next attempt should scrape.
    pub fn pending(&self) -> (r: &Vec<String>)
        ensures
            r == &self.remaining,
    {
        &self.remaining
    }

    /// Records an attempt whose scrape failed outright: the budget is
    /// spent, nothing else changes — the failure is contained.
    pub fn record_failure(&mut self)
        requires
            old(self).attempts_used < old(self).max_retries,
        ensures
            failure_step(*old(self), *final(self)),
    {
        self.attempts_used = self.attempts_used + 1;
    }

    /// Records an attempt that brought a batch of scraped locations: the
    /// batch is folded into the collection (newer data wins), and every
    /// key now covered leaves the pending list.
    pub fn record_success(&mut self, batch: Vec<LocationBookings>)
        requires
            old(self).attempts_used < old(self).max_retries,
        ensures
            success_step(*old(self), *final(self), locs_view(batch@)),
    {
        let ghost bv = locs_view(batch@);
        let ghost start = locs_view(self.collected@);
        let mut i: usize = 0;
        proof {
            assert(bv.skip(0) =~= bv);
        }
        while i < batch.len()
            invariant
                i <= batch.len(),
                bv == locs_view(batch@),
                start == locs_view(old(self).collected@),
                self.remaining == old(self).remaining,
                self.attempts_used == old(self).attempts_used,
                self.max_retries == old(self).max_retries,
                old(self).attempts_used < old(self).max_retries,
                merge_all(start, bv) == merge_all(locs_view(self.collected@), bv.skip(i as int)),
            decreases batch.len() - i,
        {
            let ghost cur = locs_view(self.collected@);
            proof {
                assert(bv.skip(i as int)[0] == bv[i as int]);
                assert(bv.skip(i as int).drop_first() =~= bv.skip(i as int + 1));
            }
            let item = batch[i].clone();
            proof {
                assert(item@ == bv[i as int]);
            }
            match find_loc_index(&self.collected, item.location.as_str()) {
                Some(k) => {
                    proof {
                        lemma_merge_one_update(cur, item@, k as int);
                    }
                    self.collected.set(k, item);
                    proof {
                        assert(locs_view(self.collected@) =~= cur.update(k as int, bv[i as int]));
                    }
                },
                None => {
                    proof {
                        lemma_merge_one_push(cur, item@);
                    }
                    self.collected.push(item);
                    proof {
                        assert(locs_view(self.collected@) =~= cur.push(bv[i as int]));
                    }
                },
            }
            i = i + 1;
        }
        proof {
            assert(bv.skip(batch@.len() as int) =~= Seq::<LocationView>::empty());
        }
        let ghost merged = locs_view(self.collected@);
        let ghost rem0 = strs_view(self.remaining@);
        let mut kept: Vec<String> = Vec::new();
        let mut j: usize = 0;
        proof {
            assert(rem0.skip(0) =~= rem0);
            assert(strs_view(kept@) =~= Seq::<Seq<char>>::empty());
        }
        while j < self.remaining.len()
            invariant
                j <= self.remaining.len(),
                rem0 == strs_view(self.remaining@),
                rem0 == strs_view(old(self).remaining@),
                merged == locs_view(self.collected@),
                merged == merge_all(locs_view(old(self).collected@), locs_view(batch@)),
                self.attempts_used == old(self).attempts_used,
                self.max_retries == old(self).max_retries,
                old(self).attempts_used < old(self).max_retries,
                prune(rem0, merged) == strs_view(kept@) + prune(rem0.skip(j as int), merged),
            decreases self.remaining.len() - j,
        {
            proof {
                assert(rem0.skip(j as int)[0] == rem0[j as int]);
                assert(rem0.skip(j as int).drop_first() =~= rem0.skip(j as int + 1));
            }
            let present = match find_loc_index(&self.collected, self.remaining[j].as_str()) {
                Some(_) => true,
                None => false,
            };
            proof {
                if present {
                    assert(has_loc(merged, rem0[j as int]));
                } else {
                    assert(!has_loc(merged, rem0[j as int]));
                }
            }
            if !present {
                let ghost before = strs_view(kept@);
                kept.push(self.remaining[j].clone());
                proof {
                    assert(strs_view(kept@) =~= before.push(rem0[j as int]));
                    assert(before + (seq![rem0[j as int]] + prune(rem0.skip(j as int + 1), merged))
                        =~= strs_view(kept@) + prune(rem0.skip(j as int + 1), merged));
                }
            }
            j = j + 1;
        }
        proof {
            assert(rem0.skip(self.remaining@.len() as int) =~= Seq::<Seq<char>>::empty());
            assert(strs_view(kept@) + Seq::<Seq<char>>::empty() =~= strs_view(kept@));
        }
        self.remaining = kept;
        self.attempts_used = self.attempts_used + 1;
    }

    /// Commits the cycle.  A cycle that collected nothing is a no-op — the
    /// previous snapshot is left standing; otherwise the collection
    /// replaces the snapshot wholesale.
    pub fn commit(self, store: &mut BookingManager) -> (committed: bool)
        requires
            old(store).wf(),
        ensures
            final(store).wf(),
            committed == (self.collected@.len() > 0),
            !committed ==> *final(store) == *old(store),
            committed ==> final(store).data@.results == clean_results(locs_view(self.collected@))
                && final(store).data@.last_updated is Some,
            final(store).background_running == old(store).background_running,
            final(store).auto_find_running == old(store).auto_find_running,
            final(store).auto_find_result == old(store).auto_find_result,
    {
        if self.collected.len() == 0 {
            false
        } else {
            store.update_data(self.collected);
            true
        }
    }
}

// ---------------------------------------------------------------------------
// Laws of the retry cycle.
// ---------------------------------------------------------------------------

/// Folding an item in covers exactly its key and what was covered before.
proof fn lemma_merge_one_covers(acc: Seq<LocationView>, item: LocationView, id: Seq<char>)
    ensures
        has_loc(merge_one(acc, item), id) <==> (has_loc(acc, id) || item.location == id),
    decreases acc.len(),
{
    if acc.len() == 0 {
        assert(merge_one(acc, item)[0] == item);
        if has_loc(acc, id) {
            let k = choose|k: int| 0 <= k < acc.len() && #[trigger] acc[k].location == id;
        }
    } else if acc[0].location == item.location {
        let m = merge_one(acc, item);
        assert(m == seq![item] + acc.drop_first());
        if has_loc(acc, id) {
            let k = choose|k: int| 0 <= k < acc.len() && #[trigger] acc[k].location == id;
            if k == 0 {
                assert(m[0].location == id);
            } else {
                assert(m[k] == acc[k]);
            }
        }
        if item.location == id {
            assert(m[0].location == id);
        }
        if has_loc(m, id) {
            let k = choose|k: int| 0 <= k < m.len() && #[trigger] m[k].location == id;
            if k == 0 {
            } else {
                assert(m[k] == acc[k]);
            }
        }
    } else {
        lemma_merge_one_covers(acc.drop_first(), item, id);
        let m = merge_one(acc, item);
        let mt = merge_one(acc.drop_first(), item);
        assert(m == seq![acc[0]] + mt);
        if has_loc(acc, id) {
            let k = choose|k: int| 0 <= k < acc.len() && #[trigger] acc[k].location == id;
            if k == 0 {
                assert(m[0].location == id);
            } else {
                assert(acc.drop_first()[k - 1].location == id);
                assert(has_loc(acc.drop_first(), id));
                let k2 = choose|k2: int|
                    0 <= k2 < mt.len() && #[trigger] mt[k2].location == id;
                assert(m[k2 + 1].location == id);
            }
        }
        if item.location == id {
            let k2 = choose|k2: int| 0 <= k2 < mt.len() && #[trigger] mt[k2].location == id;
            assert(m[k2 + 1].location == id);
        }
        if has_loc(m, id) {
            let k = choose|k: int| 0 <= k < m.len() && #[trigger] m[k].location == id;
            if k == 0 {
                assert(acc[0].location == id);
            } else {
                assert(mt[k - 1].location == id);
                assert(has_loc(mt, id));
                if has_loc(acc.drop_first(), id) {
                    let k3 = choose|k3: int|
                        0 <= k3 < acc.drop_first().len() && #[trigger] acc.drop_first()[k3].location
                            == id;
                    assert(acc[k3 + 1].location == id);
                }
            }
        }
    }
}

/// Folding a batch in covers exactly the batch's keys and what was covered
/// before.
proof fn lemma_merge_all_covers(acc: Seq<LocationView>, batch: Seq<LocationView>, id: Seq<char>)
    ensures
        has_loc(merge_all(acc, batch), id) <==> (has_loc(acc, id) || has_loc(batch, id)),
    decreases batch.len(),
{
    if batch.len() == 0 {
        if has_loc(batch, id) {
            let k = choose|k: int| 0 <= k < batch.len() && #[trigger] batch[k].location == id;
        }
    } else {
        lemma_merge_one_covers(acc, batch[0], id);
        lemma_merge_all_covers(merge_one(acc, batch[0]), batch.drop_first(), id);
        if has_loc(batch, id) {
            let k = choose|k: int| 0 <= k < batch.len() && #[trigger] batch[k].location == id;
            if k > 0 {
                assert(batch.drop_first()[k - 1].location == id);
                assert(has_loc(batch.drop_first(), id));
            }
        }
        if has_loc(batch.drop_first(), id) {
            let k = choose|k: int|
                0 <= k < batch.drop_first().len() && #[trigger] batch.drop_first()[k].location
                    == id;
            assert(batch[k + 1].location == id);
        }
    }
}

/// Law: a location whose data arrives in any attempt's batch is in the
/// cycle's collection afterwards — however many failed attempts came
/// before, since a failed attempt changes no collected data.
pub proof fn lemma_success_collects(
    pre: RefreshCycle,
    post: RefreshCycle,
    batch: Seq<LocationView>,
    id: Seq<char>,
)
    requires
        success_step(pre, post, batch),
        has_loc(batch, id),
    ensures
        has_loc(locs_view(post.collected@), id),
{
    lemma_merge_all_covers(locs_view(pre.collected@), batch, id);
}

/// Law: a failed attempt spends budget and nothing more: the pending list
/// and the collection stand exactly as they were.
pub proof fn lemma_failure_keeps_work(pre: RefreshCycle, post: RefreshCycle)
    requires
        failure_step(pre, post),
    ensures
        post.remaining == pre.remaining,
        post.collected == pre.collected,
        post.attempts_used == pre.attempts_used + 1,
{
}

/// Law: a cycle that spends its whole budget on failures is done, with
/// exactly the budget's worth of attempts made and nothing collected, so
/// every location of the cycle is absent from what a commit would write.
pub proof fn lemma_all_failures_collect_nothing(pre: RefreshCycle, post: RefreshCycle)
    requires
        failure_step(pre, post),
        pre.collected@.len() == 0,
        post.attempts_used == post.max_retries,
    ensures
        post.spec_done(),
        post.collected@.len() == 0,
{
}

/// Law: cleaning preserves which locations a snapshot covers.
pub proof fn lemma_clean_preserves_locations(rs: Seq<LocationView>, id: Seq<char>)
    ensures
        has_loc(clean_results(rs), id) <==> has_loc(rs, id),
{
    if has_loc(rs, id) {
        let k = choose|k: int| 0 <= k < rs.len() && #[trigger] rs[k].location == id;
        assert(clean_results(rs)[k].location == id);
    }
    if has_loc(clean_results(rs), id) {
        let k = choose|k: int|
            0 <= k < clean_results(rs).len() && #[trigger] clean_results(rs)[k].location == id;
        assert(rs[k].location == id);
    }
}

} // verus!
