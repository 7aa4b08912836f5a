//! The snapshot store: the single source of truth for what the system
//! currently believes is available, together with the idempotent running
//! flags of the background refresh loop and of the auto-find loop.
//!
//! All mutation goes through `update_data`, `update_date` and
//! `load_from_contents`; every update recomputes the fingerprint, so a
//! reader always gets a snapshot and the fingerprint computed from it.

use vstd::prelude::*;
use crate::model::{
    BookingData, LocationBookings, TimeSlot, SlotView, LocationView, SnapshotView, slots_view,
    locs_view,
};
use crate::fingerprint::{spec_etag, fingerprint_results};
use crate::codec::{
    enc_snapshot, spec_parse_snapshot, encode_snapshot, decode_snapshot, lemma_parse_snapshot_enc,
};
use crate::numeral::u64_to_string;
use crate::clock::now_rfc3339;
use crate::dates::CalendarDate;
use crate::autofind::{
    find_first_candidate, qualifies, slot_at, in_range, has_winning_slot, lex_le, str_eq,
};

verus! {

/// What can go wrong inside the store.
#[derive(Debug, PartialEq, Eq, Structural)]
pub enum StoreError {
    /// The persisted text is not a snapshot of the owned format.
    Deserialization,
    /// No location with the requested key is in the snapshot.
    LocationNotFound,
}

// ---------------------------------------------------------------------------
// Cleaning: the cache never retains known-unavailable slots.
// ---------------------------------------------------------------------------

/// The available slots of a run, in order.
pub open spec fn avail_filter(s: Seq<SlotView>) -> Seq<SlotView>
    decreases s.len(),
{
    if s.len() == 0 {
        Seq::empty()
    } else if s[0].availability {
        seq![s[0]] + avail_filter(s.drop_first())
    } else {
        avail_filter(s.drop_first())
    }
}

/// One location with its unavailable slots removed.
pub open spec fn clean_loc(l: LocationView) -> LocationView {
    LocationView {
        location: l.location,
        slots: avail_filter(l.slots),
        next_available_date: l.next_available_date,
    }
}

/// Every location with its unavailable slots removed.
pub open spec fn clean_results(rs: Seq<LocationView>) -> Seq<LocationView> {
    Seq::new(rs.len(), |i: int| clean_loc(rs[i]))
}

/// Keeps only the available slots of one location's run.
fn filter_available(slots: &Vec<TimeSlot>) -> (r: Vec<TimeSlot>)
    ensures
        slots_view(r@) == avail_filter(slots_view(slots@)),
{
    let ghost sv = slots_view(slots@);
    let mut out: Vec<TimeSlot> = Vec::new();
    let mut j: usize = 0;
    proof {
        assert(sv.skip(0) =~= sv);
        assert(slots_view(out@) =~= Seq::<SlotView>::empty());
    }
    while j < slots.len()
        invariant
            j <= slots.len(),
            sv == slots_view(slots@),
            avail_filter(sv) == slots_view(out@) + avail_filter(sv.skip(j as int)),
        decreases slots.len() - j,
    {
        proof {
            assert(sv.skip(j as int)[0] == sv[j as int]);
            assert(sv.skip(j as int).drop_first() =~= sv.skip(j as int + 1));
        }
        if slots[j].availability {
            let ghost before = slots_view(out@);
            out.push(slots[j].clone());
            proof {
                assert(slots_view(out@) =~= before.push(sv[j as int]));
                assert(before + (seq![sv[j as int]] + avail_filter(sv.skip(j as int + 1)))
                    =~= slots_view(out@) + avail_filter(sv.skip(j as int + 1)));
            }
        }
        j = j + 1;
    }
    proof {
        assert(sv.skip(slots@.len() as int) =~= Seq::<SlotView>::empty());
        assert(slots_view(out@) + Seq::<SlotView>::empty() =~= slots_view(out@));
    }
    out
}

/// Removes every known-unavailable slot from each location's run: such
/// slots are pure noise once superseded.
pub fn clean_data(results: Vec<LocationBookings>) -> (r: Vec<LocationBookings>)
    ensures
        locs_view(r@) == clean_results(locs_view(results@)),
{
    let ghost lv = locs_view(results@);
    let mut out: Vec<LocationBookings> = Vec::new();
    let mut i: usize = 0;
    while i < results.len()
        invariant
            i <= results.len(),
            lv == locs_view(results@),
            out@.len() == i,
            forall|k: int| 0 <= k < i ==> #[trigger] out@[k]@ == clean_loc(lv[k]),
        decreases results.len() - i,
    {
        let loc = &results[i];
        let cleaned = LocationBookings {
            location: loc.location.clone(),
            slots: filter_available(&loc.slots),
            next_available_date: match &loc.next_available_date {
                Some(d) => Some(d.clone()),
                None => None,
            },
        };
        proof {
            assert(cleaned@ == clean_loc(lv[i as int]));
        }
        out.push(cleaned);
        i = i + 1;
    }
    proof {
        assert(locs_view(out@) =~= clean_results(lv));
    }
    out
}

// ---------------------------------------------------------------------------
// Read-only queries over the results.
// ---------------------------------------------------------------------------

/// The first location with the given key, if any.
pub open spec fn spec_lookup(results: Seq<LocationView>, id: Seq<char>) -> Option<LocationView>
    decreases results.len(),
{
    if results.len() == 0 {
        None
    } else if results[0].location == id {
        Some(results[0])
    } else {
        spec_lookup(results.drop_first(), id)
    }
}

/// Every `(location, slot)` pair of one location whose slot is available,
/// in reporting order.
pub open spec fn avail_pairs_of(id: Seq<char>, slots: Seq<SlotView>) -> Seq<(Seq<char>, SlotView)>
    decreases slots.len(),
{
    if slots.len() == 0 {
        Seq::empty()
    } else if slots[0].availability {
        seq![(id, slots[0])] + avail_pairs_of(id, slots.drop_first())
    } else {
        avail_pairs_of(id, slots.drop_first())
    }
}

/// Every available `(location, slot)` pair, flattened across all locations
/// in order.
pub open spec fn avail_pairs(results: Seq<LocationView>) -> Seq<(Seq<char>, SlotView)>
    decreases results.len(),
{
    if results.len() == 0 {
        Seq::empty()
    } else {
        avail_pairs_of(results[0].location, results[0].slots) + avail_pairs(results.drop_first())
    }
}

/// The views of a sequence of `(location, slot)` pairs.
pub open spec fn pairs_view(v: Seq<(String, TimeSlot)>) -> Seq<(Seq<char>, SlotView)> {
    Seq::new(v.len(), |i: int| (v[i].0@, v[i].1@))
}


// ---------------------------------------------------------------------------
// The manager: snapshot, fingerprint, and the two running flags.
// ---------------------------------------------------------------------------

/// The view of an optional `(location, start time)` pair.
pub open spec fn opt_pair_view(o: Option<(String, String)>) -> Option<(Seq<char>, Seq<char>)> {
    match o {
        Some(p) => Some((p.0@, p.1@)),
        None => None,
    }
}

/// The booking cache: the current snapshot with its fingerprint, and the
/// running flags of the background refresh loop and the auto-find loop.
pub struct BookingManager {
    /// The authoritative snapshot.
    pub data: BookingData,
    /// The fingerprint of `data`'s availability content, as text.
    pub etag: String,
    /// Whether a background refresh loop is active.
    pub background_running: bool,
    /// Whether an auto-find loop is active.
    pub auto_find_running: bool,
    /// The winning `(location, start time)` pair of the last auto-find run.
    pub auto_find_result: Option<(String, String)>,
}

/// What a successful `start_background_updates` call does: the flag is on
/// afterwards, a new loop is launched exactly when none was running, and
/// nothing else changes.
pub open spec fn start_background_transition(
    pre: BookingManager,
    post: BookingManager,
    launch: bool,
) -> bool {
    &&& post.background_running == true
    &&& launch == !pre.background_running
    &&& post.data == pre.data
    &&& post.etag == pre.etag
    &&& post.auto_find_running == pre.auto_find_running
    &&& post.auto_find_result == pre.auto_find_result
}

/// What a `start_auto_find` call does: the flag is on afterwards, a new
/// loop is launched exactly when none was running, a launch clears the
/// previous result, and nothing else changes.
pub open spec fn start_auto_transition(
    pre: BookingManager,
    post: BookingManager,
    launch: bool,
) -> bool {
    &&& post.auto_find_running == true
    &&& launch == !pre.auto_find_running
    &&& post.auto_find_result == (if launch {
        None::<(String, String)>
    } else {
        pre.auto_find_result
    })
    &&& post.data == pre.data
    &&& post.etag == pre.etag
    &&& post.background_running == pre.background_running
}

impl BookingManager {
    /// The store is well-formed when the fingerprint it hands out is the
    /// fingerprint of the snapshot it holds: a reader never sees a pair
    /// computed from two different snapshots.
    pub open spec fn wf(&self) -> bool {
        self.etag@ == spec_etag(self.data@.results)
    }

    /// A fresh store: an empty snapshot, no stamp, nothing running.
    pub fn new() -> (r: Self)
        ensures
            r.wf(),
            r.data@.results.len() == 0,
            r.data@.last_updated is None,
            !r.background_running,
            !r.auto_find_running,
            r.auto_find_result is None,
    {
        let data = BookingData::default();
        let etag = data.calculate_hash();
        BookingManager {
            data,
            etag,
            background_running: false,
            auto_find_running: false,
            auto_find_result: None,
        }
    }

    /// The current snapshot with the fingerprint computed from it.
    pub fn get_data(&self) -> (r: (BookingData, String))
        requires
            self.wf(),
        ensures
            r.0@ == self.data@,
            r.1@ == spec_etag(self.data@.results),
    {
        (self.data.clone(), self.etag.clone())
    }

    /// One location's data, with the whole-snapshot fingerprint, so that a
    /// client still notices when anything changed.
    pub fn get_location_data(&self, location_id: &str) -> (r: Option<(LocationBookings, String)>)
        requires
            self.wf(),
        ensures
            ({
                match spec_lookup(self.data@.results, location_id@) {
                    Some(lv) => r is Some && r.unwrap().0@ == lv && r.unwrap().1@ == spec_etag(
                        self.data@.results,
                    ),
                    None => r is None,
                }
            }),
    {
        let ghost lv = locs_view(self.data.results@);
        let results = &self.data.results;
        let mut i: usize = 0;
        proof {
            assert(lv.skip(0) =~= lv);
        }
        while i < results.len()
            invariant
                self.wf(),
                i <= results.len(),
                lv == locs_view(results@),
                results == &self.data.results,
                spec_lookup(lv, location_id@) == spec_lookup(lv.skip(i as int), location_id@),
            decreases results.len() - i,
        {
            proof {
                assert(lv.skip(i as int)[0] == lv[i as int]);
                assert(lv.skip(i as int).drop_first() =~= lv.skip(i as int + 1));
            }
            if str_eq(results[i].location.as_str(), location_id) {
                proof {
                    assert(lv[i as int].location == results@[i as int].location@);
                    assert(spec_lookup(lv.skip(i as int), location_id@) == Some(lv[i as int]));
                    assert(self.data@.results == lv);
                    assert(spec_lookup(self.data@.results, location_id@) == Some(lv[i as int]));
                }
                let loc_c = results[i].clone();
                let etag_c = self.etag.clone();
                proof {
                    assert(lv[i as int] == results@[i as int]@);
                    assert(loc_c@ == results@[i as int]@);
                    assert(etag_c@ == spec_etag(self.data@.results));
                }
                return Some((loc_c, etag_c));
            }
            i = i + 1;
        }
        proof {
            assert(lv.skip(results@.len() as int) =~= Seq::<LocationView>::empty());
            assert(spec_lookup(lv.skip(results@.len() as int), location_id@) is None);
            assert(self.data@.results == lv);
            assert(spec_lookup(self.data@.results, location_id@) is None);
        }
        None
    }

    /// One location's slots, in reporting order.
    pub fn get_location_slots(&self, location_code: &str) -> (r: Option<Vec<TimeSlot>>)
        requires
            self.wf(),
        ensures
            ({
                match spec_lookup(self.data@.results, location_code@) {
                    Some(lv) => r is Some && slots_view(r.unwrap()@) == lv.slots,
                    None => r is None,
                }
            }),
    {
        match self.get_location_data(location_code) {
            Some((loc, _etag)) => Some(loc.slots),
            None => None,
        }
    }

    /// Every available `(location, slot)` pair, flattened across all
    /// locations.
    pub fn get_available_slots(&self) -> (r: Vec<(String, TimeSlot)>)
        requires
            self.wf(),
        ensures
            pairs_view(r@) == avail_pairs(self.data@.results),
    {
        let ghost lv = locs_view(self.data.results@);
        let results = &self.data.results;
        let mut out: Vec<(String, TimeSlot)> = Vec::new();
        let mut i: usize = 0;
        proof {
            assert(lv.skip(0) =~= lv);
            assert(pairs_view(out@) =~= Seq::<(Seq<char>, SlotView)>::empty());
        }
        while i < results.len()
            invariant
                i <= results.len(),
                lv == locs_view(results@),
                results == &self.data.results,
                avail_pairs(lv) == pairs_view(out@) + avail_pairs(lv.skip(i as int)),
            decreases results.len() - i,
        {
            let loc = &results[i];
            let ghost id = loc.location@;
            let ghost sv = slots_view(loc.slots@);
            proof {
                assert(lv.skip(i as int)[0] == lv[i as int]);
                assert(lv.skip(i as int).drop_first() =~= lv.skip(i as int + 1));
                assert(sv.skip(0) =~= sv);
            }
            let mut j: usize = 0;
            while j < loc.slots.len()
                invariant
                    j <= loc.slots.len(),
                    i < results.len(),
                    lv == locs_view(results@),
                    loc == &results@[i as int],
                    id == loc.location@,
                    sv == slots_view(loc.slots@),
                    avail_pairs(lv) == pairs_view(out@) + avail_pairs_of(id, sv.skip(j as int))
                        + avail_pairs(lv.skip(i as int + 1)),
                decreases loc.slots.len() - j,
            {
                proof {
                    assert(sv.skip(j as int)[0] == sv[j as int]);
                    assert(sv.skip(j as int).drop_first() =~= sv.skip(j as int + 1));
                }
                if loc.slots[j].availability {
                    let ghost before = pairs_view(out@);
                    out.push((loc.location.clone(), loc.slots[j].clone()));
                    proof {
                        assert(pairs_view(out@) =~= before.push((id, sv[j as int])));
                        assert(before + (seq![(id, sv[j as int])] + avail_pairs_of(
                            id,
                            sv.skip(j as int + 1),
                        )) =~= pairs_view(out@) + avail_pairs_of(id, sv.skip(j as int + 1)));
                    }
                }
                j = j + 1;
            }
            proof {
                assert(sv.skip(loc.slots@.len() as int) =~= Seq::<SlotView>::empty());
                assert(avail_pairs_of(id, Seq::<SlotView>::empty()) =~= Seq::<
                    (Seq<char>, SlotView),
                >::empty());
                assert(pairs_view(out@) + Seq::<(Seq<char>, SlotView)>::empty() =~= pairs_view(
                    out@,
                ));
            }
            i = i + 1;
        }
        proof {
            assert(lv.skip(results@.len() as int) =~= Seq::<LocationView>::empty());
            assert(pairs_view(out@) + Seq::<(Seq<char>, SlotView)>::empty() =~= pairs_view(out@));
        }
        out
    }

    /// Replaces the snapshot: the only mutation entry point for scraped
    /// results.  Unavailable slots are dropped, the stamp is set to now,
    /// and the fingerprint is recomputed, atomically from a reader's point
    /// of view.
    pub fn update_data(&mut self, new_results: Vec<LocationBookings>)
        requires
            old(self).wf(),
        ensures
            final(self).wf(),
            final(self).data@.results == clean_results(locs_view(new_results@)),
            final(self).data@.last_updated is Some,
            final(self).background_running == old(self).background_running,
            final(self).auto_find_running == old(self).auto_find_running,
            final(self).auto_find_result == old(self).auto_find_result,
    {
        let cleaned = clean_data(new_results);
        let etag = u64_to_string(fingerprint_results(&cleaned));
        let stamp = now_rfc3339();
        self.data = BookingData { results: cleaned, last_updated: Some(stamp) };
        self.etag = etag;
    }

    /// Re-stamps the snapshot without touching its content.  The
    /// fingerprint covers content alone, so it stays what it was.
    pub fn update_date(&mut self)
        requires
            old(self).wf(),
        ensures
            final(self).wf(),
            final(self).data@.results == old(self).data@.results,
            final(self).data@.last_updated is Some,
            final(self).etag == old(self).etag,
            final(self).background_running == old(self).background_running,
            final(self).auto_find_running == old(self).auto_find_running,
            final(self).auto_find_result == old(self).auto_find_result,
    {
        let stamp = now_rfc3339();
        self.data = BookingData { results: self.data.results.clone(), last_updated: Some(stamp) };
        proof {
            assert(locs_view(final(self).data.results@) =~= locs_view(old(self).data.results@));
        }
    }

    /// The persisted form of the current snapshot, for the caller to write
    /// to storage whole.
    pub fn save_contents(&self) -> (r: String)
        ensures
            r@ == enc_snapshot(self.data@),
    {
        encode_snapshot(&self.data)
    }

    /// Replaces the snapshot with a persisted one.  An absent file is not
    /// an error: the empty or current snapshot stands.  A text that is not
    /// a snapshot of the owned format is rejected and the current snapshot
    /// stays untouched.
    pub fn load_from_contents(&mut self, contents: Option<&str>) -> (r: Result<(), StoreError>)
        requires
            old(self).wf(),
        ensures
            final(self).wf(),
            final(self).background_running == old(self).background_running,
            final(self).auto_find_running == old(self).auto_find_running,
            final(self).auto_find_result == old(self).auto_find_result,
            ({
                match contents {
                    None => r is Ok && *final(self) == *old(self),
                    Some(text) => match spec_parse_snapshot(text@) {
                        Some((v, used)) => if used == text@.len() {
                            r is Ok && final(self).data@ == v && final(self).etag@ == spec_etag(
                                v.results,
                            )
                        } else {
                            r == Err::<(), StoreError>(StoreError::Deserialization) && *final(self)
                                == *old(self)
                        },
                        None => r == Err::<(), StoreError>(StoreError::Deserialization)
                            && *final(self) == *old(self),
                    },
                }
            }),
    {
        match contents {
            None => Ok(()),
            Some(text) => match decode_snapshot(text) {
                Some(decoded) => {
                    let etag = u64_to_string(fingerprint_results(&decoded.results));
                    self.data = decoded;
                    self.etag = etag;
                    Ok(())
                },
                None => Err(StoreError::Deserialization),
            },
        }
    }

    /// Flips the background loop on; reports whether the caller must
    /// launch a loop.  Starting while already running is a no-op.
    pub fn start_background_updates(&mut self) -> (launch: bool)
        ensures
            start_background_transition(*old(self), *final(self), launch),
    {
        let launch = !self.background_running;
        self.background_running = true;
        launch
    }

    /// Flips the background loop off.  The loop observes the flag at
    /// iteration boundaries and then exits.
    pub fn stop_background_updates(&mut self)
        ensures
            final(self).background_running == false,
            final(self).data == old(self).data,
            final(self).etag == old(self).etag,
            final(self).auto_find_running == old(self).auto_find_running,
            final(self).auto_find_result == old(self).auto_find_result,
    {
        self.background_running = false;
    }

    /// Whether a background refresh loop is active.
    pub fn get_background_status(&self) -> (r: bool)
        ensures
            r == self.background_running,
    {
        self.background_running
    }

    /// Flips the auto-find loop on; reports whether the caller must launch
    /// a loop.  A launch clears the previous result; starting while
    /// already running is a no-op.
    pub fn start_auto_find(&mut self) -> (launch: bool)
        ensures
            start_auto_transition(*old(self), *final(self), launch),
    {
        let launch = !self.auto_find_running;
        if launch {
            self.auto_find_result = None;
        }
        self.auto_find_running = true;
        launch
    }

    /// Flips the auto-find loop off.
    pub fn stop_auto_find(&mut self)
        ensures
            final(self).auto_find_running == false,
            final(self).data == old(self).data,
            final(self).etag == old(self).etag,
            final(self).background_running == old(self).background_running,
            final(self).auto_find_result == old(self).auto_find_result,
    {
        self.auto_find_running = false;
    }

    /// Whether an auto-find loop is active.
    pub fn auto_find_running(&self) -> (r: bool)
        ensures
            r == self.auto_find_running,
    {
        self.auto_find_running
    }

    /// The winning pair of the last auto-find run, if one finished.
    pub fn last_auto_find_result(&self) -> (r: &Option<(String, String)>)
        ensures
            r == &self.auto_find_result,
    {
        &self.auto_find_result
    }

    /// One auto-find step: judges one cycle's results against the
    /// deadline.  On a winner, records it and halts the loop; otherwise
    /// the loop goes on.  The winner is the earliest qualifying start time,
    /// and among locations reporting it, the first in input order.
    pub fn auto_find_step(
        &mut self,
        results: &Vec<LocationBookings>,
        deadline: &CalendarDate,
    ) -> (r: Option<(String, String)>)
        ensures
            final(self).data == old(self).data,
            final(self).etag == old(self).etag,
            final(self).background_running == old(self).background_running,
            r is None ==> final(self).auto_find_running == old(self).auto_find_running
                && final(self).auto_find_result == old(self).auto_find_result,
            r is Some ==> final(self).auto_find_running == false && opt_pair_view(
                final(self).auto_find_result,
            ) == opt_pair_view(r),
            ({
                let lv = locs_view(results@);
                &&& r is None ==> forall|i: int, j: int|
                    in_range(lv, i, j) ==> !qualifies(#[trigger] slot_at(lv, i, j), *deadline)
                &&& r is Some ==> forall|i: int, j: int|
                    in_range(lv, i, j) && qualifies(#[trigger] slot_at(lv, i, j), *deadline)
                        ==> lex_le(r.unwrap().1@, slot_at(lv, i, j).start_time)
                &&& r is Some ==> exists|i0: int|
                    0 <= i0 < lv.len() && #[trigger] has_winning_slot(
                        lv,
                        *deadline,
                        i0,
                        r.unwrap().1@,
                    ) && lv[i0].location == r.unwrap().0@ && (forall|i: int|
                        0 <= i < i0 ==> !has_winning_slot(lv, *deadline, i, r.unwrap().1@))
            }),
    {
        let cand = find_first_candidate(results, deadline);
        match &cand {
            Some(pair) => {
                self.auto_find_result = Some((pair.0.clone(), pair.1.clone()));
                self.auto_find_running = false;
            },
            None => {},
        }
        cand
    }
}

// ---------------------------------------------------------------------------
// Laws of the control surface.
// ---------------------------------------------------------------------------


/// Law: loading what was saved restores the snapshot.  `save_contents`
/// renders exactly `enc_snapshot` of the held snapshot, and on that text
/// `load_from_contents` succeeds and installs exactly the snapshot that was
/// saved.
pub proof fn lemma_save_load_round_trip(saved: SnapshotView)
    ensures
        ({
            match spec_parse_snapshot(enc_snapshot(saved)) {
                Some((v, used)) => v == saved && used == enc_snapshot(saved).len(),
                None => false,
            }
        }),
{
    lemma_parse_snapshot_enc(saved);
}

/// Law: starting the background loop is idempotent.  After any start, a
/// second start launches no second loop and leaves the state exactly as it
/// was.
pub proof fn lemma_start_background_idempotent(
    a: BookingManager,
    b: BookingManager,
    l1: bool,
    c: BookingManager,
    l2: bool,
)
    requires
        start_background_transition(a, b, l1),
        start_background_transition(b, c, l2),
    ensures
        !l2,
        c == b,
{
}

/// Law: starting the auto-find loop is idempotent in the same way.
pub proof fn lemma_start_auto_idempotent(
    a: BookingManager,
    b: BookingManager,
    l1: bool,
    c: BookingManager,
    l2: bool,
)
    requires
        start_auto_transition(a, b, l1),
        start_auto_transition(b, c, l2),
    ensures
        !l2,
        c == b,
{
}

} // verus!
