//! The consumer query surface: conditional responses for the front end.
//!
//! A caller hands in the fingerprint it saw last; when it matches the
//! current one the answer is "unchanged" and no data is re-sent, otherwise
//! the full response comes back with the new fingerprint.

use vstd::prelude::*;
use crate::model::{LocationBookings, TimeSlot, SlotView, LocationView, opt_str_view, slots_view};
use crate::store::{BookingManager, StoreError, spec_lookup};
use crate::fingerprint::spec_etag;
use crate::autofind::{lex_le, str_eq, str_le, lemma_lex_le_total, lemma_lex_le_trans,
    lemma_lex_le_refl};

verus! {

/// The view of an optional slot.
pub open spec fn opt_slot_view(o: Option<TimeSlot>) -> Option<SlotView> {
    match o {
        Some(s) => Some(s@),
        None => None,
    }
}

/// What the earliest available slot of a run is: nothing when no slot is
/// available; otherwise an available slot whose start time precedes every
/// available slot's, and the first of that time in reporting order.
pub open spec fn spec_earliest(sv: Seq<SlotView>, o: Option<SlotView>) -> bool {
    match o {
        None => forall|j: int| 0 <= j < sv.len() ==> !(#[trigger] sv[j]).availability,
        Some(s) => {
            &&& s.availability
            &&& exists|j0: int|
                0 <= j0 < sv.len() && #[trigger] sv[j0] == s && (forall|j: int|
                    0 <= j < j0 ==> !((#[trigger] sv[j]).availability && sv[j].start_time
                        == s.start_time))
            &&& forall|j: int|
                0 <= j < sv.len() && (#[trigger] sv[j]).availability ==> lex_le(
                    s.start_time,
                    sv[j].start_time,
                )
        },
    }
}

/// One location as the front end lists it: its key and its earliest
/// available slot.
#[derive(Debug)]
pub struct LocationBookingViewModel {
    pub location: String,
    pub earliest_slot: Option<TimeSlot>,
}

/// The whole-listing response: one view model per location, the snapshot's
/// stamp, and the fingerprint for the next conditional request.
#[derive(Debug)]
pub struct BookingResponse {
    pub bookings: Vec<LocationBookingViewModel>,
    pub last_updated: Option<String>,
    pub etag: String,
}

/// One location's full detail: all its slots and the whole-snapshot
/// fingerprint.
#[derive(Debug)]
pub struct LocationDetailBookingResponse {
    pub location: String,
    pub slots: Vec<TimeSlot>,
    pub etag: String,
}

/// The earliest available slot of a run, by start-time order; of equal
/// times, the first reported.
pub fn earliest_available_slot(slots: &Vec<TimeSlot>) -> (r: Option<TimeSlot>)
    ensures
        spec_earliest(slots_view(slots@), opt_slot_view(r)),
{
    let ghost sv = slots_view(slots@);
    let mut best: Option<TimeSlot> = None;
    let ghost mut best_j: int = 0;
    let mut j: usize = 0;
    while j < slots.len()
        invariant
            j <= slots.len(),
            sv == slots_view(slots@),
            best is None ==> forall|j2: int| 0 <= j2 < j ==> !(#[trigger] sv[j2]).availability,
            best is Some ==> {
                &&& 0 <= best_j < j
                &&& sv[best_j] == best.unwrap()@
                &&& best.unwrap()@.availability
                &&& forall|j2: int|
                    0 <= j2 < best_j ==> !((#[trigger] sv[j2]).availability && sv[j2].start_time
                        == best.unwrap()@.start_time)
                &&& forall|j2: int|
                    0 <= j2 < j && (#[trigger] sv[j2]).availability ==> lex_le(
                        best.unwrap()@.start_time,
                        sv[j2].start_time,
                    )
            },
        decreases slots.len() - j,
    {
        let slot = &slots[j];
        proof {
            assert(sv[j as int] == slot@);
        }
        if slot.availability {
            let replace = match &best {
                None => true,
                Some(b) => !str_le(b.start_time.as_str(), slot.start_time.as_str()),
            };
            if replace {
                proof {
                    let tn = slot.start_time@;
                    if best is Some {
                        let bt = best.unwrap()@.start_time;
                        lemma_lex_le_total(bt, tn);
                        assert(lex_le(tn, bt));
                        assert forall|j2: int| 0 <= j2 < j && (#[trigger] sv[j2]).availability
                            implies lex_le(tn, sv[j2].start_time) by {
                            lemma_lex_le_trans(tn, bt, sv[j2].start_time);
                        }
                        assert forall|j2: int| 0 <= j2 < j implies !((#[trigger] sv[j2]).availability
                            && sv[j2].start_time == tn) by {
                            if sv[j2].availability && sv[j2].start_time == tn {
                                assert(lex_le(bt, tn));
                            }
                        }
                    }
                    lemma_lex_le_refl(tn);
                }
                best = Some(slot.clone());
                proof {
                    best_j = j as int;
                }
            }
        }
        j = j + 1;
    }
    best
}

/// The listing response, unless nothing changed since the fingerprint the
/// caller saw.
pub fn get_location_bookings(mgr: &BookingManager, client_etag: &str) -> (r: Option<
    BookingResponse,
>)
    requires
        mgr.wf(),
    ensures
        (r is None) <==> client_etag@ == spec_etag(mgr.data@.results),
        r is Some ==> {
            let lv = mgr.data@.results;
            &&& r.unwrap().etag@ == spec_etag(lv)
            &&& opt_str_view(r.unwrap().last_updated) == mgr.data@.last_updated
            &&& r.unwrap().bookings@.len() == lv.len()
            &&& forall|i: int|
                0 <= i < lv.len() ==> (#[trigger] r.unwrap().bookings@[i]).location@
                    == lv[i].location
            &&& forall|i: int|
                0 <= i < lv.len() ==> spec_earliest(
                    lv[i].slots,
                    opt_slot_view((#[trigger] r.unwrap().bookings@[i]).earliest_slot),
                )
        },
{
    if str_eq(client_etag, mgr.etag.as_str()) {
        return None;
    }
    let ghost lv = mgr.data@.results;
    let results = &mgr.data.results;
    let mut bookings: Vec<LocationBookingViewModel> = Vec::new();
    let mut i: usize = 0;
    while i < results.len()
        invariant
            mgr.wf(),
            i <= results.len(),
            results == &mgr.data.results,
            lv == mgr.data@.results,
            bookings@.len() == i,
            forall|k: int|
                0 <= k < i ==> (#[trigger] bookings@[k]).location@ == lv[k].location,
            forall|k: int|
                0 <= k < i ==> spec_earliest(
                    lv[k].slots,
                    opt_slot_view((#[trigger] bookings@[k]).earliest_slot),
                ),
        decreases results.len() - i,
    {
        let loc = &results[i];
        proof {
            assert(lv[i as int] == loc@);
        }
        let earliest = earliest_available_slot(&loc.slots);
        bookings.push(LocationBookingViewModel { location: loc.location.clone(), earliest_slot: earliest });
        i = i + 1;
    }
    let last_updated = match &mgr.data.last_updated {
        Some(d) => Some(d.clone()),
        None => None,
    };
    Some(BookingResponse { bookings, last_updated, etag: mgr.etag.clone() })
}

/// One location's detail, unless nothing changed since the fingerprint the
/// caller saw; an unknown location is an error.
pub fn get_location_details(mgr: &BookingManager, location_id: &str, client_etag: &str) -> (r:
    Result<Option<LocationDetailBookingResponse>, StoreError>)
    requires
        mgr.wf(),
    ensures
        ({
            match spec_lookup(mgr.data@.results, location_id@) {
                None => r == Err::<Option<LocationDetailBookingResponse>, StoreError>(
                    StoreError::LocationNotFound,
                ),
                Some(lv) => if client_etag@ == spec_etag(mgr.data@.results) {
                    r is Ok && r.unwrap() is None
                } else {
                    r is Ok && r.unwrap() is Some && r.unwrap().unwrap().location@ == lv.location
                        && slots_view(r.unwrap().unwrap().slots@) == lv.slots
                        && r.unwrap().unwrap().etag@ == spec_etag(mgr.data@.results)
                },
            }
        }),
{
    match mgr.get_location_data(location_id) {
        None => Err(StoreError::LocationNotFound),
        Some((loc, etag)) => {
            if str_eq(client_etag, etag.as_str()) {
                Ok(None)
            } else {
                Ok(
                    Some(
                        LocationDetailBookingResponse {
                            location: loc.location,
                            slots: loc.slots,
                            etag,
                        },
                    ),
                )
            }
        },
    }
}

} // verus!
