//! Data model: time slots, per-location availability, and the whole-system
//! snapshot value, together with their mathematical views.

use vstd::prelude::*;

verus! {

/// Mathematical view of a [`TimeSlot`].
pub struct SlotView {
    pub availability: bool,
    pub slot_number: Option<u32>,
    pub start_time: Seq<char>,
}

/// One offered appointment instant, as reported by the portal.
///
/// Two slots are the same appointment iff their `start_time` strings are
/// equal; `availability` and `slot_number` are not part of identity.
#[derive(Debug)]
pub struct TimeSlot {
    /// Whether the slot is currently bookable.
    pub availability: bool,
    /// Portal-assigned ordinal; may be absent.
    pub slot_number: Option<u32>,
    /// The portal's literal timestamp text, treated as an opaque ordered key.
    pub start_time: String,
}

impl View for TimeSlot {
    type V = SlotView;

    open spec fn view(&self) -> SlotView {
        SlotView {
            availability: self.availability,
            slot_number: self.slot_number,
            start_time: self.start_time@,
        }
    }
}

impl Clone for TimeSlot {
    fn clone(&self) -> (r: Self)
        ensures
            r@ == self@,
    {
        TimeSlot {
            availability: self.availability,
            slot_number: self.slot_number,
            start_time: self.start_time.clone(),
        }
    }
}

impl PartialEq for TimeSlot {
    /// Slot identity is the `start_time` key alone.
    fn eq(&self, other: &Self) -> (r: bool) {
        self.start_time == other.start_time
    }
}

impl vstd::std_specs::cmp::PartialEqSpecImpl for TimeSlot {
    open spec fn obeys_eq_spec() -> bool {
        true
    }

    open spec fn eq_spec(&self, other: &Self) -> bool {
        self.start_time@ == other.start_time@
    }
}

impl Eq for TimeSlot {}

/// Mathematical view of a [`LocationBookings`].
pub struct LocationView {
    pub location: Seq<char>,
    pub slots: Seq<SlotView>,
    pub next_available_date: Option<Seq<char>>,
}

/// The view of an optional string.
pub open spec fn opt_str_view(o: Option<String>) -> Option<Seq<char>> {
    match o {
        Some(s) => Some(s@),
        None => None,
    }
}

/// The views of a sequence of slots.
pub open spec fn slots_view(v: Seq<TimeSlot>) -> Seq<SlotView> {
    Seq::new(v.len(), |i: int| v[i]@)
}

/// The views of a sequence of locations.
pub open spec fn locs_view(v: Seq<LocationBookings>) -> Seq<LocationView> {
    Seq::new(v.len(), |i: int| v[i]@)
}

/// One location's current availability data.
#[derive(Debug)]
pub struct LocationBookings {
    /// Stable location key.
    pub location: String,
    /// Slots in the portal's reporting order; not necessarily sorted by time.
    pub slots: Vec<TimeSlot>,
    /// The portal's summary hint; informational only.
    pub next_available_date: Option<String>,
}

impl View for LocationBookings {
    type V = LocationView;

    open spec fn view(&self) -> LocationView {
        LocationView {
            location: self.location@,
            slots: slots_view(self.slots@),
            next_available_date: opt_str_view(self.next_available_date),
        }
    }
}

impl Clone for LocationBookings {
    fn clone(&self) -> (r: Self)
        ensures
            r@ == self@,
    {
        let mut slots: Vec<TimeSlot> = Vec::new();
        let mut i: usize = 0;
        while i < self.slots.len()
            invariant
                i <= self.slots.len(),
                slots@.len() == i,
                forall|k: int| 0 <= k < i ==> slots@[k]@ == #[trigger] self.slots@[k]@,
            decreases self.slots.len() - i,
        {
            slots.push(self.slots[i].clone());
            i = i + 1;
        }
        let r = LocationBookings {
            location: self.location.clone(),
            slots: slots,
            next_available_date: match &self.next_available_date {
                Some(d) => Some(d.clone()),
                None => None,
            },
        };
        proof {
            assert(slots_view(r.slots@) =~= slots_view(self.slots@));
        }
        r
    }
}

/// Mathematical view of a [`BookingData`].
pub struct SnapshotView {
    pub results: Seq<LocationView>,
    pub last_updated: Option<Seq<char>>,
}

/// The whole-system cache value: at most one entry per location.
///
/// A `BookingData` is immutable once constructed; every update produces a
/// new value, which is what makes concurrent reads safe without per-read
/// locking of nested structures.
#[derive(Debug)]
pub struct BookingData {
    pub results: Vec<LocationBookings>,
    /// Set whenever the snapshot's content is replaced.
    pub last_updated: Option<String>,
}

impl View for BookingData {
    type V = SnapshotView;

    open spec fn view(&self) -> SnapshotView {
        SnapshotView {
            results: locs_view(self.results@),
            last_updated: opt_str_view(self.last_updated),
        }
    }
}

impl Clone for BookingData {
    fn clone(&self) -> (r: Self)
        ensures
            r@ == self@,
    {
        let mut results: Vec<LocationBookings> = Vec::new();
        let mut i: usize = 0;
        while i < self.results.len()
            invariant
                i <= self.results.len(),
                results@.len() == i,
                forall|k: int| 0 <= k < i ==> results@[k]@ == #[trigger] self.results@[k]@,
            decreases self.results.len() - i,
        {
            results.push(self.results[i].clone());
            i = i + 1;
        }
        let r = BookingData {
            results: results,
            last_updated: match &self.last_updated {
                Some(d) => Some(d.clone()),
                None => None,
            },
        };
        proof {
            assert(locs_view(r.results@) =~= locs_view(self.results@));
        }
        r
    }
}

impl Default for BookingData {
    fn default() -> (r: Self)
        ensures
            r@.results.len() == 0,
            r@.last_updated is None,
    {
        BookingData { results: Vec::new(), last_updated: None }
    }
}

/// Scrape configuration shared by the orchestrator and the control loops.
#[derive(Clone, Debug)]
pub struct Settings {
    pub headless: bool,
    /// Booking reference number used when managing an existing booking.
    pub booking_id: String,
    /// Last name associated with the booking.
    pub last_name: String,
    pub have_booking: bool,
    pub selenium_driver_url: String,
    pub selenium_element_timout: u64,
    pub selenium_element_polling: u64,
    /// Per-cycle retry budget for the scrape of a location batch.
    pub retries: u64,
    /// How often the background loop refreshes, in minutes.
    pub scrape_refresh_minutes: u64,
}


/// The environment-variable name a `${NAME}` placeholder carries, when the
/// text has exactly that shape.
pub open spec fn spec_env_placeholder(s: Seq<char>) -> Option<Seq<char>> {
    if s.len() >= 3 && s[0] == '$' && s[1] == '{' && s[s.len() - 1] == '}' {
        Some(s.subrange(2, s.len() - 1))
    } else {
        None
    }
}

/// Recognizes a `${NAME}` placeholder in a configuration value and hands
/// back the name to look up; any other text is a plain value.
pub fn env_placeholder(value: &str) -> (r: Option<String>)
    ensures
        ({
            match spec_env_placeholder(value@) {
                Some(n) => r is Some && r.unwrap()@ == n,
                None => r is None,
            }
        }),
{
    let len = value.unicode_len();
    if len < 3 {
        return None;
    }
    if value.get_char(0) == '$' && value.get_char(1) == '{' && value.get_char(len - 1) == '}' {
        let name = value.substring_char(2, len - 1);
        Some(String::from_str(name))
    } else {
        None
    }
}

} // verus!
