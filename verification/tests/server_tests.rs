use booking_cache::model::{LocationBookings, TimeSlot};
use booking_cache::server::{earliest_available_slot, get_location_bookings, get_location_details};
use booking_cache::store::{BookingManager, StoreError};

fn slot(available: bool, start: &str) -> TimeSlot {
    TimeSlot { availability: available, slot_number: None, start_time: start.to_string() }
}

fn location(id: &str, slots: Vec<TimeSlot>) -> LocationBookings {
    LocationBookings { location: id.to_string(), slots, next_available_date: None }
}

#[test]
fn earliest_slot_is_the_least_available_start_time() {
    let slots = vec![
        slot(true, "02/05/2025 09:00"),
        slot(false, "01/05/2025 07:00"),
        slot(true, "01/05/2025 08:30"),
    ];
    let earliest = earliest_available_slot(&slots).expect("something is available");
    assert_eq!(earliest.start_time, "01/05/2025 08:30");
    assert!(earliest_available_slot(&vec![slot(false, "01/05/2025 07:00")]).is_none());
    assert!(earliest_available_slot(&Vec::new()).is_none());
}

#[test]
fn listing_answers_unchanged_on_a_matching_fingerprint() {
    let mut mgr = BookingManager::new();
    mgr.update_data(vec![location("Auburn", vec![slot(true, "01/05/2025 08:30")])]);
    let etag = mgr.get_data().1;
    assert!(get_location_bookings(&mgr, etag.as_str()).is_none(), "nothing changed");
    let response = get_location_bookings(&mgr, "stale").expect("changed");
    assert_eq!(response.etag, etag);
    assert_eq!(response.bookings.len(), 1);
    assert_eq!(response.bookings[0].location, "Auburn");
    let earliest = response.bookings[0].earliest_slot.as_ref().expect("available");
    assert_eq!(earliest.start_time, "01/05/2025 08:30");
    assert_eq!(response.last_updated, mgr.get_data().0.last_updated);
}

#[test]
fn detail_answers_per_location_with_the_snapshot_fingerprint() {
    let mut mgr = BookingManager::new();
    mgr.update_data(vec![
        location("Auburn", vec![slot(true, "01/05/2025 08:30")]),
        location("Ballina", vec![slot(true, "02/05/2025 09:00")]),
    ]);
    let etag = mgr.get_data().1;
    let detail = get_location_details(&mgr, "Ballina", "stale")
        .expect("known location")
        .expect("changed");
    assert_eq!(detail.location, "Ballina");
    assert_eq!(detail.slots.len(), 1);
    assert_eq!(detail.etag, etag);

    let unchanged = get_location_details(&mgr, "Ballina", etag.as_str()).expect("known location");
    assert!(unchanged.is_none(), "a matching fingerprint sends no data");

    assert_eq!(
        get_location_details(&mgr, "Nowhere", "stale").unwrap_err(),
        StoreError::LocationNotFound
    );
}
