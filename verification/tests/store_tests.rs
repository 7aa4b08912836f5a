use booking_cache::model::{BookingData, LocationBookings, TimeSlot};
use booking_cache::store::BookingManager;

fn slot(available: bool, number: Option<u32>, start: &str) -> TimeSlot {
    TimeSlot { availability: available, slot_number: number, start_time: start.to_string() }
}

fn location(id: &str, slots: Vec<TimeSlot>) -> LocationBookings {
    LocationBookings { location: id.to_string(), slots, next_available_date: None }
}

fn assert_slot_eq(a: &TimeSlot, b: &TimeSlot) {
    assert_eq!(a.availability, b.availability);
    assert_eq!(a.slot_number, b.slot_number);
    assert_eq!(a.start_time, b.start_time);
}

fn assert_location_eq(a: &LocationBookings, b: &LocationBookings) {
    assert_eq!(a.location, b.location);
    assert_eq!(a.slots.len(), b.slots.len());
    for (x, y) in a.slots.iter().zip(b.slots.iter()) {
        assert_slot_eq(x, y);
    }
    assert_eq!(a.next_available_date, b.next_available_date);
}

fn assert_data_eq(a: &BookingData, b: &BookingData) {
    assert_eq!(a.results.len(), b.results.len());
    for (x, y) in a.results.iter().zip(b.results.iter()) {
        assert_location_eq(x, y);
    }
    assert_eq!(a.last_updated, b.last_updated);
}

#[test]
fn fresh_store_is_empty_and_consistent() {
    let mgr = BookingManager::new();
    let (data, etag) = mgr.get_data();
    assert!(data.results.is_empty());
    assert!(data.last_updated.is_none());
    assert_eq!(etag, BookingData::default().calculate_hash());
    assert!(!mgr.get_background_status());
    assert!(!mgr.auto_find_running());
    assert!(mgr.last_auto_find_result().is_none());
}

#[test]
fn replace_filters_unavailable_and_stamps() {
    let mut mgr = BookingManager::new();
    mgr.update_data(vec![location(
        "Armidale",
        vec![
            slot(true, Some(1), "01/05/2025 08:30"),
            slot(false, Some(2), "01/05/2025 09:00"),
            slot(true, None, "02/05/2025 10:15"),
        ],
    )]);
    let (data, _etag) = mgr.get_data();
    assert!(!data.last_updated.as_deref().unwrap_or("").is_empty());
    assert_eq!(data.results.len(), 1);
    let loc = &data.results[0];
    assert_eq!(loc.location, "Armidale");
    assert_eq!(loc.slots.len(), 2);
    assert_eq!(loc.slots[0].start_time, "01/05/2025 08:30");
    assert_eq!(loc.slots[1].start_time, "02/05/2025 10:15");
    assert!(loc.slots.iter().all(|s| s.availability));
}

#[test]
fn replace_with_empty_set_empties_the_store() {
    let mut mgr = BookingManager::new();
    mgr.update_data(vec![location("Auburn", vec![slot(true, None, "01/05/2025 08:30")])]);
    assert_eq!(mgr.get_data().0.results.len(), 1);
    mgr.update_data(Vec::new());
    let (data, _) = mgr.get_data();
    assert!(data.results.is_empty());
    assert!(data.last_updated.is_some());
}

#[test]
fn fingerprint_changes_with_content_and_not_with_restamp() {
    let mut mgr = BookingManager::new();
    mgr.update_data(vec![location("Ballina", vec![slot(true, None, "01/05/2025 08:30")])]);
    let etag1 = mgr.get_data().1;
    mgr.update_date();
    let etag2 = mgr.get_data().1;
    assert_eq!(etag1, etag2);
    mgr.update_data(vec![location("Ballina", vec![slot(true, None, "03/05/2025 11:00")])]);
    let etag3 = mgr.get_data().1;
    assert_ne!(etag1, etag3);
}

#[test]
fn fingerprint_is_deterministic_for_equal_content() {
    let make = || {
        vec![location(
            "Hornsby",
            vec![slot(true, Some(4), "01/05/2025 08:30"), slot(true, None, "01/06/2025 09:00")],
        )]
    };
    let mut a = BookingManager::new();
    let mut b = BookingManager::new();
    a.update_data(make());
    b.update_data(make());
    assert_eq!(a.get_data().1, b.get_data().1);
}

#[test]
fn location_hash_is_deterministic() {
    let a = location("Finley", vec![slot(true, Some(7), "01/05/2025 08:30")]);
    let b = location("Finley", vec![slot(true, Some(7), "01/05/2025 08:30")]);
    assert_eq!(a.calculate_hash(), b.calculate_hash());
}

#[test]
fn lookup_by_location_returns_first_match_with_snapshot_etag() {
    let mut mgr = BookingManager::new();
    mgr.update_data(vec![
        location("Auburn", vec![slot(true, None, "01/05/2025 08:30")]),
        location("Ballina", vec![slot(true, None, "02/05/2025 09:00")]),
    ]);
    let etag = mgr.get_data().1;
    let (loc, loc_etag) = mgr.get_location_data("Ballina").expect("present");
    assert_eq!(loc.location, "Ballina");
    assert_eq!(loc_etag, etag, "per-location reads carry the whole-snapshot fingerprint");
    assert!(mgr.get_location_data("Nowhere").is_none());
}

#[test]
fn location_slots_come_back_in_reporting_order() {
    let mut mgr = BookingManager::new();
    mgr.update_data(vec![location(
        "Auburn",
        vec![slot(true, Some(2), "02/05/2025 09:00"), slot(true, Some(1), "01/05/2025 08:30")],
    )]);
    let slots = mgr.get_location_slots("Auburn").expect("present");
    assert_eq!(slots.len(), 2);
    assert_eq!(slots[0].start_time, "02/05/2025 09:00");
    assert_eq!(slots[1].start_time, "01/05/2025 08:30");
    assert!(mgr.get_location_slots("Nowhere").is_none());
}

#[test]
fn available_slots_flatten_across_locations() {
    let mut mgr = BookingManager::new();
    mgr.update_data(vec![
        location("Auburn", vec![slot(true, None, "01/05/2025 08:30")]),
        location(
            "Ballina",
            vec![slot(true, None, "02/05/2025 09:00"), slot(true, None, "03/05/2025 10:00")],
        ),
    ]);
    let pairs = mgr.get_available_slots();
    assert_eq!(pairs.len(), 3);
    assert_eq!(pairs[0].0, "Auburn");
    assert_eq!(pairs[0].1.start_time, "01/05/2025 08:30");
    assert_eq!(pairs[1].0, "Ballina");
    assert_eq!(pairs[1].1.start_time, "02/05/2025 09:00");
    assert_eq!(pairs[2].0, "Ballina");
    assert_eq!(pairs[2].1.start_time, "03/05/2025 10:00");
}

#[test]
fn save_then_load_restores_the_snapshot() {
    let mut mgr = BookingManager::new();
    mgr.update_data(vec![
        location("Armidale", vec![slot(true, Some(3), "01/05/2025 08:30")]),
        LocationBookings {
            location: "Ballina".to_string(),
            slots: vec![slot(true, None, "02/05/2025 09:00")],
            next_available_date: Some("02/05/2025".to_string()),
        },
    ]);
    let saved = mgr.save_contents();
    let before = mgr.get_data();

    let mut fresh = BookingManager::new();
    fresh.load_from_contents(Some(saved.as_str())).expect("round trip");
    let after = fresh.get_data();
    assert_data_eq(&before.0, &after.0);
    assert_eq!(before.1, after.1, "the fingerprint is recomputed to the same value");
}

#[test]
fn empty_snapshot_has_the_expected_persisted_form() {
    let mgr = BookingManager::new();
    assert_eq!(mgr.save_contents(), "0:0");
}

#[test]
fn load_of_absent_file_is_a_no_op() {
    let mut mgr = BookingManager::new();
    mgr.update_data(vec![location("Auburn", vec![slot(true, None, "01/05/2025 08:30")])]);
    let before = mgr.get_data();
    mgr.load_from_contents(None).expect("absence is not an error");
    let after = mgr.get_data();
    assert_data_eq(&before.0, &after.0);
    assert_eq!(before.1, after.1);
}

#[test]
fn load_of_garbage_fails_and_leaves_the_store_untouched() {
    let mut mgr = BookingManager::new();
    mgr.update_data(vec![location("Auburn", vec![slot(true, None, "01/05/2025 08:30")])]);
    let before = mgr.get_data();
    assert!(mgr.load_from_contents(Some("not a snapshot")).is_err());
    assert!(mgr.load_from_contents(Some("")).is_err());
    assert!(mgr.load_from_contents(Some("0:0trailing")).is_err());
    let after = mgr.get_data();
    assert_data_eq(&before.0, &after.0);
    assert_eq!(before.1, after.1);
}

#[test]
fn scheduler_start_is_idempotent() {
    let mut mgr = BookingManager::new();
    let mut loops_launched = 0;
    if mgr.start_background_updates() {
        loops_launched += 1;
    }
    if mgr.start_background_updates() {
        loops_launched += 1;
    }
    assert_eq!(loops_launched, 1, "a second start while running launches no second loop");
    assert!(mgr.get_background_status());
    mgr.stop_background_updates();
    assert!(!mgr.get_background_status());
    assert!(mgr.start_background_updates(), "a start after stop launches again");
}

#[test]
fn auto_find_start_is_idempotent_and_clears_result() {
    let mut mgr = BookingManager::new();
    assert!(mgr.start_auto_find());
    assert!(!mgr.start_auto_find());
    assert!(mgr.auto_find_running());
    mgr.stop_auto_find();
    assert!(!mgr.auto_find_running());
}
