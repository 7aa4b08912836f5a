use booking_cache::model::{LocationBookings, TimeSlot};
use booking_cache::dates::{parse_iso_date, parse_portal_datetime, CalendarDate};
use booking_cache::autofind::{find_first_candidate, slot_qualifies, str_eq, str_le};
use booking_cache::store::BookingManager;

fn slot(available: bool, start: &str) -> TimeSlot {
    TimeSlot { availability: available, slot_number: None, start_time: start.to_string() }
}

fn location(id: &str, slots: Vec<TimeSlot>) -> LocationBookings {
    LocationBookings { location: id.to_string(), slots, next_available_date: None }
}

fn deadline(iso: &str) -> CalendarDate {
    parse_iso_date(iso).expect("a real date")
}

#[test]
fn tie_break_prefers_the_earlier_start_time() {
    let results = vec![
        location("Auburn", vec![slot(true, "01/05/2025 09:00")]),
        location("Ballina", vec![slot(true, "01/05/2025 08:30")]),
    ];
    let found = find_first_candidate(&results, &deadline("2025-06-01")).expect("a winner");
    assert_eq!(found.0, "Ballina");
    assert_eq!(found.1, "01/05/2025 08:30");
}

#[test]
fn tie_break_on_equal_times_prefers_input_order() {
    let results = vec![
        location("Auburn", vec![slot(true, "01/05/2025 08:30")]),
        location("Ballina", vec![slot(true, "01/05/2025 08:30")]),
    ];
    let found = find_first_candidate(&results, &deadline("2025-06-01")).expect("a winner");
    assert_eq!(found.0, "Auburn");
}

#[test]
fn slot_after_deadline_never_qualifies() {
    let results = vec![location("Auburn", vec![slot(true, "02/06/2025 08:30")])];
    assert!(find_first_candidate(&results, &deadline("2025-06-01")).is_none());
    assert!(!slot_qualifies(&slot(true, "02/06/2025 08:30"), &deadline("2025-06-01")));
}

#[test]
fn deadline_day_itself_qualifies() {
    let results = vec![location("Auburn", vec![slot(true, "01/06/2025 23:59")])];
    let found = find_first_candidate(&results, &deadline("2025-06-01")).expect("on the day");
    assert_eq!(found.1, "01/06/2025 23:59");
}

#[test]
fn unavailable_and_unparsable_slots_do_not_qualify() {
    let results = vec![
        location("Auburn", vec![slot(false, "01/05/2025 08:30")]),
        location("Ballina", vec![slot(true, "sometime soon")]),
    ];
    assert!(find_first_candidate(&results, &deadline("2025-06-01")).is_none());
}

#[test]
fn auto_find_step_records_the_winner_and_halts() {
    let mut mgr = BookingManager::new();
    assert!(mgr.start_auto_find());
    let results = vec![
        location("Auburn", vec![slot(true, "01/05/2025 09:00")]),
        location("Ballina", vec![slot(true, "01/05/2025 08:30")]),
    ];
    let won = mgr.auto_find_step(&results, &deadline("2025-06-01"));
    let won = won.expect("a winner");
    assert_eq!(won.0, "Ballina");
    assert_eq!(won.1, "01/05/2025 08:30");
    assert!(!mgr.auto_find_running(), "the loop halts on success");
    let recorded = mgr.last_auto_find_result().clone().expect("recorded");
    assert_eq!(recorded.0, "Ballina");
    assert_eq!(recorded.1, "01/05/2025 08:30");
}

#[test]
fn auto_find_step_without_a_winner_keeps_running() {
    let mut mgr = BookingManager::new();
    assert!(mgr.start_auto_find());
    let results = vec![location("Auburn", vec![slot(true, "02/06/2025 08:30")])];
    assert!(mgr.auto_find_step(&results, &deadline("2025-06-01")).is_none());
    assert!(mgr.auto_find_running(), "no winner, so the loop goes on");
    assert!(mgr.last_auto_find_result().is_none());
}

#[test]
fn portal_datetime_parses_strictly() {
    let d = parse_portal_datetime("01/05/2025 08:30").expect("the portal shape");
    assert_eq!((d.year, d.month, d.day), (2025, 5, 1));
    assert!(parse_portal_datetime("1/5/2025 08:30").is_none());
    assert!(parse_portal_datetime("01/05/2025").is_none());
    assert!(parse_portal_datetime("31/02/2025 08:30").is_none());
    assert!(parse_portal_datetime("01/05/2025 24:00").is_none());
    assert!(parse_portal_datetime("01/05/2025 08:60").is_none());
    assert!(parse_portal_datetime("01-05-2025 08:30").is_none());
}

#[test]
fn leap_years_are_understood() {
    assert!(parse_portal_datetime("29/02/2024 08:30").is_some());
    assert!(parse_portal_datetime("29/02/2023 08:30").is_none());
    assert!(parse_portal_datetime("29/02/2000 08:30").is_some());
    assert!(parse_portal_datetime("29/02/1900 08:30").is_none());
}

#[test]
fn iso_date_parses_strictly() {
    let d = parse_iso_date("2025-06-01").expect("the iso shape");
    assert_eq!((d.year, d.month, d.day), (2025, 6, 1));
    assert!(parse_iso_date("2025-6-1").is_none());
    assert!(parse_iso_date("2025-13-01").is_none());
    assert!(parse_iso_date("01/06/2025").is_none());
}

#[test]
fn date_order_is_year_month_day() {
    let a = deadline("2024-12-31");
    let b = deadline("2025-01-01");
    assert!(a.on_or_before(&b));
    assert!(!b.on_or_before(&a));
    assert!(a.on_or_before(&a));
}

#[test]
fn text_comparison_is_lexical() {
    assert!(str_le("01/05/2025 08:30", "01/05/2025 09:00"));
    assert!(!str_le("01/05/2025 09:00", "01/05/2025 08:30"));
    assert!(str_le("abc", "abc"));
    assert!(str_le("ab", "abc"));
    assert!(str_eq("same", "same"));
    assert!(!str_eq("same", "Same"));
}
