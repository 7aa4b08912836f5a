use booking_cache::model::{LocationBookings, TimeSlot};
use booking_cache::orchestrator::RefreshCycle;
use booking_cache::store::BookingManager;

fn slot(available: bool, start: &str) -> TimeSlot {
    TimeSlot { availability: available, slot_number: None, start_time: start.to_string() }
}

fn location(id: &str, slots: Vec<TimeSlot>) -> LocationBookings {
    LocationBookings { location: id.to_string(), slots, next_available_date: None }
}

/// A scraper stub that fails a set number of times, then succeeds, and
/// counts its invocations.
struct FlakyScraper {
    failures_left: u32,
    invocations: u32,
}

impl FlakyScraper {
    fn scrape(&mut self, pending: &[String]) -> Result<Vec<LocationBookings>, ()> {
        self.invocations += 1;
        if self.failures_left > 0 {
            self.failures_left -= 1;
            Err(())
        } else {
            Ok(pending
                .iter()
                .map(|id| location(id, vec![slot(true, "01/05/2025 08:30")]))
                .collect())
        }
    }
}

/// Drives one whole cycle against the stub, the way the hosting loop does.
fn drive(cycle: &mut RefreshCycle, scraper: &mut FlakyScraper) {
    while !cycle.is_done() {
        let pending = cycle.pending().clone();
        match scraper.scrape(&pending) {
            Ok(batch) => cycle.record_success(batch),
            Err(()) => cycle.record_failure(),
        }
    }
}

#[test]
fn retry_until_success_commits_the_location() {
    let max_retries = 5u64;
    let k = 3u32; // fails k < max_retries times, then succeeds
    let mut scraper = FlakyScraper { failures_left: k, invocations: 0 };
    let mut cycle = RefreshCycle::new(vec!["Auburn".to_string()], max_retries);
    drive(&mut cycle, &mut scraper);
    assert_eq!(scraper.invocations, k + 1);

    let mut mgr = BookingManager::new();
    assert!(cycle.commit(&mut mgr), "something was collected");
    let (data, _) = mgr.get_data();
    assert!(data.results.iter().any(|l| l.location == "Auburn"));
}

#[test]
fn persistent_failure_drops_the_location_after_exactly_the_budget() {
    let max_retries = 4u64;
    let mut scraper = FlakyScraper { failures_left: u32::MAX, invocations: 0 };
    let mut cycle = RefreshCycle::new(vec!["Auburn".to_string()], max_retries);
    drive(&mut cycle, &mut scraper);
    assert_eq!(scraper.invocations as u64, max_retries, "exactly maxRetries invocations");
    assert_eq!(cycle.attempts_used, max_retries);
    assert!(cycle.collected.is_empty());

    let mut mgr = BookingManager::new();
    mgr.update_data(vec![location("Ballina", vec![slot(true, "02/05/2025 09:00")])]);
    let before = mgr.get_data().1;
    assert!(!cycle.commit(&mut mgr), "an empty cycle commits nothing");
    assert_eq!(mgr.get_data().1, before, "the previous snapshot is left standing");
    assert!(mgr.get_data().0.results.iter().all(|l| l.location != "Auburn"));
}

#[test]
fn partial_success_keeps_what_arrived_and_retries_the_rest() {
    let mut cycle = RefreshCycle::new(
        vec!["Auburn".to_string(), "Ballina".to_string()],
        3,
    );
    // First attempt brings only one of the two locations.
    cycle.record_success(vec![location("Auburn", vec![slot(true, "01/05/2025 08:30")])]);
    assert_eq!(cycle.pending().len(), 1);
    assert_eq!(cycle.pending()[0], "Ballina");
    assert!(!cycle.is_done());
    // Second attempt brings the other.
    cycle.record_success(vec![location("Ballina", vec![slot(true, "02/05/2025 09:00")])]);
    assert!(cycle.pending().is_empty());
    assert!(cycle.is_done());

    let mut mgr = BookingManager::new();
    assert!(cycle.commit(&mut mgr));
    let (data, _) = mgr.get_data();
    assert_eq!(data.results.len(), 2);
    assert!(data.results.iter().any(|l| l.location == "Auburn"));
    assert!(data.results.iter().any(|l| l.location == "Ballina"));
}

#[test]
fn newer_batch_data_wins_within_a_cycle() {
    let mut cycle = RefreshCycle::new(vec!["Auburn".to_string()], 3);
    cycle.record_success(vec![location("Auburn", vec![slot(true, "01/05/2025 08:30")])]);
    cycle.record_success(vec![location("Auburn", vec![slot(true, "03/05/2025 10:00")])]);
    assert_eq!(cycle.collected.len(), 1, "one entry per location");
    assert_eq!(cycle.collected[0].slots[0].start_time, "03/05/2025 10:00");
}

#[test]
fn zero_budget_cycle_is_done_at_once() {
    let cycle = RefreshCycle::new(vec!["Auburn".to_string()], 0);
    assert!(cycle.is_done());
    let mut mgr = BookingManager::new();
    let before = mgr.get_data().1;
    assert!(!cycle.commit(&mut mgr));
    assert_eq!(mgr.get_data().1, before);
}

#[test]
fn commit_stamps_and_filters_like_a_replace() {
    let mut cycle = RefreshCycle::new(vec!["Auburn".to_string()], 2);
    cycle.record_success(vec![location(
        "Auburn",
        vec![slot(true, "01/05/2025 08:30"), slot(false, "01/05/2025 09:00")],
    )]);
    let mut mgr = BookingManager::new();
    assert!(cycle.commit(&mut mgr));
    let (data, _) = mgr.get_data();
    assert!(data.last_updated.is_some());
    assert_eq!(data.results[0].slots.len(), 1, "unavailable slots are dropped on commit");
}
