use booking_cache::model::{BookingData, LocationBookings, TimeSlot};
use booking_cache::codec::{decode_snapshot, encode_snapshot};
use booking_cache::numeral::u64_to_string;
use booking_cache::model::env_placeholder;
use booking_cache::clock::format_iso_date;

fn slot(available: bool, number: Option<u32>, start: &str) -> TimeSlot {
    TimeSlot { availability: available, slot_number: number, start_time: start.to_string() }
}

fn sample_data() -> BookingData {
    BookingData {
        results: vec![
            LocationBookings {
                location: "Armidale".to_string(),
                slots: vec![
                    slot(true, Some(1), "01/05/2025 08:30"),
                    slot(false, None, "01/05/2025 09:00"),
                ],
                next_available_date: Some("01/05/2025".to_string()),
            },
            LocationBookings {
                location: "".to_string(),
                slots: vec![],
                next_available_date: None,
            },
        ],
        last_updated: Some("2025-05-01T00:00:00+00:00".to_string()),
    }
}

fn assert_data_eq(a: &BookingData, b: &BookingData) {
    assert_eq!(a.results.len(), b.results.len());
    for (x, y) in a.results.iter().zip(b.results.iter()) {
        assert_eq!(x.location, y.location);
        assert_eq!(x.next_available_date, y.next_available_date);
        assert_eq!(x.slots.len(), y.slots.len());
        for (s, t) in x.slots.iter().zip(y.slots.iter()) {
            assert_eq!(s.availability, t.availability);
            assert_eq!(s.slot_number, t.slot_number);
            assert_eq!(s.start_time, t.start_time);
        }
    }
    assert_eq!(a.last_updated, b.last_updated);
}

#[test]
fn encode_then_decode_round_trips() {
    let data = sample_data();
    let text = encode_snapshot(&data);
    let back = decode_snapshot(text.as_str()).expect("own encodings decode");
    assert_data_eq(&data, &back);
}

#[test]
fn empty_snapshot_encodes_exactly() {
    let data = BookingData::default();
    assert_eq!(encode_snapshot(&data), "0:0");
    let back = decode_snapshot("0:0").expect("the empty snapshot");
    assert!(back.results.is_empty());
    assert!(back.last_updated.is_none());
}

#[test]
fn one_slot_snapshot_encodes_exactly() {
    let data = BookingData {
        results: vec![LocationBookings {
            location: "X".to_string(),
            slots: vec![slot(true, None, "a")],
            next_available_date: None,
        }],
        last_updated: None,
    };
    // one location; key "X"; one slot: available, no ordinal, start "a";
    // no hint; no stamp.
    assert_eq!(encode_snapshot(&data), "1:1:X1:101:a00");
}

#[test]
fn malformed_texts_are_rejected() {
    assert!(decode_snapshot("").is_none());
    assert!(decode_snapshot("x").is_none());
    assert!(decode_snapshot("0:").is_none(), "a truncated snapshot");
    assert!(decode_snapshot("0:0x").is_none(), "trailing text");
    assert!(decode_snapshot("2:0").is_none(), "count larger than content");
    assert!(decode_snapshot(":0").is_none(), "a number needs digits");
    assert!(decode_snapshot("99999999999999999999999:0").is_none(), "an oversized count");
}

#[test]
fn numerals_render_exactly() {
    assert_eq!(u64_to_string(0), "0");
    assert_eq!(u64_to_string(7), "7");
    assert_eq!(u64_to_string(12345), "12345");
    assert_eq!(u64_to_string(u64::MAX), "18446744073709551615");
}

#[test]
fn env_placeholders_are_recognized() {
    assert_eq!(env_placeholder("${BOOKING_ID}").as_deref(), Some("BOOKING_ID"));
    assert_eq!(env_placeholder("${}").as_deref(), Some(""));
    assert!(env_placeholder("plain value").is_none());
    assert!(env_placeholder("${unclosed").is_none());
    assert!(env_placeholder("$").is_none());
}

#[test]
fn iso_timestamps_are_reformatted_for_display() {
    assert_eq!(format_iso_date("2025-05-01T08:30:00+00:00"), "01 May 2025, 08:30 UTC");
    assert_eq!(format_iso_date("not a timestamp"), "not a timestamp");
    assert_eq!(format_iso_date(""), "");
}

#[test]
fn slot_identity_is_the_start_time() {
    let a = slot(true, Some(1), "01/05/2025 08:30");
    let b = slot(false, None, "01/05/2025 08:30");
    let c = slot(true, Some(1), "01/05/2025 09:00");
    assert_eq!(a, b, "availability and ordinal are not part of identity");
    assert_ne!(a, c);
}
