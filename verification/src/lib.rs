//! Booking availability cache and scrape orchestrator.
//!
//! The crate owns an in-memory snapshot of appointment availability for many
//! physical locations, refreshed by an external scraping collaborator.  It
//! provides:
//!
//! - an immutable snapshot value with a content fingerprint for cheap change
//!   detection,
//! - a snapshot store with atomic read/replace and an owned persistence
//!   format with a proved encode/decode round trip,
//! - a retried, partial-failure-tolerant refresh cycle,
//! - idempotent start/stop control for a background refresh loop and for a
//!   goal-directed auto-find loop that halts on the first slot meeting a
//!   deadline.

pub mod autofind;
pub mod clock;
pub mod codec;
pub mod dates;
pub mod fingerprint;
pub mod model;
pub mod numeral;
pub mod orchestrator;
pub mod server;
pub mod store;
