//! The content fingerprint: a deterministic digest of a snapshot's
//! availability content, used by consumers as a cheap change-detection
//! token.
//!
//! The digest hashes the canonical text of the availability content alone;
//! the `last_updated` stamp is deliberately excluded, so the fingerprint
//! changes only when availability itself changes, not on every refresh.

use vstd::prelude::*;
use crate::codec::{enc_results, enc_loc, enc_snapshot, encode_results, encode_loc, lemma_parse_snapshot_enc};
use crate::model::{BookingData, LocationBookings, LocationView, SnapshotView, locs_view};
use crate::numeral::{dec_rep, u64_to_string};

verus! {

/// The starting state of the digest.
pub const FNV_OFFSET: u64 = 0xcbf2_9ce4_8422_2325;

/// The multiplier folded in at every step of the digest.
pub const FNV_PRIME: u64 = 0x0000_0100_0000_01b3;

/// One digest step folds one character into the state.
pub open spec fn fnv_step(h: u64, c: char) -> u64 {
    vstd::wrapping::u64_specs::wrapping_mul(h ^ ((c as u32) as u64), FNV_PRIME)
}

/// The digest of a text, folded left to right from state `h`.
pub open spec fn fnv_hash(t: Seq<char>, h: u64) -> u64
    decreases t.len(),
{
    if t.len() == 0 {
        h
    } else {
        fnv_hash(t.drop_first(), fnv_step(h, t[0]))
    }
}

/// The fingerprint of availability content: the digest of its canonical
/// text.  A pure function of the content, so identical content always gives
/// the identical fingerprint.
pub open spec fn spec_fingerprint(results: Seq<LocationView>) -> u64 {
    fnv_hash(enc_results(results), FNV_OFFSET)
}

/// The fingerprint rendered as text, as handed to consumers.
pub open spec fn spec_etag(results: Seq<LocationView>) -> Seq<char> {
    dec_rep(spec_fingerprint(results) as nat)
}

/// Digests a text left to right.
fn fnv_of_str(s: &str) -> (r: u64)
    ensures
        r == fnv_hash(s@, FNV_OFFSET),
{
    let len = s.unicode_len();
    let mut h: u64 = FNV_OFFSET;
    let mut i: usize = 0;
    proof {
        assert(s@.skip(0) =~= s@);
    }
    while i < len
        invariant
            i <= len,
            len == s@.len(),
            fnv_hash(s@, FNV_OFFSET) == fnv_hash(s@.skip(i as int), h),
        decreases len - i,
    {
        let c = s.get_char(i);
        proof {
            assert(s@.skip(i as int)[0] == s@[i as int]);
            assert(s@.skip(i as int).drop_first() =~= s@.skip(i as int + 1));
        }
        h = (h ^ ((c as u32) as u64)).wrapping_mul(FNV_PRIME);
        i = i + 1;
    }
    proof {
        assert(s@.skip(len as int) =~= Seq::<char>::empty());
    }
    h
}

/// Computes the fingerprint of the given availability content.
pub fn fingerprint_results(results: &Vec<LocationBookings>) -> (r: u64)
    ensures
        r == spec_fingerprint(locs_view(results@)),
{
    let text = encode_results(results);
    fnv_of_str(text.as_str())
}

impl BookingData {
    /// The snapshot's fingerprint as text: the change-detection token that
    /// consumers compare.
    pub fn calculate_hash(&self) -> (r: String)
        ensures
            r@ == spec_etag(self@.results),
    {
        u64_to_string(fingerprint_results(&self.results))
    }
}


/// The fingerprint of one location's content alone.
pub open spec fn spec_loc_fingerprint(l: LocationView) -> u64 {
    fnv_hash(enc_loc(l), FNV_OFFSET)
}

impl LocationBookings {
    /// One location's content digest as text.
    pub fn calculate_hash(&self) -> (r: String)
        ensures
            r@ == dec_rep(spec_loc_fingerprint(self@) as nat),
    {
        u64_to_string(fnv_of_str(encode_loc(self).as_str()))
    }
}

/// Fingerprinting is deterministic down to the persisted form: two
/// snapshots with identical serialized content have equal fingerprints.
pub proof fn lemma_fingerprint_of_serialized(a: SnapshotView, b: SnapshotView)
    requires
        enc_snapshot(a) == enc_snapshot(b),
    ensures
        spec_fingerprint(a.results) == spec_fingerprint(b.results),
{
    lemma_parse_snapshot_enc(a);
    lemma_parse_snapshot_enc(b);
    assert(a == b);
}

} // verus!
