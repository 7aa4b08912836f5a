//! The owned persistence format for a snapshot.
//!
//! A snapshot is rendered as one line of text built from four primitives:
//! an unsigned number is its decimal numeral followed by `':'`; a string is
//! its length as a number followed by its characters; a boolean is `'1'` or
//! `'0'`; an optional value is a boolean flag followed by the value when the
//! flag is `'1'`.  Sequences are a count followed by the elements.
//!
//! `spec_parse_*` functions define exactly which texts the format accepts
//! and what they denote; the executable encoder and decoder are proved
//! against them, and decoding an encoded snapshot is proved to give the
//! snapshot back.

use vstd::prelude::*;
use vstd::arithmetic::div_mod::lemma_fundamental_div_mod;
use crate::model::{
    BookingData, LocationBookings, SlotView, LocationView, SnapshotView, TimeSlot, opt_str_view,
    slots_view, locs_view,
};
use crate::numeral::{dec_rep, val_of, is_digit, digit_val, lemma_dec_rep, u64_to_string};

verus! {

// ---------------------------------------------------------------------------
// Encoding, at the specification level.
// ---------------------------------------------------------------------------

/// A number: its decimal numeral, then `':'`.
pub open spec fn enc_nat(n: nat) -> Seq<char> {
    dec_rep(n).push(':')
}

/// A string: its length, then its characters.
pub open spec fn enc_str(s: Seq<char>) -> Seq<char> {
    enc_nat(s.len()) + s
}

/// A boolean: one flag character.
pub open spec fn enc_bool(b: bool) -> Seq<char> {
    if b {
        seq!['1']
    } else {
        seq!['0']
    }
}

/// An optional number: a flag, then the number when present.
pub open spec fn enc_opt_nat(o: Option<u32>) -> Seq<char> {
    match o {
        Some(v) => enc_bool(true) + enc_nat(v as nat),
        None => enc_bool(false),
    }
}

/// An optional string: a flag, then the string when present.
pub open spec fn enc_opt_str(o: Option<Seq<char>>) -> Seq<char> {
    match o {
        Some(s) => enc_bool(true) + enc_str(s),
        None => enc_bool(false),
    }
}

/// One time slot: availability, ordinal, start time.
pub open spec fn enc_slot(v: SlotView) -> Seq<char> {
    enc_bool(v.availability) + enc_opt_nat(v.slot_number) + enc_str(v.start_time)
}

/// A run of time slots, in order.
pub open spec fn enc_slot_seq(s: Seq<SlotView>) -> Seq<char>
    decreases s.len(),
{
    if s.len() == 0 {
        Seq::empty()
    } else {
        enc_slot(s[0]) + enc_slot_seq(s.drop_first())
    }
}

/// One location: key, slot count, slots, summary hint.
pub open spec fn enc_loc(v: LocationView) -> Seq<char> {
    enc_str(v.location) + enc_nat(v.slots.len()) + enc_slot_seq(v.slots) + enc_opt_str(
        v.next_available_date,
    )
}

/// A run of locations, in order.
pub open spec fn enc_loc_seq(s: Seq<LocationView>) -> Seq<char>
    decreases s.len(),
{
    if s.len() == 0 {
        Seq::empty()
    } else {
        enc_loc(s[0]) + enc_loc_seq(s.drop_first())
    }
}

/// The availability content alone: location count, then locations.
pub open spec fn enc_results(results: Seq<LocationView>) -> Seq<char> {
    enc_nat(results.len()) + enc_loc_seq(results)
}

/// A whole snapshot: the availability content, then the last-updated stamp.
pub open spec fn enc_snapshot(v: SnapshotView) -> Seq<char> {
    enc_results(v.results) + enc_opt_str(v.last_updated)
}

// ---------------------------------------------------------------------------
// Parsing, at the specification level.  Each function reads a prefix of the
// given text and yields the denoted value and the number of characters
// consumed, or nothing when no prefix of the text fits the format.
// ---------------------------------------------------------------------------

/// The length of the run of digit characters that starts the text.
pub open spec fn digit_run_len(t: Seq<char>) -> nat
    decreases t.len(),
{
    if t.len() == 0 || !is_digit(t[0]) {
        0
    } else {
        1 + digit_run_len(t.drop_first())
    }
}

/// A number is a non-empty digit run followed by `':'`.
pub open spec fn spec_parse_nat(t: Seq<char>) -> Option<(nat, nat)> {
    let k = digit_run_len(t);
    if k == 0 || k >= t.len() || t[k as int] != ':' {
        None
    } else {
        Some((val_of(t.subrange(0, k as int)), (k + 1) as nat))
    }
}

/// A string is a length whose many characters follow.
pub open spec fn spec_parse_str(t: Seq<char>) -> Option<(Seq<char>, nat)> {
    match spec_parse_nat(t) {
        Some((n, used)) => if n <= t.len() - used {
            Some((t.subrange(used as int, (used + n) as int), (used + n) as nat))
        } else {
            None
        },
        None => None,
    }
}

/// A boolean is a single flag character.
pub open spec fn spec_parse_bool(t: Seq<char>) -> Option<(bool, nat)> {
    if t.len() == 0 {
        None
    } else if t[0] == '1' {
        Some((true, 1))
    } else if t[0] == '0' {
        Some((false, 1))
    } else {
        None
    }
}

/// An optional number: a flag, then a number small enough for its field.
pub open spec fn spec_parse_opt_nat(t: Seq<char>) -> Option<(Option<u32>, nat)> {
    match spec_parse_bool(t) {
        Some((flag, used)) => if !flag {
            Some((None, used))
        } else {
            match spec_parse_nat(t.skip(used as int)) {
                Some((n, used2)) => if n <= u32::MAX {
                    Some((Some(n as u32), (used + used2) as nat))
                } else {
                    None
                },
                None => None,
            }
        },
        None => None,
    }
}

/// An optional string: a flag, then the string when the flag is set.
pub open spec fn spec_parse_opt_str(t: Seq<char>) -> Option<(Option<Seq<char>>, nat)> {
    match spec_parse_bool(t) {
        Some((flag, used)) => if !flag {
            Some((None, used))
        } else {
            match spec_parse_str(t.skip(used as int)) {
                Some((s, used2)) => Some((Some(s), (used + used2) as nat)),
                None => None,
            }
        },
        None => None,
    }
}

/// One time slot: availability, ordinal, start time, in that order.
pub open spec fn spec_parse_slot(t: Seq<char>) -> Option<(SlotView, nat)> {
    match spec_parse_bool(t) {
        Some((avail, u1)) => match spec_parse_opt_nat(t.skip(u1 as int)) {
            Some((sn, u2)) => match spec_parse_str(t.skip((u1 + u2) as int)) {
                Some((st, u3)) => Some(
                    (
                        SlotView { availability: avail, slot_number: sn, start_time: st },
                        (u1 + u2 + u3) as nat,
                    ),
                ),
                None => None,
            },
            None => None,
        },
        None => None,
    }
}

/// Exactly `count` consecutive slots.
pub open spec fn spec_parse_slot_seq(t: Seq<char>, count: nat) -> Option<(Seq<SlotView>, nat)>
    decreases count,
{
    if count == 0 {
        Some((Seq::empty(), 0))
    } else {
        match spec_parse_slot(t) {
            Some((v, u1)) => match spec_parse_slot_seq(t.skip(u1 as int), (count - 1) as nat) {
                Some((vs, u2)) => Some((seq![v] + vs, (u1 + u2) as nat)),
                None => None,
            },
            None => None,
        }
    }
}

/// One location: key, slot count, that many slots, summary hint.
pub open spec fn spec_parse_loc(t: Seq<char>) -> Option<(LocationView, nat)> {
    match spec_parse_str(t) {
        Some((key, u1)) => match spec_parse_nat(t.skip(u1 as int)) {
            Some((count, u2)) => match spec_parse_slot_seq(t.skip((u1 + u2) as int), count) {
                Some((slots, u3)) => match spec_parse_opt_str(t.skip((u1 + u2 + u3) as int)) {
                    Some((hint, u4)) => Some(
                        (
                            LocationView {
                                location: key,
                                slots: slots,
                                next_available_date: hint,
                            },
                            (u1 + u2 + u3 + u4) as nat,
                        ),
                    ),
                    None => None,
                },
                None => None,
            },
            None => None,
        },
        None => None,
    }
}

/// Exactly `count` consecutive locations.
pub open spec fn spec_parse_loc_seq(t: Seq<char>, count: nat) -> Option<(Seq<LocationView>, nat)>
    decreases count,
{
    if count == 0 {
        Some((Seq::empty(), 0))
    } else {
        match spec_parse_loc(t) {
            Some((v, u1)) => match spec_parse_loc_seq(t.skip(u1 as int), (count - 1) as nat) {
                Some((vs, u2)) => Some((seq![v] + vs, (u1 + u2) as nat)),
                None => None,
            },
            None => None,
        }
    }
}

/// A whole snapshot: location count, locations, last-updated stamp.
pub open spec fn spec_parse_snapshot(t: Seq<char>) -> Option<(SnapshotView, nat)> {
    match spec_parse_nat(t) {
        Some((count, u1)) => match spec_parse_loc_seq(t.skip(u1 as int), count) {
            Some((locs, u2)) => match spec_parse_opt_str(t.skip((u1 + u2) as int)) {
                Some((stamp, u3)) => Some(
                    (
                        SnapshotView { results: locs, last_updated: stamp },
                        (u1 + u2 + u3) as nat,
                    ),
                ),
                None => None,
            },
            None => None,
        },
        None => None,
    }
}

// ---------------------------------------------------------------------------
// Reading an encoding back, at the specification level.
// ---------------------------------------------------------------------------

/// A numeral stops at the `':'` that the format writes after it.
proof fn lemma_digit_run_of_enc(ds: Seq<char>, rest: Seq<char>)
    requires
        forall|i: int| 0 <= i < ds.len() ==> is_digit(#[trigger] ds[i]),
    ensures
        digit_run_len(ds + seq![':'] + rest) == ds.len(),
    decreases ds.len(),
{
    let t = ds + seq![':'] + rest;
    if ds.len() == 0 {
        assert(t[0] == ':');
        assert(!is_digit(':'));
    } else {
        assert(t[0] == ds[0]);
        assert(t.drop_first() =~= ds.drop_first() + seq![':'] + rest);
        lemma_digit_run_of_enc(ds.drop_first(), rest);
    }
}

/// Parsing a number that the format wrote yields the number.
pub proof fn lemma_parse_nat_enc(n: nat, rest: Seq<char>)
    ensures
        spec_parse_nat(enc_nat(n) + rest) == Some((n, enc_nat(n).len())),
        enc_nat(n).len() >= 2,
{
    lemma_dec_rep(n);
    let ds = dec_rep(n);
    let t = enc_nat(n) + rest;
    assert(t =~= ds + seq![':'] + rest);
    lemma_digit_run_of_enc(ds, rest);
    let k = digit_run_len(t);
    assert(k == ds.len());
    assert(t[k as int] == ':');
    assert(t.subrange(0, k as int) =~= ds);
}

/// Parsing a string that the format wrote yields the string.
pub proof fn lemma_parse_str_enc(s: Seq<char>, rest: Seq<char>)
    ensures
        spec_parse_str(enc_str(s) + rest) == Some((s, enc_str(s).len())),
{
    let t = enc_str(s) + rest;
    assert(t =~= enc_nat(s.len()) + (s + rest));
    lemma_parse_nat_enc(s.len(), s + rest);
    let used = enc_nat(s.len()).len();
    assert(spec_parse_nat(t) == Some((s.len(), used)));
    assert(s.len() <= t.len() - used);
    assert(t.subrange(used as int, (used + s.len()) as int) =~= s);
}

/// Parsing a flag that the format wrote yields the flag.
pub proof fn lemma_parse_bool_enc(b: bool, rest: Seq<char>)
    ensures
        spec_parse_bool(enc_bool(b) + rest) == Some((b, 1nat)),
{
    let t = enc_bool(b) + rest;
    assert(t[0] == (if b { '1' } else { '0' }));
}

/// Parsing an optional number that the format wrote yields it.
pub proof fn lemma_parse_opt_nat_enc(o: Option<u32>, rest: Seq<char>)
    ensures
        spec_parse_opt_nat(enc_opt_nat(o) + rest) == Some((o, enc_opt_nat(o).len())),
{
    let t = enc_opt_nat(o) + rest;
    match o {
        Some(v) => {
            assert(t =~= enc_bool(true) + (enc_nat(v as nat) + rest));
            lemma_parse_bool_enc(true, enc_nat(v as nat) + rest);
            assert(t.skip(1) =~= enc_nat(v as nat) + rest);
            lemma_parse_nat_enc(v as nat, rest);
        },
        None => {
            assert(t =~= enc_bool(false) + rest);
            lemma_parse_bool_enc(false, rest);
        },
    }
}

/// Parsing an optional string that the format wrote yields it.
pub proof fn lemma_parse_opt_str_enc(o: Option<Seq<char>>, rest: Seq<char>)
    ensures
        spec_parse_opt_str(enc_opt_str(o) + rest) == Some((o, enc_opt_str(o).len())),
{
    let t = enc_opt_str(o) + rest;
    match o {
        Some(s) => {
            assert(t =~= enc_bool(true) + (enc_str(s) + rest));
            lemma_parse_bool_enc(true, enc_str(s) + rest);
            assert(t.skip(1) =~= enc_str(s) + rest);
            lemma_parse_str_enc(s, rest);
        },
        None => {
            assert(t =~= enc_bool(false) + rest);
            lemma_parse_bool_enc(false, rest);
        },
    }
}

/// Parsing a slot that the format wrote yields the slot.
pub proof fn lemma_parse_slot_enc(v: SlotView, rest: Seq<char>)
    ensures
        spec_parse_slot(enc_slot(v) + rest) == Some((v, enc_slot(v).len())),
{
    let t = enc_slot(v) + rest;
    let e1 = enc_bool(v.availability);
    let e2 = enc_opt_nat(v.slot_number);
    let e3 = enc_str(v.start_time);
    assert(t =~= e1 + (e2 + (e3 + rest)));
    lemma_parse_bool_enc(v.availability, e2 + (e3 + rest));
    assert(t.skip(e1.len() as int) =~= e2 + (e3 + rest));
    lemma_parse_opt_nat_enc(v.slot_number, e3 + rest);
    assert(t.skip((e1.len() + e2.len()) as int) =~= e3 + rest);
    lemma_parse_str_enc(v.start_time, rest);
}

/// Parsing a run of slots that the format wrote yields the run.
#[verifier::spinoff_prover]
#[verifier::rlimit(60)]
pub proof fn lemma_parse_slot_seq_enc(s: Seq<SlotView>, rest: Seq<char>)
    ensures
        spec_parse_slot_seq(enc_slot_seq(s) + rest, s.len()) == Some((s, enc_slot_seq(s).len())),
    decreases s.len(),
{
    let t = enc_slot_seq(s) + rest;
    if s.len() == 0 {
        assert(t =~= rest);
        assert(spec_parse_slot_seq(t, 0) == Some((Seq::<SlotView>::empty(), 0nat)));
        assert(Seq::<SlotView>::empty() =~= s);
    } else {
        let e1 = enc_slot(s[0]);
        let etail = enc_slot_seq(s.drop_first());
        assert(t =~= e1 + (etail + rest));
        lemma_parse_slot_enc(s[0], etail + rest);
        assert(t.skip(e1.len() as int) =~= etail + rest);
        lemma_parse_slot_seq_enc(s.drop_first(), rest);
        assert(seq![s[0]] + s.drop_first() =~= s);
    }
}

/// Parsing a location that the format wrote yields the location.
#[verifier::spinoff_prover]
#[verifier::rlimit(60)]
pub proof fn lemma_parse_loc_enc(v: LocationView, rest: Seq<char>)
    ensures
        spec_parse_loc(enc_loc(v) + rest) == Some((v, enc_loc(v).len())),
{
    let t = enc_loc(v) + rest;
    let e1 = enc_str(v.location);
    let e2 = enc_nat(v.slots.len());
    let e3 = enc_slot_seq(v.slots);
    let e4 = enc_opt_str(v.next_available_date);
    assert(t =~= e1 + (e2 + (e3 + (e4 + rest))));
    lemma_parse_str_enc(v.location, e2 + (e3 + (e4 + rest)));
    assert(t.skip(e1.len() as int) =~= e2 + (e3 + (e4 + rest)));
    lemma_parse_nat_enc(v.slots.len(), e3 + (e4 + rest));
    assert(t.skip((e1.len() + e2.len()) as int) =~= e3 + (e4 + rest));
    lemma_parse_slot_seq_enc(v.slots, e4 + rest);
    assert(t.skip((e1.len() + e2.len() + e3.len()) as int) =~= e4 + rest);
    lemma_parse_opt_str_enc(v.next_available_date, rest);
}

/// Parsing a run of locations that the format wrote yields the run.
#[verifier::spinoff_prover]
#[verifier::rlimit(100)]
pub proof fn lemma_parse_loc_seq_enc(s: Seq<LocationView>, rest: Seq<char>)
    ensures
        spec_parse_loc_seq(enc_loc_seq(s) + rest, s.len()) == Some((s, enc_loc_seq(s).len())),
    decreases s.len(),
{
    let t = enc_loc_seq(s) + rest;
    if s.len() == 0 {
        assert(t =~= rest);
        assert(spec_parse_loc_seq(t, 0) == Some((Seq::<LocationView>::empty(), 0nat)));
        assert(Seq::<LocationView>::empty() =~= s);
    } else {
        let e1 = enc_loc(s[0]);
        let etail = enc_loc_seq(s.drop_first());
        assert(t =~= e1 + (etail + rest));
        lemma_parse_loc_enc(s[0], etail + rest);
        assert(t.skip(e1.len() as int) =~= etail + rest);
        lemma_parse_loc_seq_enc(s.drop_first(), rest);
        assert(seq![s[0]] + s.drop_first() =~= s);
    }
}

/// Parsing a snapshot that the format wrote yields the snapshot: the format
/// round-trips.
pub proof fn lemma_parse_snapshot_enc(v: SnapshotView)
    ensures
        spec_parse_snapshot(enc_snapshot(v)) == Some((v, enc_snapshot(v).len())),
{
    let t = enc_snapshot(v);
    let e1 = enc_nat(v.results.len());
    let e2 = enc_loc_seq(v.results);
    let e3 = enc_opt_str(v.last_updated);
    assert(t =~= e1 + (e2 + (e3 + Seq::<char>::empty())));
    lemma_parse_nat_enc(v.results.len(), e2 + (e3 + Seq::<char>::empty()));
    assert(t.skip(e1.len() as int) =~= e2 + (e3 + Seq::<char>::empty()));
    lemma_parse_loc_seq_enc(v.results, e3 + Seq::<char>::empty());
    assert(t.skip((e1.len() + e2.len()) as int) =~= e3 + Seq::<char>::empty());
    lemma_parse_opt_str_enc(v.last_updated, Seq::<char>::empty());
}

// ---------------------------------------------------------------------------
// The executable encoder.
// ---------------------------------------------------------------------------

/// Appending one more element extends a run's encoding at its end.
proof fn lemma_enc_slot_seq_push(s: Seq<SlotView>, v: SlotView)
    ensures
        enc_slot_seq(s.push(v)) == enc_slot_seq(s) + enc_slot(v),
    decreases s.len(),
{
    if s.len() == 0 {
        assert(s.push(v)[0] == v);
        assert(s.push(v).drop_first() =~= Seq::<SlotView>::empty());
        assert(enc_slot_seq(Seq::<SlotView>::empty()) =~= Seq::<char>::empty());
        assert(enc_slot_seq(s.push(v)) == enc_slot(s.push(v)[0]) + enc_slot_seq(
            s.push(v).drop_first(),
        ));
        assert(enc_slot_seq(s.push(v)) =~= enc_slot(v));
        assert(enc_slot_seq(s) + enc_slot(v) =~= enc_slot(v));
    } else {
        assert(s.push(v)[0] == s[0]);
        assert(s.push(v).drop_first() =~= s.drop_first().push(v));
        lemma_enc_slot_seq_push(s.drop_first(), v);
        assert(enc_slot_seq(s.push(v)) =~= enc_slot_seq(s) + enc_slot(v));
    }
}

/// Appending one more element extends a run's encoding at its end.
proof fn lemma_enc_loc_seq_push(s: Seq<LocationView>, v: LocationView)
    ensures
        enc_loc_seq(s.push(v)) == enc_loc_seq(s) + enc_loc(v),
    decreases s.len(),
{
    if s.len() == 0 {
        assert(s.push(v)[0] == v);
        assert(s.push(v).drop_first() =~= Seq::<LocationView>::empty());
        assert(enc_loc_seq(Seq::<LocationView>::empty()) =~= Seq::<char>::empty());
        assert(enc_loc_seq(s.push(v)) == enc_loc(s.push(v)[0]) + enc_loc_seq(
            s.push(v).drop_first(),
        ));
        assert(enc_loc_seq(s.push(v)) =~= enc_loc(v));
        assert(enc_loc_seq(s) + enc_loc(v) =~= enc_loc(v));
    } else {
        assert(s.push(v)[0] == s[0]);
        assert(s.push(v).drop_first() =~= s.drop_first().push(v));
        lemma_enc_loc_seq_push(s.drop_first(), v);
        assert(enc_loc_seq(s.push(v)) =~= enc_loc_seq(s) + enc_loc(v));
    }
}

/// The field separator.
fn colon_str() -> (r: &'static str)
    ensures
        r@ =~= seq![':'],
{
    proof {
        reveal_strlit(":");
    }
    ":"
}

/// The one-character encoding of a flag.
fn flag_str(b: bool) -> (r: &'static str)
    ensures
        r@ =~= enc_bool(b),
{
    proof {
        reveal_strlit("1");
        reveal_strlit("0");
    }
    if b {
        "1"
    } else {
        "0"
    }
}

/// Writes a number.
fn encode_nat_into(out: &mut String, n: u64)
    ensures
        final(out)@ == old(out)@ + enc_nat(n as nat),
{
    let digits = u64_to_string(n);
    out.append(digits.as_str());
    out.append(colon_str());
    proof {
        assert(final(out)@ =~= old(out)@ + enc_nat(n as nat));
    }
}

/// Writes a string.
fn encode_str_into(out: &mut String, s: &str)
    ensures
        final(out)@ == old(out)@ + enc_str(s@),
{
    let n = s.unicode_len();
    encode_nat_into(out, n as u64);
    out.append(s);
    proof {
        assert(final(out)@ =~= old(out)@ + enc_str(s@));
    }
}

/// Writes a flag.
fn encode_bool_into(out: &mut String, b: bool)
    ensures
        final(out)@ == old(out)@ + enc_bool(b),
{
    out.append(flag_str(b));
}

/// Writes an optional number.
fn encode_opt_nat_into(out: &mut String, o: &Option<u32>)
    ensures
        final(out)@ == old(out)@ + enc_opt_nat(*o),
{
    match o {
        Some(v) => {
            encode_bool_into(out, true);
            encode_nat_into(out, *v as u64);
            proof {
                assert(final(out)@ =~= old(out)@ + enc_opt_nat(*o));
            }
        },
        None => {
            encode_bool_into(out, false);
        },
    }
}

/// Writes an optional string.
fn encode_opt_str_into(out: &mut String, o: &Option<String>)
    ensures
        final(out)@ == old(out)@ + enc_opt_str(opt_str_view(*o)),
{
    match o {
        Some(s) => {
            encode_bool_into(out, true);
            encode_str_into(out, s.as_str());
            proof {
                assert(final(out)@ =~= old(out)@ + enc_opt_str(opt_str_view(*o)));
            }
        },
        None => {
            encode_bool_into(out, false);
        },
    }
}

/// Writes one slot.
fn encode_slot_into(out: &mut String, slot: &TimeSlot)
    ensures
        final(out)@ == old(out)@ + enc_slot(slot@),
{
    encode_bool_into(out, slot.availability);
    encode_opt_nat_into(out, &slot.slot_number);
    encode_str_into(out, slot.start_time.as_str());
    proof {
        assert(final(out)@ =~= old(out)@ + enc_slot(slot@));
    }
}

/// Writes one location.
fn encode_loc_into(out: &mut String, loc: &LocationBookings)
    ensures
        final(out)@ == old(out)@ + enc_loc(loc@),
{
    encode_str_into(out, loc.location.as_str());
    encode_nat_into(out, loc.slots.len() as u64);
    let ghost mid = out@;
    let mut i: usize = 0;
    while i < loc.slots.len()
        invariant
            i <= loc.slots.len(),
            out@ == mid + enc_slot_seq(slots_view(loc.slots@).subrange(0, i as int)),
        decreases loc.slots.len() - i,
    {
        encode_slot_into(out, &loc.slots[i]);
        proof {
            let sv = slots_view(loc.slots@);
            assert(sv.subrange(0, (i + 1) as int) =~= sv.subrange(0, i as int).push(sv[i as int]));
            lemma_enc_slot_seq_push(sv.subrange(0, i as int), sv[i as int]);
            assert(out@ =~= mid + enc_slot_seq(sv.subrange(0, (i + 1) as int)));
        }
        i = i + 1;
    }
    encode_opt_str_into(out, &loc.next_available_date);
    proof {
        let sv = slots_view(loc.slots@);
        assert(sv.subrange(0, sv.len() as int) =~= sv);
        assert(loc@.slots.len() == loc.slots@.len());
        assert(final(out)@ =~= old(out)@ + enc_loc(loc@));
    }
}

/// Renders the availability content alone.
pub fn encode_results(results: &Vec<LocationBookings>) -> (r: String)
    ensures
        r@ == enc_results(locs_view(results@)),
{
    let mut out = String::new();
    encode_nat_into(&mut out, results.len() as u64);
    let ghost mid = out@;
    let mut i: usize = 0;
    while i < results.len()
        invariant
            i <= results.len(),
            out@ == mid + enc_loc_seq(locs_view(results@).subrange(0, i as int)),
        decreases results.len() - i,
    {
        encode_loc_into(&mut out, &results[i]);
        proof {
            let lv = locs_view(results@);
            assert(lv.subrange(0, (i + 1) as int) =~= lv.subrange(0, i as int).push(lv[i as int]));
            lemma_enc_loc_seq_push(lv.subrange(0, i as int), lv[i as int]);
            assert(out@ =~= mid + enc_loc_seq(lv.subrange(0, (i + 1) as int)));
        }
        i = i + 1;
    }
    proof {
        let lv = locs_view(results@);
        assert(lv.subrange(0, lv.len() as int) =~= lv);
        assert(out@ =~= enc_results(lv));
    }
    out
}


/// Renders one location alone, for its content digest.
pub fn encode_loc(loc: &LocationBookings) -> (r: String)
    ensures
        r@ == enc_loc(loc@),
{
    let mut out = String::new();
    encode_loc_into(&mut out, loc);
    proof {
        assert(out@ =~= enc_loc(loc@));
    }
    out
}

/// Renders the whole snapshot in the owned persistence format.
pub fn encode_snapshot(data: &BookingData) -> (r: String)
    ensures
        r@ == enc_snapshot(data@),
{
    let mut out = encode_results(&data.results);
    encode_opt_str_into(&mut out, &data.last_updated);
    proof {
        assert(out@ =~= enc_snapshot(data@));
    }
    out
}


// ---------------------------------------------------------------------------
// The executable decoder.
// ---------------------------------------------------------------------------

/// The digit run is exactly the first `m` characters when those are digits
/// and the text ends there or a non-digit follows.
proof fn lemma_digit_run_exact(t: Seq<char>, m: nat)
    requires
        m <= t.len(),
        forall|j: int| 0 <= j < m ==> is_digit(#[trigger] t[j]),
        m == t.len() || !is_digit(t[m as int]),
    ensures
        digit_run_len(t) == m,
    decreases m,
{
    if m == 0 {
    } else {
        assert(is_digit(t[0]));
        assert(forall|j: int|
            0 <= j < m - 1 ==> is_digit(#[trigger] t.drop_first()[j]) == is_digit(t[j + 1]));
        lemma_digit_run_exact(t.drop_first(), (m - 1) as nat);
    }
}

/// A digit run extends at least past any all-digit prefix.
proof fn lemma_digit_run_at_least(t: Seq<char>, m: nat)
    requires
        m <= t.len(),
        forall|j: int| 0 <= j < m ==> is_digit(#[trigger] t[j]),
    ensures
        digit_run_len(t) >= m,
    decreases m,
{
    if m == 0 {
    } else {
        assert(is_digit(t[0]));
        assert(forall|j: int|
            0 <= j < m - 1 ==> is_digit(#[trigger] t.drop_first()[j]) == is_digit(t[j + 1]));
        lemma_digit_run_at_least(t.drop_first(), (m - 1) as nat);
    }
}

/// Reading more digits never lowers the value.
proof fn lemma_val_of_prefix(ds: Seq<char>, m: nat)
    requires
        m <= ds.len(),
    ensures
        val_of(ds.subrange(0, m as int)) <= val_of(ds),
    decreases ds.len(),
{
    if m == ds.len() {
        assert(ds.subrange(0, m as int) =~= ds);
    } else {
        lemma_val_of_prefix(ds.drop_last(), m);
        assert(ds.drop_last().subrange(0, m as int) =~= ds.subrange(0, m as int));
    }
}

/// One more digit multiplies the value by ten and adds the digit.
proof fn lemma_val_of_snoc(t: Seq<char>, m: nat)
    requires
        m < t.len(),
    ensures
        val_of(t.subrange(0, m as int + 1)) == val_of(t.subrange(0, m as int)) * 10 + digit_val(
            t[m as int],
        ),
{
    assert(t.subrange(0, m as int + 1).drop_last() =~= t.subrange(0, m as int));
    assert(t.subrange(0, m as int + 1).last() == t[m as int]);
}

/// Reads a number.  Mirrors `spec_parse_nat`, except that a number too large
/// for `u64` is rejected.
fn parse_nat(s: &str, pos: usize) -> (r: Option<(u64, usize)>)
    requires
        pos <= s@.len(),
    ensures
        ({
            let t = s@.skip(pos as int);
            match spec_parse_nat(t) {
                Some((n, used)) => if n <= u64::MAX {
                    r is Some && r.unwrap().0 == n && r.unwrap().1 == pos + used
                } else {
                    r is None
                },
                None => r is None,
            }
        }),
        r is Some ==> pos < r.unwrap().1 <= s@.len(),
{
    let ghost t = s@.skip(pos as int);
    let len = s.unicode_len();
    let mut i: usize = pos;
    let mut acc: u64 = 0;
    loop
        invariant
            pos <= i <= len,
            len == s@.len(),
            t == s@.skip(pos as int),
            t.len() == len - pos,
            forall|j: int| 0 <= j < i - pos ==> is_digit(#[trigger] t[j]),
            acc == val_of(t.subrange(0, i - pos)),
        decreases len - i,
    {
        if i == len {
            proof {
                lemma_digit_run_exact(t, (i - pos) as nat);
            }
            return None;
        }
        let c = s.get_char(i);
        proof {
            assert(t[i - pos] == s@[i as int]);
        }
        if c == ':' {
            proof {
                assert(!is_digit(t[i - pos]));
                lemma_digit_run_exact(t, (i - pos) as nat);
            }
            if i == pos {
                return None;
            }
            return Some((acc, i + 1));
        }
        if c >= '0' && c <= '9' {
            let d = (c as u32 - 48) as u64;
            proof {
                assert(is_digit(t[i - pos]));
                assert(digit_val(t[i - pos]) == d);
                lemma_val_of_snoc(t, (i - pos) as nat);
            }
            if acc <= (u64::MAX - d) / 10 {
                proof {
                    lemma_fundamental_div_mod((u64::MAX - d) as int, 10);
                }
                acc = acc * 10 + d;
                i = i + 1;
            } else {
                proof {
                    lemma_fundamental_div_mod((u64::MAX - d) as int, 10);
                    assert(acc * 10 + d > u64::MAX) by (nonlinear_arith)
                        requires
                            acc > (u64::MAX - d) / 10,
                            d <= 9,
                            (u64::MAX - d) as int == ((u64::MAX - d) / 10) * 10 + (u64::MAX
                                - d) % 10,
                            0 <= (u64::MAX - d) % 10 < 10,
                    ;
                    let m1 = (i - pos) as nat;
                    lemma_digit_run_at_least(t, m1 + 1);
                    let k = digit_run_len(t);
                    if spec_parse_nat(t) is Some {
                        let n = spec_parse_nat(t).unwrap().0;
                        lemma_val_of_prefix(t.subrange(0, k as int), m1 + 1);
                        assert(t.subrange(0, k as int).subrange(0, m1 as int + 1) =~= t.subrange(
                            0,
                            m1 as int + 1,
                        ));
                        assert(n >= val_of(t.subrange(0, m1 as int + 1)));
                        assert(n > u64::MAX);
                    }
                }
                return None;
            }
        } else {
            proof {
                assert(!is_digit(t[i - pos]));
                lemma_digit_run_exact(t, (i - pos) as nat);
            }
            return None;
        }
    }
}


/// Reads a flag character.
fn parse_bool(s: &str, pos: usize) -> (r: Option<(bool, usize)>)
    requires
        pos <= s@.len(),
    ensures
        ({
            let t = s@.skip(pos as int);
            match spec_parse_bool(t) {
                Some((b, used)) => r is Some && r.unwrap().0 == b && r.unwrap().1 == pos + used,
                None => r is None,
            }
        }),
        r is Some ==> pos < r.unwrap().1 <= s@.len(),
{
    let ghost t = s@.skip(pos as int);
    let len = s.unicode_len();
    if pos == len {
        return None;
    }
    let c = s.get_char(pos);
    proof {
        assert(t[0] == s@[pos as int]);
    }
    if c == '1' {
        Some((true, pos + 1))
    } else if c == '0' {
        Some((false, pos + 1))
    } else {
        None
    }
}

/// Reads a string.
fn parse_str(s: &str, pos: usize) -> (r: Option<(String, usize)>)
    requires
        pos <= s@.len(),
    ensures
        ({
            let t = s@.skip(pos as int);
            match spec_parse_str(t) {
                Some((v, used)) => r is Some && r.unwrap().0@ == v && r.unwrap().1 == pos + used,
                None => r is None,
            }
        }),
        r is Some ==> pos < r.unwrap().1 <= s@.len(),
{
    let ghost t = s@.skip(pos as int);
    let len = s.unicode_len();
    match parse_nat(s, pos) {
        None => {
            proof {
                if spec_parse_nat(t) is Some {
                    let n = spec_parse_nat(t).unwrap().0;
                    assert(n > u64::MAX);
                    assert(t.len() <= len);
                }
            }
            None
        },
        Some((n, p)) => {
            if n > (len - p) as u64 {
                return None;
            }
            let end = p + (n as usize);
            let sub = s.substring_char(p, end);
            let owned = String::from_str(sub);
            proof {
                let used = (p - pos) as nat;
                assert(t.subrange(used as int, (used + n) as int) =~= s@.subrange(
                    p as int,
                    end as int,
                ));
            }
            Some((owned, end))
        },
    }
}

/// Reads an optional number.
fn parse_opt_nat(s: &str, pos: usize) -> (r: Option<(Option<u32>, usize)>)
    requires
        pos <= s@.len(),
    ensures
        ({
            let t = s@.skip(pos as int);
            match spec_parse_opt_nat(t) {
                Some((v, used)) => r is Some && r.unwrap().0 == v && r.unwrap().1 == pos + used,
                None => r is None,
            }
        }),
        r is Some ==> pos < r.unwrap().1 <= s@.len(),
{
    let ghost t = s@.skip(pos as int);
    match parse_bool(s, pos) {
        None => None,
        Some((flag, p1)) => {
            proof {
                assert(t.skip(1) =~= s@.skip(p1 as int));
            }
            if !flag {
                Some((None, p1))
            } else {
                match parse_nat(s, p1) {
                    None => {
                        proof {
                            let t2 = s@.skip(p1 as int);
                            if spec_parse_nat(t2) is Some {
                                assert(spec_parse_nat(t2).unwrap().0 > u64::MAX);
                            }
                        }
                        None
                    },
                    Some((n, p2)) => {
                        if n > u32::MAX as u64 {
                            return None;
                        }
                        Some((Some(n as u32), p2))
                    },
                }
            }
        },
    }
}

/// Reads an optional string.
fn parse_opt_str(s: &str, pos: usize) -> (r: Option<(Option<String>, usize)>)
    requires
        pos <= s@.len(),
    ensures
        ({
            let t = s@.skip(pos as int);
            match spec_parse_opt_str(t) {
                Some((v, used)) => r is Some && opt_str_view(r.unwrap().0) == v && r.unwrap().1
                    == pos + used,
                None => r is None,
            }
        }),
        r is Some ==> pos < r.unwrap().1 <= s@.len(),
{
    let ghost t = s@.skip(pos as int);
    match parse_bool(s, pos) {
        None => None,
        Some((flag, p1)) => {
            proof {
                assert(t.skip(1) =~= s@.skip(p1 as int));
            }
            if !flag {
                Some((None, p1))
            } else {
                match parse_str(s, p1) {
                    None => None,
                    Some((v, p2)) => Some((Some(v), p2)),
                }
            }
        },
    }
}

/// Reads one slot.
fn parse_slot(s: &str, pos: usize) -> (r: Option<(TimeSlot, usize)>)
    requires
        pos <= s@.len(),
    ensures
        ({
            let t = s@.skip(pos as int);
            match spec_parse_slot(t) {
                Some((v, used)) => r is Some && r.unwrap().0@ == v && r.unwrap().1 == pos + used,
                None => r is None,
            }
        }),
        r is Some ==> pos < r.unwrap().1 <= s@.len(),
{
    let ghost t = s@.skip(pos as int);
    match parse_bool(s, pos) {
        None => None,
        Some((avail, p1)) => {
            proof {
                assert(t.skip((p1 - pos) as int) =~= s@.skip(p1 as int));
            }
            match parse_opt_nat(s, p1) {
                None => None,
                Some((sn, p2)) => {
                    proof {
                        assert(t.skip((p2 - pos) as int) =~= s@.skip(p2 as int));
                    }
                    match parse_str(s, p2) {
                        None => None,
                        Some((st, p3)) => Some(
                            (
                                TimeSlot { availability: avail, slot_number: sn, start_time: st },
                                p3,
                            ),
                        ),
                    }
                },
            }
        },
    }
}


/// A number read from the text fits within it.
proof fn lemma_spec_parse_nat_bound(t: Seq<char>)
    ensures
        spec_parse_nat(t) is Some ==> 1 <= spec_parse_nat(t).unwrap().1 <= t.len(),
{
}

/// A string read from the text fits within it.
proof fn lemma_spec_parse_str_bound(t: Seq<char>)
    ensures
        spec_parse_str(t) is Some ==> 1 <= spec_parse_str(t).unwrap().1 <= t.len(),
{
    lemma_spec_parse_nat_bound(t);
}

/// An optional number read from the text fits within it.
proof fn lemma_spec_parse_opt_nat_bound(t: Seq<char>)
    ensures
        spec_parse_opt_nat(t) is Some ==> 1 <= spec_parse_opt_nat(t).unwrap().1 <= t.len(),
{
    if spec_parse_opt_nat(t) is Some {
        lemma_spec_parse_nat_bound(t.skip(1));
    }
}

/// An optional string read from the text fits within it.
proof fn lemma_spec_parse_opt_str_bound(t: Seq<char>)
    ensures
        spec_parse_opt_str(t) is Some ==> 1 <= spec_parse_opt_str(t).unwrap().1 <= t.len(),
{
    if spec_parse_opt_str(t) is Some {
        lemma_spec_parse_str_bound(t.skip(1));
    }
}

/// A slot read from the text fits within it.
proof fn lemma_spec_parse_slot_bound(t: Seq<char>)
    ensures
        spec_parse_slot(t) is Some ==> 1 <= spec_parse_slot(t).unwrap().1 <= t.len(),
{
    if spec_parse_slot(t) is Some {
        lemma_spec_parse_opt_nat_bound(t.skip(1));
        let u2 = spec_parse_opt_nat(t.skip(1)).unwrap().1;
        lemma_spec_parse_str_bound(t.skip(1 + u2 as int));
    }
}

/// A run of slots read from the text fits within it.
proof fn lemma_spec_parse_slot_seq_bound(t: Seq<char>, count: nat)
    ensures
        spec_parse_slot_seq(t, count) is Some ==> spec_parse_slot_seq(t, count).unwrap().1
            <= t.len(),
    decreases count,
{
    if count > 0 && spec_parse_slot_seq(t, count) is Some {
        lemma_spec_parse_slot_bound(t);
        let u1 = spec_parse_slot(t).unwrap().1;
        lemma_spec_parse_slot_seq_bound(t.skip(u1 as int), (count - 1) as nat);
    }
}

/// A location read from the text fits within it.
proof fn lemma_spec_parse_loc_bound(t: Seq<char>)
    ensures
        spec_parse_loc(t) is Some ==> 1 <= spec_parse_loc(t).unwrap().1 <= t.len(),
{
    if spec_parse_loc(t) is Some {
        lemma_spec_parse_str_bound(t);
        let u1 = spec_parse_str(t).unwrap().1;
        lemma_spec_parse_nat_bound(t.skip(u1 as int));
        let u2 = spec_parse_nat(t.skip(u1 as int)).unwrap().1;
        let count = spec_parse_nat(t.skip(u1 as int)).unwrap().0;
        lemma_spec_parse_slot_seq_bound(t.skip((u1 + u2) as int), count);
        let u3 = spec_parse_slot_seq(t.skip((u1 + u2) as int), count).unwrap().1;
        lemma_spec_parse_opt_str_bound(t.skip((u1 + u2 + u3) as int));
    }
}

/// More slots than there are characters cannot be read.
proof fn lemma_slot_seq_needs_text(t: Seq<char>, count: nat)
    requires
        count > t.len(),
    ensures
        spec_parse_slot_seq(t, count) is None,
    decreases count,
{
    if spec_parse_slot(t) is Some {
        lemma_spec_parse_slot_bound(t);
        let u1 = spec_parse_slot(t).unwrap().1;
        lemma_slot_seq_needs_text(t.skip(u1 as int), (count - 1) as nat);
    }
}

/// More locations than there are characters cannot be read.
proof fn lemma_loc_seq_needs_text(t: Seq<char>, count: nat)
    requires
        count > t.len(),
    ensures
        spec_parse_loc_seq(t, count) is None,
    decreases count,
{
    if spec_parse_loc(t) is Some {
        lemma_spec_parse_loc_bound(t);
        let u1 = spec_parse_loc(t).unwrap().1;
        lemma_loc_seq_needs_text(t.skip(u1 as int), (count - 1) as nat);
    }
}


/// Reads exactly `count` slots.
fn parse_slot_seq(s: &str, pos: usize, count: u64) -> (r: Option<(Vec<TimeSlot>, usize)>)
    requires
        pos <= s@.len(),
    ensures
        ({
            let t = s@.skip(pos as int);
            match spec_parse_slot_seq(t, count as nat) {
                Some((vs, used)) => r is Some && slots_view(r.unwrap().0@) == vs && r.unwrap().1
                    == pos + used,
                None => r is None,
            }
        }),
        r is Some ==> pos <= r.unwrap().1 <= s@.len(),
{
    let ghost t0 = s@.skip(pos as int);
    let ghost goal = spec_parse_slot_seq(t0, count as nat);
    let mut acc: Vec<TimeSlot> = Vec::new();
    let mut p: usize = pos;
    let mut j: u64 = 0;
    while j < count
        invariant
            j <= count,
            pos <= p <= s@.len(),
            t0 == s@.skip(pos as int),
            goal == spec_parse_slot_seq(t0, count as nat),
            goal == match spec_parse_slot_seq(s@.skip(p as int), (count - j) as nat) {
                Some((vs, u)) => Some::<(Seq<SlotView>, nat)>(
                    (slots_view(acc@) + vs, ((p - pos) + u) as nat),
                ),
                None => None::<(Seq<SlotView>, nat)>,
            },
        decreases count - j,
    {
        let ghost t_p = s@.skip(p as int);
        match parse_slot(s, p) {
            None => {
                return None;
            },
            Some((slot, p2)) => {
                proof {
                    let u1 = (p2 - p) as nat;
                    assert(t_p.skip(u1 as int) =~= s@.skip(p2 as int));
                    let inner = spec_parse_slot_seq(s@.skip(p2 as int), (count - j - 1) as nat);
                    if inner is Some {
                        let vs2 = inner.unwrap().0;
                        let u2 = inner.unwrap().1;
                        assert(spec_parse_slot_seq(t_p, (count - j) as nat) == Some::<
                            (Seq<SlotView>, nat),
                        >((seq![slot@] + vs2, u1 + u2)));
                        assert(slots_view(acc@.push(slot)) =~= slots_view(acc@).push(slot@));
                        assert(slots_view(acc@) + (seq![slot@] + vs2) =~= slots_view(
                            acc@.push(slot),
                        ) + vs2);
                    } else {
                        assert(spec_parse_slot_seq(t_p, (count - j) as nat) is None);
                    }
                }
                acc.push(slot);
                p = p2;
                j = j + 1;
            },
        }
    }
    proof {
        assert(spec_parse_slot_seq(s@.skip(p as int), 0) == Some::<(Seq<SlotView>, nat)>(
            (Seq::empty(), 0),
        ));
        assert(slots_view(acc@) + Seq::<SlotView>::empty() =~= slots_view(acc@));
    }
    Some((acc, p))
}

/// Reads one location.
#[verifier::spinoff_prover]
#[verifier::rlimit(80)]
fn parse_loc(s: &str, pos: usize) -> (r: Option<(LocationBookings, usize)>)
    requires
        pos <= s@.len(),
    ensures
        ({
            let t = s@.skip(pos as int);
            match spec_parse_loc(t) {
                Some((v, used)) => r is Some && r.unwrap().0@ == v && r.unwrap().1 == pos + used,
                None => r is None,
            }
        }),
        r is Some ==> pos < r.unwrap().1 <= s@.len(),
{
    let ghost t = s@.skip(pos as int);
    let len = s.unicode_len();
    match parse_str(s, pos) {
        None => None,
        Some((key, p1)) => {
            proof {
                assert(t.skip((p1 - pos) as int) =~= s@.skip(p1 as int));
            }
            match parse_nat(s, p1) {
                None => {
                    proof {
                        let t2 = s@.skip(p1 as int);
                        if spec_parse_nat(t2) is Some {
                            let n = spec_parse_nat(t2).unwrap().0;
                            let u2 = spec_parse_nat(t2).unwrap().1;
                            assert(n > u64::MAX);
                            lemma_spec_parse_nat_bound(t2);
                            assert(t.skip(((p1 - pos) + u2) as int) =~= t2.skip(u2 as int));
                            assert(t2.skip(u2 as int).len() <= s@.len());
                            lemma_slot_seq_needs_text(t2.skip(u2 as int), n);
                        }
                    }
                    None
                },
                Some((count, p2)) => {
                    proof {
                        assert(t.skip((p2 - pos) as int) =~= s@.skip(p2 as int));
                    }
                    match parse_slot_seq(s, p2, count) {
                        None => None,
                        Some((slots, p3)) => {
                            proof {
                                assert(t.skip((p3 - pos) as int) =~= s@.skip(p3 as int));
                            }
                            match parse_opt_str(s, p3) {
                                None => None,
                                Some((hint, p4)) => {
                                    let built = LocationBookings {
                                        location: key,
                                        slots: slots,
                                        next_available_date: hint,
                                    };
                                    proof {
                                        let v = spec_parse_loc(t).unwrap().0;
                                        assert(built@.location == v.location);
                                        assert(built@.slots == v.slots);
                                        assert(built@.next_available_date
                                            == v.next_available_date);
                                    }
                                    Some((built, p4))
                                },
                            }
                        },
                    }
                },
            }
        },
    }
}

/// Reads exactly `count` locations.
fn parse_loc_seq(s: &str, pos: usize, count: u64) -> (r: Option<(Vec<LocationBookings>, usize)>)
    requires
        pos <= s@.len(),
    ensures
        ({
            let t = s@.skip(pos as int);
            match spec_parse_loc_seq(t, count as nat) {
                Some((vs, used)) => r is Some && locs_view(r.unwrap().0@) == vs && r.unwrap().1
                    == pos + used,
                None => r is None,
            }
        }),
        r is Some ==> pos <= r.unwrap().1 <= s@.len(),
{
    let ghost t0 = s@.skip(pos as int);
    let ghost goal = spec_parse_loc_seq(t0, count as nat);
    let mut acc: Vec<LocationBookings> = Vec::new();
    let mut p: usize = pos;
    let mut j: u64 = 0;
    while j < count
        invariant
            j <= count,
            pos <= p <= s@.len(),
            t0 == s@.skip(pos as int),
            goal == spec_parse_loc_seq(t0, count as nat),
            goal == match spec_parse_loc_seq(s@.skip(p as int), (count - j) as nat) {
                Some((vs, u)) => Some::<(Seq<LocationView>, nat)>(
                    (locs_view(acc@) + vs, ((p - pos) + u) as nat),
                ),
                None => None::<(Seq<LocationView>, nat)>,
            },
        decreases count - j,
    {
        let ghost t_p = s@.skip(p as int);
        match parse_loc(s, p) {
            None => {
                return None;
            },
            Some((loc, p2)) => {
                proof {
                    let u1 = (p2 - p) as nat;
                    assert(t_p.skip(u1 as int) =~= s@.skip(p2 as int));
                    let inner = spec_parse_loc_seq(s@.skip(p2 as int), (count - j - 1) as nat);
                    if inner is Some {
                        let vs2 = inner.unwrap().0;
                        let u2 = inner.unwrap().1;
                        assert(spec_parse_loc_seq(t_p, (count - j) as nat) == Some::<
                            (Seq<LocationView>, nat),
                        >((seq![loc@] + vs2, u1 + u2)));
                        assert(locs_view(acc@.push(loc)) =~= locs_view(acc@).push(loc@));
                        assert(locs_view(acc@) + (seq![loc@] + vs2) =~= locs_view(acc@.push(loc))
                            + vs2);
                    } else {
                        assert(spec_parse_loc_seq(t_p, (count - j) as nat) is None);
                    }
                }
                acc.push(loc);
                p = p2;
                j = j + 1;
            },
        }
    }
    proof {
        assert(spec_parse_loc_seq(s@.skip(p as int), 0) == Some::<(Seq<LocationView>, nat)>(
            (Seq::empty(), 0),
        ));
        assert(locs_view(acc@) + Seq::<LocationView>::empty() =~= locs_view(acc@));
    }
    Some((acc, p))
}

/// Reads a whole snapshot from text in the owned persistence format.
///
/// Succeeds exactly when the whole text is one snapshot of the format, and
/// then returns the snapshot that the text denotes.
pub fn decode_snapshot(s: &str) -> (r: Option<BookingData>)
    ensures
        ({
            match spec_parse_snapshot(s@) {
                Some((v, used)) => if used == s@.len() {
                    r is Some && r.unwrap()@ == v
                } else {
                    r is None
                },
                None => r is None,
            }
        }),
{
    let ghost t = s@;
    let len = s.unicode_len();
    proof {
        assert(s@.skip(0) =~= s@);
    }
    match parse_nat(s, 0) {
        None => {
            proof {
                if spec_parse_nat(t) is Some {
                    let n = spec_parse_nat(t).unwrap().0;
                    let u1 = spec_parse_nat(t).unwrap().1;
                    assert(n > u64::MAX);
                    lemma_spec_parse_nat_bound(t);
                    assert(t.skip(u1 as int).len() <= s@.len());
                    lemma_loc_seq_needs_text(t.skip(u1 as int), n);
                }
            }
            None
        },
        Some((count, p1)) => {
            match parse_loc_seq(s, p1, count) {
                None => None,
                Some((locs, p2)) => {
                    match parse_opt_str(s, p2) {
                        None => None,
                        Some((stamp, p3)) => {
                            if p3 != len {
                                return None;
                            }
                            Some(BookingData { results: locs, last_updated: stamp })
                        },
                    }
                },
            }
        },
    }
}

} // verus!
