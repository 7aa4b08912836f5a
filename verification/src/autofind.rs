//! Choosing the winning slot for the auto-find workflow.
//!
//! A slot qualifies when it is available and its start time, read as a
//! calendar date, is on or before the caller's deadline.  Among qualifying
//! slots the earliest start time wins, by the slot ordering (lexical order
//! on the start-time text); among locations reporting that same time, the
//! first in input order wins.

use vstd::prelude::*;
use crate::model::{LocationBookings, LocationView, SlotView, TimeSlot, locs_view};
use crate::dates::{CalendarDate, spec_parse_portal_datetime, spec_date_le, parse_portal_datetime};

verus! {

/// Lexical order on texts, by character code.
pub open spec fn lex_le(a: Seq<char>, b: Seq<char>) -> bool
    decreases a.len(),
{
    if a.len() == 0 {
        true
    } else if b.len() == 0 {
        false
    } else if a[0] != b[0] {
        (a[0] as u32) < (b[0] as u32)
    } else {
        lex_le(a.drop_first(), b.drop_first())
    }
}

/// Every text precedes itself.
pub proof fn lemma_lex_le_refl(a: Seq<char>)
    ensures
        lex_le(a, a),
    decreases a.len(),
{
    if a.len() > 0 {
        lemma_lex_le_refl(a.drop_first());
    }
}

/// Any two texts compare one way or the other.
pub proof fn lemma_lex_le_total(a: Seq<char>, b: Seq<char>)
    ensures
        lex_le(a, b) || lex_le(b, a),
    decreases a.len(),
{
    if a.len() > 0 && b.len() > 0 {
        if a[0] == b[0] {
            lemma_lex_le_total(a.drop_first(), b.drop_first());
        } else {
            vstd::utf8::char_u32_cast(a[0], a[0] as u32);
            vstd::utf8::char_u32_cast(b[0], b[0] as u32);
        }
    }
}

/// Texts that precede each other are equal.
pub proof fn lemma_lex_le_antisym(a: Seq<char>, b: Seq<char>)
    requires
        lex_le(a, b),
        lex_le(b, a),
    ensures
        a == b,
    decreases a.len(),
{
    if a.len() == 0 {
        assert(b.len() == 0);
        assert(a =~= b);
    } else {
        vstd::utf8::char_u32_cast(a[0], a[0] as u32);
        vstd::utf8::char_u32_cast(b[0], b[0] as u32);
        assert(a[0] == b[0]);
        lemma_lex_le_antisym(a.drop_first(), b.drop_first());
        assert(a.drop_first() == b.drop_first());
        assert(a.drop_first().len() == b.drop_first().len());
        assert(a.len() == b.len());
        assert forall|k: int| 0 <= k < a.len() implies a[k] == b[k] by {
            if k > 0 {
                assert(a[k] == a.drop_first()[k - 1]);
                assert(b[k] == b.drop_first()[k - 1]);
            }
        }
        assert(a =~= b);
    }
}

/// Lexical order is transitive.
pub proof fn lemma_lex_le_trans(a: Seq<char>, b: Seq<char>, c: Seq<char>)
    requires
        lex_le(a, b),
        lex_le(b, c),
    ensures
        lex_le(a, c),
    decreases a.len(),
{
    if a.len() == 0 {
    } else {
        assert(b.len() > 0);
        assert(c.len() > 0);
        if a[0] == b[0] && b[0] == c[0] {
            lemma_lex_le_trans(a.drop_first(), b.drop_first(), c.drop_first());
        }
    }
}

/// Compares two texts in lexical order.
pub fn str_le(a: &str, b: &str) -> (r: bool)
    ensures
        r == lex_le(a@, b@),
{
    let alen = a.unicode_len();
    let blen = b.unicode_len();
    let mut i: usize = 0;
    proof {
        assert(a@.skip(0) =~= a@);
        assert(b@.skip(0) =~= b@);
    }
    while i < alen && i < blen
        invariant
            i <= alen,
            i <= blen,
            alen == a@.len(),
            blen == b@.len(),
            lex_le(a@, b@) == lex_le(a@.skip(i as int), b@.skip(i as int)),
        decreases alen - i,
    {
        let ca = a.get_char(i);
        let cb = b.get_char(i);
        proof {
            assert(a@.skip(i as int)[0] == a@[i as int]);
            assert(b@.skip(i as int)[0] == b@[i as int]);
            assert(a@.skip(i as int).drop_first() =~= a@.skip(i as int + 1));
            assert(b@.skip(i as int).drop_first() =~= b@.skip(i as int + 1));
        }
        if ca != cb {
            return (ca as u32) < (cb as u32);
        }
        i = i + 1;
    }
    proof {
        if i == alen {
            assert(a@.skip(i as int).len() == 0);
        } else {
            assert(b@.skip(i as int).len() == 0);
            assert(a@.skip(i as int).len() > 0);
        }
    }
    i == alen
}


/// Compares two texts for equality of their characters.
pub fn str_eq(a: &str, b: &str) -> (r: bool)
    ensures
        r == (a@ == b@),
{
    let le1 = str_le(a, b);
    let le2 = str_le(b, a);
    proof {
        if le1 && le2 {
            lemma_lex_le_antisym(a@, b@);
        }
        if a@ == b@ {
            lemma_lex_le_refl(a@);
        }
    }
    le1 && le2
}

/// Whether a slot qualifies for the deadline: it is available and its start
/// time names a date on or before the deadline.
pub open spec fn qualifies(slot: SlotView, deadline: CalendarDate) -> bool {
    &&& slot.availability
    &&& match spec_parse_portal_datetime(slot.start_time) {
        Some(d) => spec_date_le(d, deadline),
        None => false,
    }
}

/// The slot at location `i`, position `j`.
pub open spec fn slot_at(lv: Seq<LocationView>, i: int, j: int) -> SlotView {
    lv[i].slots[j]
}

/// Whether the pair of indexes names a slot at all.
pub open spec fn in_range(lv: Seq<LocationView>, i: int, j: int) -> bool {
    0 <= i < lv.len() && 0 <= j < lv[i].slots.len()
}

/// Location `i` reports a qualifying slot at exactly time `t`.
pub open spec fn has_winning_slot(
    lv: Seq<LocationView>,
    deadline: CalendarDate,
    i: int,
    t: Seq<char>,
) -> bool {
    exists|j: int|
        0 <= j < lv[i].slots.len() && qualifies(#[trigger] lv[i].slots[j], deadline)
            && lv[i].slots[j].start_time == t
}

/// Whether this slot qualifies for the deadline.
pub fn slot_qualifies(slot: &TimeSlot, deadline: &CalendarDate) -> (r: bool)
    ensures
        r == qualifies(slot@, *deadline),
{
    if !slot.availability {
        return false;
    }
    match parse_portal_datetime(slot.start_time.as_str()) {
        Some(d) => d.on_or_before(deadline),
        None => false,
    }
}


/// Law: a slot dated after the deadline never qualifies, even when it is
/// available — and so does a slot whose start time parses as no date.
pub proof fn lemma_late_slot_never_qualifies(slot: SlotView, deadline: CalendarDate)
    requires
        match spec_parse_portal_datetime(slot.start_time) {
            Some(d) => !spec_date_le(d, deadline),
            None => true,
        },
    ensures
        !qualifies(slot, deadline),
{
}

/// Finds the winning qualifying `(location, start time)` pair of one
/// cycle's results, or nothing when no slot qualifies.
///
/// The winner has the earliest qualifying start time in lexical order;
/// among locations reporting that same time, the first in input order.
pub fn find_first_candidate(results: &Vec<LocationBookings>, deadline: &CalendarDate) -> (r:
    Option<(String, String)>)
    ensures
        ({
            let lv = locs_view(results@);
            &&& r is None ==> forall|i: int, j: int|
                in_range(lv, i, j) ==> !qualifies(#[trigger] slot_at(lv, i, j), *deadline)
            &&& r is Some ==> forall|i: int, j: int|
                in_range(lv, i, j) && qualifies(#[trigger] slot_at(lv, i, j), *deadline)
                    ==> lex_le(r.unwrap().1@, slot_at(lv, i, j).start_time)
            &&& r is Some ==> exists|i0: int|
                0 <= i0 < lv.len() && #[trigger] has_winning_slot(lv, *deadline, i0, r.unwrap().1@)
                    && lv[i0].location == r.unwrap().0@ && (forall|i: int|
                    0 <= i < i0 ==> !has_winning_slot(lv, *deadline, i, r.unwrap().1@))
        }),
{
    let ghost lv = locs_view(results@);
    let mut best: Option<(String, String)> = None;
    let ghost mut best_i: int = 0;
    let mut i: usize = 0;
    while i < results.len()
        invariant
            i <= results.len(),
            lv == locs_view(results@),
            best is None ==> forall|i2: int, j2: int|
                0 <= i2 < i && 0 <= j2 < lv[i2].slots.len() ==> !qualifies(
                    #[trigger] slot_at(lv, i2, j2),
                    *deadline,
                ),
            best is Some ==> {
                &&& 0 <= best_i < i
                &&& has_winning_slot(lv, *deadline, best_i, best.unwrap().1@)
                &&& lv[best_i].location == best.unwrap().0@
                &&& forall|i2: int|
                    0 <= i2 < best_i ==> !has_winning_slot(lv, *deadline, i2, best.unwrap().1@)
                &&& forall|i2: int, j2: int|
                    0 <= i2 < i && 0 <= j2 < lv[i2].slots.len() && qualifies(
                        #[trigger] slot_at(lv, i2, j2),
                        *deadline,
                    ) ==> lex_le(best.unwrap().1@, slot_at(lv, i2, j2).start_time)
            },
        decreases results.len() - i,
    {
        let loc = &results[i];
        proof {
            assert(lv[i as int] == loc@);
        }
        let mut j: usize = 0;
        while j < loc.slots.len()
            invariant
                i < results.len(),
                j <= loc.slots.len(),
                lv == locs_view(results@),
                loc == &results@[i as int],
                lv[i as int] == loc@,
                best is None ==> forall|i2: int, j2: int|
                    (0 <= i2 < i && 0 <= j2 < lv[i2].slots.len()) || (i2 == i && 0 <= j2 < j)
                        ==> !qualifies(#[trigger] slot_at(lv, i2, j2), *deadline),
                best is Some ==> {
                    &&& 0 <= best_i <= i
                    &&& has_winning_slot(lv, *deadline, best_i, best.unwrap().1@)
                    &&& lv[best_i].location == best.unwrap().0@
                    &&& forall|i2: int|
                        0 <= i2 < best_i ==> !has_winning_slot(lv, *deadline, i2, best.unwrap().1@)
                    &&& forall|i2: int, j2: int|
                        ((0 <= i2 < i && 0 <= j2 < lv[i2].slots.len()) || (i2 == i && 0 <= j2 < j))
                            && qualifies(#[trigger] slot_at(lv, i2, j2), *deadline) ==> lex_le(
                            best.unwrap().1@,
                            slot_at(lv, i2, j2).start_time,
                        )
                },
            decreases loc.slots.len() - j,
        {
            let slot = &loc.slots[j];
            proof {
                assert(slot_at(lv, i as int, j as int) == slot@);
            }
            if slot_qualifies(slot, deadline) {
                let replace = match &best {
                    None => true,
                    Some(pair) => !str_le(pair.1.as_str(), slot.start_time.as_str()),
                };
                if replace {
                    proof {
                        let tn = slot.start_time@;
                        if best is Some {
                            let bt = best.unwrap().1@;
                            lemma_lex_le_total(bt, tn);
                            assert(lex_le(tn, bt));
                            assert forall|i2: int, j2: int|
                                ((0 <= i2 < i && 0 <= j2 < lv[i2].slots.len()) || (i2 == i && 0
                                    <= j2 < j)) && qualifies(
                                    #[trigger] slot_at(lv, i2, j2),
                                    *deadline,
                                ) implies lex_le(tn, slot_at(lv, i2, j2).start_time) by {
                                lemma_lex_le_trans(tn, bt, slot_at(lv, i2, j2).start_time);
                            }
                            assert forall|i2: int| 0 <= i2 < i implies !has_winning_slot(
                                lv,
                                *deadline,
                                i2,
                                tn,
                            ) by {
                                if has_winning_slot(lv, *deadline, i2, tn) {
                                    let j2 = choose|j2: int|
                                        0 <= j2 < lv[i2].slots.len() && qualifies(
                                            #[trigger] lv[i2].slots[j2],
                                            *deadline,
                                        ) && lv[i2].slots[j2].start_time == tn;
                                    assert(qualifies(slot_at(lv, i2, j2), *deadline));
                                    assert(lex_le(bt, tn));
                                }
                            }
                        } else {
                            assert forall|i2: int| 0 <= i2 < i implies !has_winning_slot(
                                lv,
                                *deadline,
                                i2,
                                tn,
                            ) by {
                                if has_winning_slot(lv, *deadline, i2, tn) {
                                    let j2 = choose|j2: int|
                                        0 <= j2 < lv[i2].slots.len() && qualifies(
                                            #[trigger] lv[i2].slots[j2],
                                            *deadline,
                                        ) && lv[i2].slots[j2].start_time == tn;
                                    assert(qualifies(slot_at(lv, i2, j2), *deadline));
                                }
                            }
                        }
                        lemma_lex_le_refl(tn);
                        assert(qualifies(lv[i as int].slots[j as int], *deadline));
                        assert(has_winning_slot(lv, *deadline, i as int, tn));
                    }
                    best = Some((loc.location.clone(), slot.start_time.clone()));
                    proof {
                        best_i = i as int;
                    }
                }
            }
            j = j + 1;
        }
        i = i + 1;
    }
    proof {
        if best is Some {
            assert(0 <= best_i < lv.len());
        }
    }
    best
}

} // verus!
