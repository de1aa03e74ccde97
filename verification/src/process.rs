//! The core of the library: select the actionable records, fold duplicates
//! per entity keeping the most recently listed one, and put urgent records
//! ahead of normal ones.

use vstd::prelude::*;

use crate::domain::{Action, Priority};

verus! {

broadcast use vstd::seq_lib::group_seq_lib_default, Seq::lemma_filter_push;

/// Seconds in one day.
pub const SECONDS_PER_DAY: i64 = 86400;

/// An action performed within the last 7 days is too soon to repeat.
pub const REPEAT_WINDOW_SECONDS: i64 = 7 * SECONDS_PER_DAY;

/// An action due more than 90 days out is not yet actionable.
pub const DUE_WINDOW_SECONDS: i64 = 90 * SECONDS_PER_DAY;

/// An action is actionable at instant `now` iff it is due within 90 days and
/// was last performed at least 7 days ago. Both bounds are inclusive: a record
/// due exactly 90 days out, or last performed exactly 7 days ago, passes.
pub open spec fn in_window(a: Action, now: int) -> bool {
    &&& a.next_action_time <= now + DUE_WINDOW_SECONDS
    &&& a.last_action_time <= now - REPEAT_WINDOW_SECONDS
}

/// The instants at which both window thresholds can be computed in `i64`
/// arithmetic. Every clock reading lies far inside these machine limits.
pub open spec fn valid_now(now: int) -> bool {
    i64::MIN + REPEAT_WINDOW_SECONDS <= now <= i64::MAX - DUE_WINDOW_SECONDS
}

/// The subsequence of `s` that is actionable at `now`, in input order.
pub open spec fn window_filtered(s: Seq<Action>, now: int) -> Seq<Action> {
    s.filter(|a: Action| in_window(a, now))
}

/// Some record at position `from` or later carries the entity id `id`.
pub open spec fn id_occurs_from(s: Seq<Action>, from: int, id: Seq<char>) -> bool {
    exists|j: int| from <= j < s.len() && s[j].entity_id@ == id
}

/// The records among the first `i` of `s` whose entity id does not occur again
/// later in `s`, in input order. Judging each record against the whole of `s`
/// makes this the last-write-wins fold: a record survives exactly when it is
/// the last occurrence of its entity id.
pub open spec fn dedup_upto(s: Seq<Action>, i: int) -> Seq<Action>
    decreases i,
{
    if i <= 0 {
        Seq::empty()
    } else if id_occurs_from(s, i, s[i - 1].entity_id@) {
        dedup_upto(s, i - 1)
    } else {
        dedup_upto(s, i - 1).push(s[i - 1])
    }
}

/// The last occurrence of each entity id of `s`, in input order.
pub open spec fn dedup_last_wins(s: Seq<Action>) -> Seq<Action> {
    dedup_upto(s, s.len() as int)
}

/// The records of `s` carrying priority `p`, in input order.
pub open spec fn with_priority(s: Seq<Action>, p: Priority) -> Seq<Action> {
    s.filter(|a: Action| a.priority == p)
}

/// `s` reordered so that every urgent record precedes every normal one;
/// records of equal priority keep their relative order.
pub open spec fn order_by_priority(s: Seq<Action>) -> Seq<Action> {
    with_priority(s, Priority::Urgent) + with_priority(s, Priority::Normal)
}

/// What processing a batch at instant `now` returns: the actionable records,
/// one per entity id (the last listed one), urgent ones first.
pub open spec fn process_spec(s: Seq<Action>, now: int) -> Seq<Action> {
    order_by_priority(dedup_last_wins(window_filtered(s, now)))
}

/// Whether `a` is actionable at `now`: due within 90 days (inclusive) and
/// last performed at least 7 days ago (inclusive).
fn action_in_window(a: &Action, now: i64) -> (r: bool)
    requires
        valid_now(now as int),
    ensures
        r == in_window(*a, now as int),
{
    a.next_action_time <= now + DUE_WINDOW_SECONDS
        && a.last_action_time <= now - REPEAT_WINDOW_SECONDS
}

/// Whether the entity id of `v[i]` occurs again at a later position of `v`.
fn has_later_duplicate(v: &Vec<Action>, i: usize) -> (dup: bool)
    requires
        i < v@.len(),
    ensures
        dup == id_occurs_from(v@, i + 1, v@[i as int].entity_id@),
{
    let ghost id = v@[i as int].entity_id@;
    let n = v.len();
    let mut j: usize = i + 1;
    let mut dup = false;
    while j < n
        invariant
            i < j <= n == v@.len(),
            id == v@[i as int].entity_id@,
            dup == exists|t: int| i < t < j && v@[t].entity_id@ == id,
        decreases n - j,
    {
        if v[j].entity_id == v[i].entity_id {
            dup = true;
            proof {
                assert(v@[j as int].entity_id@ == id);
            }
        } else {
            proof {
                assert(v@[j as int].entity_id@ != id);
            }
        }
        j += 1;
    }
    dup
}

/// Processes a batch of actions against the evaluation instant `now` (UTC
/// seconds since the Unix epoch): keeps the actionable records, folds
/// duplicates per entity id keeping the record listed last, and returns the
/// survivors with every urgent record ahead of every normal one.
pub fn process_actions_at(input: Vec<Action>, now: i64) -> (result: Vec<Action>)
    requires
        valid_now(now as int),
    ensures
        result@ == process_spec(input@, now as int),
{
    let ghost orig: Seq<Action> = input@;

    // Step 1: keep the records that are actionable at `now`.
    let n_in = input.len();
    let mut pending = input;
    let mut filtered: Vec<Action> = Vec::new();
    let mut i: usize = 0;
    while i < n_in
        invariant
            valid_now(now as int),
            i <= n_in == orig.len(),
            pending@ == orig.skip(i as int),
            filtered@ == window_filtered(orig.take(i as int), now as int),
        decreases n_in - i,
    {
        let a = pending.remove(0);
        proof {
            assert(a == orig[i as int]);
            assert(pending@ =~= orig.skip(i + 1));
            assert(orig.take(i + 1) =~= orig.take(i as int).push(orig[i as int]));
            assert(window_filtered(orig.take(i + 1), now as int)
                == window_filtered(orig.take(i as int).push(orig[i as int]), now as int));
        }
        if action_in_window(&a, now) {
            filtered.push(a);
        }
        i += 1;
    }
    proof {
        assert(orig.take(n_in as int) =~= orig);
    }

    // Step 2: mark the records that are the last occurrence of their entity id.
    let ghost fseq: Seq<Action> = filtered@;
    let n = filtered.len();
    let mut keep: Vec<bool> = Vec::new();
    let mut i: usize = 0;
    while i < n
        invariant
            i <= n == fseq.len(),
            filtered@ == fseq,
            keep@.len() == i as int,
            forall|t: int| #![auto] 0 <= t < i
                ==> keep@[t] == !id_occurs_from(fseq, t + 1, fseq[t].entity_id@),
        decreases n - i,
    {
        let dup = has_later_duplicate(&filtered, i);
        keep.push(!dup);
        i += 1;
    }

    // Step 3: move the survivors out, urgent records ahead of normal ones.
    let mut rest = filtered;
    let mut urgent: Vec<Action> = Vec::new();
    let mut normal: Vec<Action> = Vec::new();
    let mut i: usize = 0;
    while i < n
        invariant
            i <= n == fseq.len(),
            keep@.len() == n as int,
            forall|t: int| #![auto] 0 <= t < n
                ==> keep@[t] == !id_occurs_from(fseq, t + 1, fseq[t].entity_id@),
            rest@ == fseq.skip(i as int),
            urgent@ == with_priority(dedup_upto(fseq, i as int), Priority::Urgent),
            normal@ == with_priority(dedup_upto(fseq, i as int), Priority::Normal),
        decreases n - i,
    {
        let a = rest.remove(0);
        proof {
            assert(a == fseq[i as int]);
            assert(rest@ =~= fseq.skip(i + 1));
        }
        if keep[i] {
            proof {
                assert(dedup_upto(fseq, i + 1) == dedup_upto(fseq, i as int).push(a));
            }
            if a.priority == Priority::Urgent {
                urgent.push(a);
            } else {
                proof {
                    assert(a.priority == Priority::Normal);
                }
                normal.push(a);
            }
        } else {
            proof {
                assert(dedup_upto(fseq, i + 1) == dedup_upto(fseq, i as int));
            }
        }
        i += 1;
    }

    let mut result = urgent;
    result.append(&mut normal);
    result
}

/// The latest instant chrono can represent, in seconds since the Unix epoch:
/// the timestamp of `chrono::DateTime::MAX_UTC`, the last second of year
/// 262142.
pub const MAX_CLOCK_SECONDS: i64 = 8210266876799;

/// Relies on `chrono::Utc::now` and `chrono::DateTime::timestamp`: the current
/// UTC time in whole seconds since the Unix epoch. `Utc::now` panics rather
/// than return an instant before the epoch, and any datetime it returns lies
/// within chrono's representable range, so the reading is non-negative and at
/// most `MAX_CLOCK_SECONDS`.
#[verifier::external_body]
fn now_timestamp() -> (now: i64)
    ensures
        0 <= now <= MAX_CLOCK_SECONDS,
{
    chrono::Utc::now().timestamp()
}

/// Processes a batch of actions against the clock: captures the evaluation
/// instant once, then keeps the actionable records, folds duplicates per
/// entity id keeping the record listed last, and returns the survivors with
/// every urgent record ahead of every normal one.
pub fn process_actions(input: Vec<Action>) -> (result: Vec<Action>)
    ensures
        exists|now: int| #[trigger] process_spec(input@, now) == result@
            && 0 <= now <= MAX_CLOCK_SECONDS,
{
    let now = now_timestamp();
    let result = process_actions_at(input, now);
    proof {
        assert(process_spec(input@, now as int) == result@);
    }
    result
}

} // verus!
