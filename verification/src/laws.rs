//! Laws the processing pipeline obeys, stated over the specification
//! functions and proved once and for all.

use vstd::prelude::*;

use crate::domain::{Action, Priority};
use crate::process::{
    dedup_last_wins, dedup_upto, id_occurs_from, in_window, order_by_priority, process_spec,
    window_filtered, with_priority, DUE_WINDOW_SECONDS, REPEAT_WINDOW_SECONDS,
};

verus! {

/// No two positions of `s` carry the same entity id.
pub open spec fn distinct_ids(s: Seq<Action>) -> bool {
    forall|p: int, q: int| 0 <= p < q < s.len()
        ==> s[p].entity_id@ != s[q].entity_id@
}

/// The entity ids carried by the records of `s`.
pub open spec fn ids_of(s: Seq<Action>) -> Set<Seq<char>> {
    Set::new(|id: Seq<char>| id_occurs_from(s, 0, id))
}

/// Every element of a filtered sequence is an element of the original one.
proof fn lemma_filter_is_subset<A>(s: Seq<A>, pred: spec_fn(A) -> bool)
    ensures
        forall|k: int| 0 <= k < s.filter(pred).len()
            ==> s.contains(#[trigger] s.filter(pred)[k]),
    decreases s.len(),
{
    reveal(Seq::filter);
    if s.len() > 0 {
        lemma_filter_is_subset(s.drop_last(), pred);
        assert forall|k: int| 0 <= k < s.filter(pred).len() implies s.contains(
            #[trigger] s.filter(pred)[k],
        ) by {
            let fd = s.drop_last().filter(pred);
            if k < fd.len() {
                let u = choose|u: int| 0 <= u < s.drop_last().len() && s.drop_last()[u] == fd[k];
                assert(s[u] == fd[k]);
            } else {
                assert(s.filter(pred)[k] == s.last());
            }
        }
    }
}

/// Filtering a sequence whose every element passes the predicate changes nothing.
proof fn lemma_filter_keeps_all<A>(s: Seq<A>, pred: spec_fn(A) -> bool)
    requires
        forall|k: int| 0 <= k < s.len() ==> pred(#[trigger] s[k]),
    ensures
        s.filter(pred) == s,
    decreases s.len(),
{
    reveal(Seq::filter);
    if s.len() > 0 {
        assert(forall|k: int| 0 <= k < s.drop_last().len()
            ==> pred(#[trigger] s.drop_last()[k]));
        lemma_filter_keeps_all(s.drop_last(), pred);
        assert(pred(s.last()));
        assert(s.filter(pred) == s.drop_last().filter(pred).push(s.last()));
        assert(s.drop_last().push(s.last()) =~= s);
    }
}

/// Filtering a sequence none of whose elements passes the predicate leaves
/// nothing.
proof fn lemma_filter_keeps_none<A>(s: Seq<A>, pred: spec_fn(A) -> bool)
    requires
        forall|k: int| 0 <= k < s.len() ==> !pred(#[trigger] s[k]),
    ensures
        s.filter(pred) == Seq::<A>::empty(),
    decreases s.len(),
{
    reveal(Seq::filter);
    if s.len() > 0 {
        assert forall|k: int| 0 <= k < s.drop_last().len() implies !pred(
            #[trigger] s.drop_last()[k],
        ) by {
            assert(s.drop_last()[k] == s[k]);
        };
        lemma_filter_keeps_none(s.drop_last(), pred);
        assert(!pred(s.last()));
    }
}

/// Deduplication leaves a sequence of pairwise distinct entity ids unchanged.
proof fn lemma_dedup_distinct_identity(s: Seq<Action>, i: int)
    requires
        distinct_ids(s),
        0 <= i <= s.len(),
    ensures
        dedup_upto(s, i) == s.take(i),
    decreases i,
{
    if i > 0 {
        lemma_dedup_distinct_identity(s, i - 1);
        assert(!id_occurs_from(s, i, s[i - 1].entity_id@)) by {
            if id_occurs_from(s, i, s[i - 1].entity_id@) {
                let j = choose|j: int|
                    i <= j < s.len() && (#[trigger] s[j]).entity_id@ == s[i - 1].entity_id@;
                assert(s[i - 1].entity_id@ != s[j].entity_id@);
            }
        };
        assert(s.take(i - 1).push(s[i - 1]) =~= s.take(i));
    } else {
        assert(s.take(0) =~= Seq::<Action>::empty());
    }
}

/// Every record of the output passes the windows at the `now` it was
/// processed against, so re-applying the same windows to the output
/// removes nothing.
pub proof fn lemma_refilter_consistent(s: Seq<Action>, now: int)
    ensures
        window_filtered(process_spec(s, now), now) == process_spec(s, now),
{
    let pred = |a: Action| in_window(a, now);
    let f = window_filtered(s, now);
    let d = dedup_last_wins(f);
    let out = process_spec(s, now);
    lemma_dedup_upto_props(f, f.len() as int);
    lemma_filter_is_subset(d, |a: Action| a.priority == Priority::Urgent);
    lemma_filter_is_subset(d, |a: Action| a.priority == Priority::Normal);
    assert forall|k: int| 0 <= k < out.len() implies pred(#[trigger] out[k]) by {
        let part_u = with_priority(d, Priority::Urgent);
        let part_n = with_priority(d, Priority::Normal);
        let x = if k < part_u.len() {
            part_u[k]
        } else {
            part_n[k - part_u.len()]
        };
        assert(out[k] == x);
        assert(d.contains(x));
        let t = choose|t: int| 0 <= t < d.len() && d[t] == x;
        assert(f.contains(d[t]));
        let w = choose|w: int| 0 <= w < f.len() && f[w] == d[t];
        assert(pred(f[w]));
    };
    lemma_filter_keeps_all(out, pred);
}

/// Every record strictly before position `k` of `s` is urgent and every
/// record from `k` on is normal.
pub open spec fn partitioned_at(s: Seq<Action>, k: int) -> bool {
    &&& 0 <= k <= s.len()
    &&& forall|i: int| 0 <= i < k ==> (#[trigger] s[i]).priority == Priority::Urgent
    &&& forall|i: int| k <= i < s.len() ==> (#[trigger] s[i]).priority == Priority::Normal
}

/// The output is partitioned by priority: up to some index everything is
/// urgent, from it on everything is normal.
pub proof fn lemma_priority_partition(s: Seq<Action>, now: int)
    ensures
        exists|k: int| #[trigger] partitioned_at(process_spec(s, now), k),
{
    let out = process_spec(s, now);
    let d = dedup_last_wins(window_filtered(s, now));
    let part_u = with_priority(d, Priority::Urgent);
    let part_n = with_priority(d, Priority::Normal);
    let k = part_u.len() as int;
    assert(forall|i: int| 0 <= i < k ==> (#[trigger] out[i]).priority == Priority::Urgent);
    assert(forall|i: int| k <= i < out.len() ==> (#[trigger] out[i]).priority
        == Priority::Normal);
    assert(partitioned_at(out, k));
}

/// A filtered sequence of records with pairwise distinct entity ids again has
/// pairwise distinct entity ids.
proof fn lemma_filter_keeps_distinct(s: Seq<Action>, pred: spec_fn(Action) -> bool)
    requires
        distinct_ids(s),
    ensures
        distinct_ids(s.filter(pred)),
    decreases s.len(),
{
    reveal(Seq::filter);
    if s.len() > 0 {
        assert forall|p: int, q: int| 0 <= p < q < s.drop_last().len() implies s.drop_last()[p].entity_id@
            != s.drop_last()[q].entity_id@ by {
            assert(s.drop_last()[p] == s[p]);
            assert(s.drop_last()[q] == s[q]);
        };
        lemma_filter_keeps_distinct(s.drop_last(), pred);
        let f = s.filter(pred);
        let fd = s.drop_last().filter(pred);
        if pred(s.last()) {
            lemma_filter_is_subset(s.drop_last(), pred);
            assert forall|p: int, q: int| 0 <= p < q < f.len() implies f[p].entity_id@
                != f[q].entity_id@ by {
                if q < fd.len() {
                    assert(f[p] == fd[p] && f[q] == fd[q]);
                } else {
                    assert(f[q] == s.last());
                    assert(s.drop_last().contains(fd[p]));
                    let u = choose|u: int|
                        0 <= u < s.drop_last().len() && s.drop_last()[u] == fd[p];
                    assert(s[u] == fd[p]);
                    assert(s[u].entity_id@ != s[s.len() - 1].entity_id@);
                }
            };
        }
    }
}

/// If some record of `s` carries `id`, a record of `s` carries `id` with no
/// later record carrying it: a last occurrence exists.
proof fn lemma_exists_last_occurrence(s: Seq<Action>, id: Seq<char>, j: int)
    requires
        0 <= j < s.len(),
        s[j].entity_id@ == id,
    ensures
        exists|w: int| 0 <= w < s.len() && (#[trigger] s[w]).entity_id@ == id
            && !id_occurs_from(s, w + 1, id),
    decreases s.len() - j,
{
    if id_occurs_from(s, j + 1, id) {
        let j2 = choose|t: int| j + 1 <= t < s.len() && s[t].entity_id@ == id;
        lemma_exists_last_occurrence(s, id, j2);
    }
}

/// Two records of a sequence with pairwise distinct entity ids that carry the
/// same entity id are the same record.
proof fn lemma_distinct_ids_unique(s: Seq<Action>, x: Action, y: Action)
    requires
        distinct_ids(s),
        s.contains(x),
        s.contains(y),
        x.entity_id@ == y.entity_id@,
    ensures
        x == y,
{
    let p = choose|p: int| 0 <= p < s.len() && s[p] == x;
    let q = choose|q: int| 0 <= q < s.len() && s[q] == y;
    if p < q {
        assert(s[p].entity_id@ != s[q].entity_id@);
    } else if q < p {
        assert(s[q].entity_id@ != s[p].entity_id@);
    }
}

/// Every record of `order_by_priority(d)` is a record of `d`.
proof fn lemma_ordered_is_subset(d: Seq<Action>, k: int)
    requires
        0 <= k < order_by_priority(d).len(),
    ensures
        d.contains(order_by_priority(d)[k]),
{
    lemma_filter_is_subset(d, |a: Action| a.priority == Priority::Urgent);
    lemma_filter_is_subset(d, |a: Action| a.priority == Priority::Normal);
    let part_u = with_priority(d, Priority::Urgent);
    let part_n = with_priority(d, Priority::Normal);
    if k < part_u.len() {
        assert(order_by_priority(d)[k] == part_u[k]);
    } else {
        assert(order_by_priority(d)[k] == part_n[k - part_u.len()]);
    }
}

/// Every record of `d` appears in `order_by_priority(d)`.
proof fn lemma_ordered_contains(d: Seq<Action>, x: Action)
    requires
        d.contains(x),
    ensures
        order_by_priority(d).contains(x),
{
    broadcast use vstd::seq_lib::group_filter_ensures;

    let t = choose|t: int| 0 <= t < d.len() && d[t] == x;
    let part_u = with_priority(d, Priority::Urgent);
    let part_n = with_priority(d, Priority::Normal);
    if x.priority == Priority::Urgent {
        assert(part_u.contains(d[t]));
        let m = choose|m: int| 0 <= m < part_u.len() && part_u[m] == x;
        assert(order_by_priority(d)[m] == x);
    } else {
        assert(x.priority == Priority::Normal);
        assert(part_n.contains(d[t]));
        let m = choose|m: int| 0 <= m < part_n.len() && part_n[m] == x;
        assert(order_by_priority(d)[part_u.len() + m] == x);
    }
}

/// The elements of `dedup_upto(s, i)` are exactly the records among the first
/// `i` of `s` whose entity id does not occur later in `s`, and no two of them
/// share an entity id.
proof fn lemma_dedup_upto_props(s: Seq<Action>, i: int)
    requires
        0 <= i <= s.len(),
    ensures
        forall|t: int| #![trigger dedup_upto(s, i)[t]] 0 <= t < dedup_upto(s, i).len()
            ==> exists|u: int| 0 <= u < i && dedup_upto(s, i)[t] == #[trigger] s[u]
                && !id_occurs_from(s, u + 1, s[u].entity_id@),
        forall|u: int| #![auto] 0 <= u < i && !id_occurs_from(s, u + 1, s[u].entity_id@)
            ==> dedup_upto(s, i).contains(s[u]),
        distinct_ids(dedup_upto(s, i)),
    decreases i,
{
    if i > 0 {
        lemma_dedup_upto_props(s, i - 1);
        let d = dedup_upto(s, i);
        let dp = dedup_upto(s, i - 1);
        if !id_occurs_from(s, i, s[i - 1].entity_id@) {
            assert(d == dp.push(s[i - 1]));
            assert forall|u: int| #![auto] 0 <= u < i && !id_occurs_from(
                s,
                u + 1,
                s[u].entity_id@,
            ) implies d.contains(s[u]) by {
                if u < i - 1 {
                    let t = choose|t: int| 0 <= t < dp.len() && dp[t] == s[u];
                    assert(d[t] == s[u]);
                } else {
                    assert(d[d.len() - 1] == s[i - 1]);
                }
            };
            assert forall|p: int, q: int| 0 <= p < q < d.len() implies d[p].entity_id@
                != d[q].entity_id@ by {
                if q == d.len() - 1 {
                    let u = choose|u: int|
                        0 <= u < i - 1 && dp[p] == s[u]
                            && !id_occurs_from(s, u + 1, s[u].entity_id@);
                    if d[p].entity_id@ == d[q].entity_id@ {
                        assert(s[i - 1].entity_id@ == s[u].entity_id@);
                        assert(id_occurs_from(s, u + 1, s[u].entity_id@));
                    }
                }
            };
        }
    }
}

/// The output never carries the same entity id twice, and its set of entity
/// ids is exactly the set of entity ids among the records that pass the time
/// windows: deduplication drops records, never an entity.
pub proof fn lemma_dedup_cardinality(s: Seq<Action>, now: int)
    ensures
        distinct_ids(process_spec(s, now)),
        ids_of(process_spec(s, now)) == ids_of(window_filtered(s, now)),
{
    let f = window_filtered(s, now);
    let d = dedup_last_wins(f);
    let part_u = with_priority(d, Priority::Urgent);
    let part_n = with_priority(d, Priority::Normal);
    let out = process_spec(s, now);
    lemma_dedup_upto_props(f, f.len() as int);
    lemma_filter_keeps_distinct(d, |a: Action| a.priority == Priority::Urgent);
    lemma_filter_keeps_distinct(d, |a: Action| a.priority == Priority::Normal);

    assert forall|p: int, q: int| 0 <= p < q < out.len() implies out[p].entity_id@
        != out[q].entity_id@ by {
        broadcast use vstd::seq_lib::group_filter_ensures;

        lemma_ordered_is_subset(d, p);
        lemma_ordered_is_subset(d, q);
        if p < part_u.len() && q >= part_u.len() {
            assert(out[p] == part_u[p]);
            assert(out[q] == part_n[q - part_u.len()]);
            assert(out[p].priority == Priority::Urgent);
            assert(out[q].priority == Priority::Normal);
            if out[p].entity_id@ == out[q].entity_id@ {
                lemma_distinct_ids_unique(d, out[p], out[q]);
            }
        } else if q < part_u.len() {
            assert(out[p] == part_u[p] && out[q] == part_u[q]);
        } else {
            assert(out[p] == part_n[p - part_u.len()] && out[q] == part_n[q - part_u.len()]);
        }
    };

    assert forall|id: Seq<char>| id_occurs_from(out, 0, id) implies id_occurs_from(f, 0, id) by {
        let k = choose|k: int| 0 <= k < out.len() && out[k].entity_id@ == id;
        lemma_ordered_is_subset(d, k);
        let t = choose|t: int| 0 <= t < d.len() && d[t] == out[k];
        assert(f.contains(d[t]));
        let w = choose|w: int| 0 <= w < f.len() && f[w] == d[t];
        assert(f[w].entity_id@ == id);
    };
    assert forall|id: Seq<char>| id_occurs_from(f, 0, id) implies id_occurs_from(out, 0, id) by {
        let j = choose|j: int| 0 <= j < f.len() && f[j].entity_id@ == id;
        lemma_exists_last_occurrence(f, id, j);
        let w = choose|w: int|
            0 <= w < f.len() && f[w].entity_id@ == id && !id_occurs_from(f, w + 1, id);
        assert(d.contains(f[w]));
        lemma_ordered_contains(d, f[w]);
        let k = choose|k: int| 0 <= k < out.len() && out[k] == f[w];
        assert(out[k].entity_id@ == id);
    };
    assert(ids_of(out) =~= ids_of(f));
}

/// Last write wins: if a record passes the windows and no later record with
/// its entity id does, the one output record for that entity id is that
/// record, field for field. In particular, of two passing records that share
/// an entity id, the one listed later is the one returned.
pub proof fn lemma_last_write_wins(s: Seq<Action>, now: int, j: int)
    requires
        0 <= j < s.len(),
        in_window(s[j], now),
        forall|t: int| j < t < s.len() && (#[trigger] s[t]).entity_id@ == s[j].entity_id@
            ==> !in_window(s[t], now),
    ensures
        process_spec(s, now).contains(s[j]),
        forall|k: int| 0 <= k < process_spec(s, now).len()
            && (#[trigger] process_spec(s, now)[k]).entity_id@ == s[j].entity_id@
            ==> process_spec(s, now)[k] == s[j],
{
    let id = s[j].entity_id@;
    let f = window_filtered(s, now);
    let d = dedup_last_wins(f);
    let out = process_spec(s, now);
    lemma_filter_last_occurrence(s, now, id, j);
    let w = choose|w: int|
        0 <= w < f.len() && #[trigger] f[w] == s[j] && !id_occurs_from(f, w + 1, id);
    lemma_dedup_upto_props(f, f.len() as int);
    assert(d.contains(f[w]));
    lemma_ordered_contains(d, f[w]);
    assert forall|k: int| 0 <= k < out.len() && (#[trigger] out[k]).entity_id@ == id implies out[k]
        == s[j] by {
        lemma_ordered_is_subset(d, k);
        lemma_distinct_ids_unique(d, out[k], f[w]);
    };
}

/// Among the records that pass the windows, the one at position `j` of `s`
/// with no later passing record carrying its entity id appears in the filter
/// output as the last occurrence of that entity id.
proof fn lemma_filter_last_occurrence(s: Seq<Action>, now: int, id: Seq<char>, j: int)
    requires
        0 <= j < s.len(),
        s[j].entity_id@ == id,
        in_window(s[j], now),
        forall|t: int| j < t < s.len() && (#[trigger] s[t]).entity_id@ == id
            ==> !in_window(s[t], now),
    ensures
        exists|w: int| 0 <= w < window_filtered(s, now).len()
            && #[trigger] window_filtered(s, now)[w] == s[j]
            && !id_occurs_from(window_filtered(s, now), w + 1, id),
    decreases s.len(),
{
    reveal(Seq::filter);
    let f = window_filtered(s, now);
    if j == s.len() - 1 {
        assert(in_window(s.last(), now));
        let w = f.len() - 1;
        assert(f[w] == s[j]);
        assert(!id_occurs_from(f, w + 1, id));
    } else {
        let e = s.last();
        assert forall|t: int| j < t < s.drop_last().len()
            && (#[trigger] s.drop_last()[t]).entity_id@ == id implies !in_window(
            s.drop_last()[t],
            now,
        ) by {
            assert(s.drop_last()[t] == s[t]);
        };
        assert(s.drop_last()[j] == s[j]);
        lemma_filter_last_occurrence(s.drop_last(), now, id, j);
        let fd = window_filtered(s.drop_last(), now);
        let w = choose|w: int|
            0 <= w < fd.len() && #[trigger] fd[w] == s[j] && !id_occurs_from(fd, w + 1, id);
        if in_window(e, now) {
            assert(e.entity_id@ != id);
            assert(f == fd.push(e));
            assert(f[w] == s[j]);
            assert forall|t: int| w + 1 <= t < f.len() implies (#[trigger] f[t]).entity_id@
                != id by {
                if t < fd.len() {
                    assert(f[t] == fd[t]);
                    assert(!(fd[t].entity_id@ == id));
                } else {
                    assert(f[t] == e);
                }
            };
        } else {
            assert(f == fd);
        }
    }
}

/// Processing is idempotent: the output, handed back in at the same instant,
/// comes out unchanged. Every output record still passes the windows, every
/// entity id appears only once, and the records are already ordered.
#[verifier::rlimit(60)]
pub proof fn lemma_process_idempotent(s: Seq<Action>, now: int)
    ensures
        process_spec(process_spec(s, now), now) == process_spec(s, now),
{
    let out = process_spec(s, now);
    let d = dedup_last_wins(window_filtered(s, now));
    let part_u = with_priority(d, Priority::Urgent);
    let part_n = with_priority(d, Priority::Normal);
    let pred_u = |a: Action| a.priority == Priority::Urgent;
    let pred_n = |a: Action| a.priority == Priority::Normal;

    lemma_refilter_consistent(s, now);
    lemma_dedup_cardinality(s, now);
    lemma_dedup_distinct_identity(out, out.len() as int);
    assert(out.take(out.len() as int) =~= out);
    assert(dedup_last_wins(window_filtered(out, now)) == out);

    assert forall|k: int| 0 <= k < part_u.len() implies pred_u(#[trigger] part_u[k]) by {
        d.lemma_filter_pred(pred_u, k);
    };
    assert forall|k: int| 0 <= k < part_n.len() implies pred_n(#[trigger] part_n[k]) by {
        d.lemma_filter_pred(pred_n, k);
    };
    Seq::filter_distributes_over_add(part_u, part_n, pred_u);
    Seq::filter_distributes_over_add(part_u, part_n, pred_n);
    lemma_filter_keeps_all(part_u, pred_u);
    lemma_filter_keeps_none(part_n, pred_u);
    lemma_filter_keeps_none(part_u, pred_n);
    lemma_filter_keeps_all(part_n, pred_n);
    assert(with_priority(out, Priority::Urgent) =~= part_u);
    assert(with_priority(out, Priority::Normal) =~= part_n);
    assert(order_by_priority(out) == out);
}

/// Processing an empty batch returns an empty batch.
pub proof fn lemma_process_empty(now: int)
    ensures
        process_spec(Seq::<Action>::empty(), now) == Seq::<Action>::empty(),
{
    reveal(Seq::filter);
    let empty = Seq::<Action>::empty();
    assert(window_filtered(empty, now) =~= empty);
    assert(dedup_last_wins(empty) =~= empty);
    assert(with_priority(empty, Priority::Urgent) =~= empty);
    assert(with_priority(empty, Priority::Normal) =~= empty);
    assert(process_spec(empty, now) =~= empty);
}

/// Processing a single record keeps it exactly when it is actionable.
pub proof fn lemma_process_singleton(a: Action, now: int)
    ensures
        process_spec(seq![a], now) == if in_window(a, now) {
            seq![a]
        } else {
            Seq::<Action>::empty()
        },
{
    reveal(Seq::filter);
    let s = seq![a];
    let empty = Seq::<Action>::empty();
    assert(s.drop_last() =~= empty);
    assert(window_filtered(empty, now) =~= empty);
    assert(with_priority(empty, Priority::Urgent) =~= empty);
    assert(with_priority(empty, Priority::Normal) =~= empty);
    if in_window(a, now) {
        let f = window_filtered(s, now);
        assert(f =~= seq![a]);
        assert(!id_occurs_from(f, 1, a.entity_id@));
        assert(dedup_upto(f, 0) =~= empty);
        let d = dedup_last_wins(f);
        assert(d =~= seq![a]);
        assert(d.drop_last() =~= empty);
        if a.priority == Priority::Urgent {
            assert(with_priority(d, Priority::Urgent) =~= seq![a]);
            assert(with_priority(d, Priority::Normal) =~= empty);
        } else {
            assert(a.priority == Priority::Normal);
            assert(with_priority(d, Priority::Urgent) =~= empty);
            assert(with_priority(d, Priority::Normal) =~= seq![a]);
        }
        assert(process_spec(s, now) =~= seq![a]);
    } else {
        let f = window_filtered(s, now);
        assert(f =~= empty);
        assert(dedup_upto(f, 0) =~= empty);
        let d = dedup_last_wins(f);
        assert(d =~= empty);
        assert(with_priority(d, Priority::Urgent) =~= empty);
        assert(with_priority(d, Priority::Normal) =~= empty);
        assert(process_spec(s, now) =~= empty);
    }
}

/// Both window bounds are inclusive. A record due exactly 90 days out, or
/// last performed exactly 7 days ago, is retained; one second past either
/// bound — due one second later, or performed one second more recently — is
/// dropped.
pub proof fn lemma_boundary_inclusivity(a: Action, now: int)
    ensures
        a.next_action_time == now + DUE_WINDOW_SECONDS && a.last_action_time <= now
            - REPEAT_WINDOW_SECONDS ==> process_spec(seq![a], now) == seq![a],
        a.next_action_time == now + DUE_WINDOW_SECONDS + 1 ==> process_spec(seq![a], now)
            == Seq::<Action>::empty(),
        a.last_action_time == now - REPEAT_WINDOW_SECONDS && a.next_action_time <= now
            + DUE_WINDOW_SECONDS ==> process_spec(seq![a], now) == seq![a],
        a.last_action_time == now - REPEAT_WINDOW_SECONDS + 1 ==> process_spec(seq![a], now)
            == Seq::<Action>::empty(),
{
    lemma_process_singleton(a, now);
}

} // verus!
