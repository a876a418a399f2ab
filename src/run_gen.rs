//! Replacement selection: cuts a sequence of records into sorted runs, each
//! at least as long as the tree except the last.

use vstd::prelude::*;
use vstd::multiset::Multiset;
use crate::loser_tree::{LoserTree, INF, effective_key};

verus! {

broadcast use vstd::seq_lib::group_to_multiset_ensures, vstd::multiset::group_multiset_axioms;

/// Every record is no greater than any record after it.
pub open spec fn sorted(s: Seq<i32>) -> bool {
    forall|i: int, j: int| 0 <= i < j < s.len() ==> s[i] <= s[j]
}

pub open spec fn runs_view(rs: Seq<Vec<i32>>) -> Seq<Seq<i32>> {
    rs.map_values(|r: Vec<i32>| r@)
}

/// Every run is non-empty and sorted.
pub open spec fn runs_ok(rs: Seq<Seq<i32>>) -> bool {
    forall|j: int| 0 <= j < rs.len() ==> #[trigger] rs[j].len() > 0 && sorted(rs[j])
}

/// The record a slot holds, if it holds one.
pub open spec fn slot_record(s: (i64, bool)) -> Multiset<i32> {
    if s.0 == INF {
        Multiset::empty()
    } else {
        Multiset::singleton(s.0 as i32)
    }
}

/// The records that the slots hold.
pub open spec fn real_values(s: Seq<(i64, bool)>) -> Multiset<i32>
    decreases s.len(),
{
    if s.len() == 0 {
        Multiset::empty()
    } else {
        real_values(s.drop_last()).add(slot_record(s.last()))
    }
}

proof fn lemma_real_values_update(s: Seq<(i64, bool)>, i: int, x: (i64, bool))
    requires
        0 <= i < s.len(),
    ensures
        real_values(s.update(i, x)).add(slot_record(s[i])) =~= real_values(s).add(slot_record(x)),
    decreases s.len(),
{
    let u = s.update(i, x);
    let d = s.drop_last();
    assert(real_values(u) == real_values(u.drop_last()).add(slot_record(u.last())));
    assert(real_values(s) == real_values(d).add(slot_record(s.last())));
    if i == s.len() - 1 {
        assert(u.drop_last() =~= d);
        assert(u.last() == x);
        assert(s.last() == s[i]);
        assert forall|v: i32| #[trigger] real_values(u).add(slot_record(s[i])).count(v) == real_values(
            s,
        ).add(slot_record(x)).count(v) by {
            assert(real_values(u).count(v) == real_values(d).count(v) + slot_record(x).count(v));
            assert(real_values(s).count(v) == real_values(d).count(v) + slot_record(s[i]).count(v));
        }
    } else {
        lemma_real_values_update(d, i, x);
        assert(u.drop_last() =~= d.update(i, x));
        assert(u.last() == s.last());
        assert(d[i] == s[i]);
        assert forall|v: i32| #[trigger] real_values(u).add(slot_record(s[i])).count(v) == real_values(
            s,
        ).add(slot_record(x)).count(v) by {
            assert(real_values(u).count(v) == real_values(d.update(i, x)).count(v) + slot_record(
                s.last(),
            ).count(v));
            assert(real_values(s).count(v) == real_values(d).count(v) + slot_record(s.last()).count(v));
            assert(real_values(d.update(i, x)).add(slot_record(d[i])).count(v) == real_values(d).add(
                slot_record(x),
            ).count(v));
        }
    }
}

proof fn lemma_real_values_same(s: Seq<(i64, bool)>, t: Seq<(i64, bool)>)
    requires
        s.len() == t.len(),
        forall|i: int| 0 <= i < s.len() ==> #[trigger] s[i].0 == t[i].0,
    ensures
        real_values(s) == real_values(t),
    decreases s.len(),
{
    if s.len() > 0 {
        lemma_real_values_same(s.drop_last(), t.drop_last());
    }
}

proof fn lemma_real_values_none(s: Seq<(i64, bool)>)
    requires
        forall|i: int| 0 <= i < s.len() ==> #[trigger] s[i].0 == INF,
    ensures
        real_values(s) =~= Multiset::<i32>::empty(),
    decreases s.len(),
{
    if s.len() > 0 {
        lemma_real_values_none(s.drop_last());
    }
}

/// Each run after the first starts below the last record of the run before.
pub open spec fn runs_descend_at_boundaries(rs: Seq<Seq<i32>>) -> bool {
    forall|j: int| 0 <= j < rs.len() - 1 ==> (#[trigger] rs[j + 1])[0] < rs[j].last()
}

/// The least value of a multiset.
pub open spec fn ms_min(m: Multiset<i32>) -> i32 {
    choose|x: i32| m.count(x) > 0 && forall|y: i32| m.count(y) > 0 ==> x <= y
}

/// The runs that replacement selection yields. `active` holds the records
/// that compete in the current run, `frozen` those kept for the next one;
/// `i` is the next record to read and `cur` the current run so far. The
/// least active record is emitted and replaced by the next record read,
/// which is frozen when it is below the one emitted. When no record is active
/// the run is closed and the frozen records become active.
#[verifier::opaque]
pub open spec fn selection_runs(
    rec: Seq<i32>,
    i: int,
    active: Multiset<i32>,
    frozen: Multiset<i32>,
    cur: Seq<i32>,
    done: Seq<Seq<i32>>,
) -> Seq<Seq<i32>>
    decreases 2 * (rec.len() - i) + 2 * (active.len() + frozen.len()) + (if active.len() == 0 {
        1int
    } else {
        0int
    }),
    via selection_runs_decreases
{
    if i < 0 || i > rec.len() {
        done
    } else if active.len() == 0 {
        let done2 = if cur.len() > 0 {
            done.push(cur)
        } else {
            done
        };
        if frozen.len() == 0 {
            done2
        } else {
            selection_runs(rec, i, frozen, Multiset::empty(), Seq::empty(), done2)
        }
    } else {
        let m = ms_min(active);
        if active.count(m) == 0 {
            done
        } else {
            let a1 = active.remove(m);
            let cur2 = cur.push(m);
            if i < rec.len() {
                let x = rec[i];
                if x < m {
                    selection_runs(rec, i + 1, a1, frozen.insert(x), cur2, done)
                } else {
                    selection_runs(rec, i + 1, a1.insert(x), frozen, cur2, done)
                }
            } else {
                selection_runs(rec, i, a1, frozen, cur2, done)
            }
        }
    }
}

/// The runs replacement selection yields once the tree holds the first `n0`
/// records.
pub open spec fn selection_from(rec: Seq<i32>, n0: int) -> Seq<Seq<i32>> {
    selection_runs(rec, n0, rec.take(n0).to_multiset(), Multiset::empty(), Seq::empty(), Seq::empty())
}

#[via_fn]
proof fn selection_runs_decreases(
    rec: Seq<i32>,
    i: int,
    active: Multiset<i32>,
    frozen: Multiset<i32>,
    cur: Seq<i32>,
    done: Seq<Seq<i32>>,
) {
    if 0 <= i <= rec.len() && active.len() > 0 {
        let m = ms_min(active);
        if active.count(m) > 0 {
            assert(Multiset::singleton(m).subset_of(active));
            assert(active.remove(m).len() == active.len() - 1);
        }
    } else if 0 <= i <= rec.len() && active.len() == 0 && frozen.len() > 0 {
        assert(Multiset::<i32>::empty().len() == 0);
    }
}

/// The slot holds a record of the given class: frozen, or competing.
pub open spec fn in_class(slot: (i64, bool), frozen: bool) -> bool {
    if frozen {
        slot.1 && slot.0 != INF
    } else {
        active(slot)
    }
}

pub open spec fn class_of(slot: (i64, bool), frozen: bool) -> Multiset<i32> {
    if in_class(slot, frozen) {
        Multiset::singleton(slot.0 as i32)
    } else {
        Multiset::empty()
    }
}

/// The records of the slots that are frozen, or that compete.
pub open spec fn class_values(s: Seq<(i64, bool)>, frozen: bool) -> Multiset<i32>
    decreases s.len(),
{
    if s.len() == 0 {
        Multiset::empty()
    } else {
        class_values(s.drop_last(), frozen).add(class_of(s.last(), frozen))
    }
}

proof fn lemma_class_update(s: Seq<(i64, bool)>, i: int, x: (i64, bool), f: bool)
    requires
        0 <= i < s.len(),
    ensures
        class_values(s.update(i, x), f).add(class_of(s[i], f)) =~= class_values(s, f).add(
            class_of(x, f),
        ),
    decreases s.len(),
{
    let u = s.update(i, x);
    let d = s.drop_last();
    assert(class_values(u, f) == class_values(u.drop_last(), f).add(class_of(u.last(), f)));
    assert(class_values(s, f) == class_values(d, f).add(class_of(s.last(), f)));
    if i == s.len() - 1 {
        assert(u.drop_last() =~= d);
        assert forall|v: i32| #[trigger] class_values(u, f).add(class_of(s[i], f)).count(v)
            == class_values(s, f).add(class_of(x, f)).count(v) by {
            assert(class_values(u, f).count(v) == class_values(d, f).count(v) + class_of(x, f).count(v));
            assert(class_values(s, f).count(v) == class_values(d, f).count(v) + class_of(s[i], f).count(v));
        }
    } else {
        lemma_class_update(d, i, x, f);
        assert(u.drop_last() =~= d.update(i, x));
        assert(d[i] == s[i]);
        assert forall|v: i32| #[trigger] class_values(u, f).add(class_of(s[i], f)).count(v)
            == class_values(s, f).add(class_of(x, f)).count(v) by {
            assert(class_values(u, f).count(v) == class_values(d.update(i, x), f).count(v) + class_of(
                s.last(),
                f,
            ).count(v));
            assert(class_values(s, f).count(v) == class_values(d, f).count(v) + class_of(s.last(), f).count(
                v,
            ));
            assert(class_values(d.update(i, x), f).add(class_of(d[i], f)).count(v) == class_values(d, f).add(
                class_of(x, f),
            ).count(v));
        }
    }
}

proof fn lemma_class_member(s: Seq<(i64, bool)>, f: bool)
    ensures
        forall|v: i32|
            #[trigger] class_values(s, f).count(v) > 0 ==> exists|i: int|
                0 <= i < s.len() && in_class(#[trigger] s[i], f) && s[i].0 as i32 == v,
        forall|i: int|
            0 <= i < s.len() && in_class(#[trigger] s[i], f) ==> class_values(s, f).count(s[i].0 as i32)
                > 0,
    decreases s.len(),
{
    if s.len() > 0 {
        let d = s.drop_last();
        lemma_class_member(d, f);
        assert forall|v: i32| #[trigger] class_values(s, f).count(v) > 0 implies exists|i: int|
            0 <= i < s.len() && in_class(#[trigger] s[i], f) && s[i].0 as i32 == v by {
            if class_values(d, f).count(v) > 0 {
                let j = choose|j: int| 0 <= j < d.len() && in_class(#[trigger] d[j], f) && d[j].0 as i32 == v;
                assert(s[j] == d[j]);
            } else {
                assert(s[s.len() - 1] == s.last());
            }
        }
        assert forall|i: int| 0 <= i < s.len() && in_class(#[trigger] s[i], f) implies class_values(s, f).count(
            s[i].0 as i32,
        ) > 0 by {
            if i < s.len() - 1 {
                assert(s[i] == d[i]);
            }
        }
    }
}

proof fn lemma_class_none(s: Seq<(i64, bool)>, f: bool)
    requires
        forall|i: int| 0 <= i < s.len() ==> !in_class(#[trigger] s[i], f),
    ensures
        class_values(s, f) =~= Multiset::<i32>::empty(),
    decreases s.len(),
{
    if s.len() > 0 {
        lemma_class_none(s.drop_last(), f);
    }
}

proof fn lemma_class_unfreeze(s: Seq<(i64, bool)>, t: Seq<(i64, bool)>)
    requires
        s.len() == t.len(),
        forall|i: int| 0 <= i < s.len() ==> #[trigger] t[i] == (s[i].0, false),
    ensures
        class_values(t, false) =~= class_values(s, false).add(class_values(s, true)),
        class_values(t, true) =~= Multiset::<i32>::empty(),
    decreases s.len(),
{
    if s.len() > 0 {
        lemma_class_unfreeze(s.drop_last(), t.drop_last());
        assert(t.last() == (s.last().0, false));
    } else {
        assert(class_values(s, false).add(class_values(s, true)) =~= Multiset::<i32>::empty());
    }
}

proof fn lemma_class_all_unfrozen(s: Seq<(i64, bool)>)
    requires
        forall|i: int| 0 <= i < s.len() ==> !(#[trigger] s[i]).1,
    ensures
        class_values(s, false) == real_values(s),
        class_values(s, true) =~= Multiset::<i32>::empty(),
    decreases s.len(),
{
    if s.len() > 0 {
        lemma_class_all_unfrozen(s.drop_last());
        assert(class_of(s.last(), false) == slot_record(s.last()));
    }
}

/// Closing a run: no record competes, so the run so far is kept, the frozen
/// records compete again and a new run begins.
proof fn lemma_close_step(
    rec: Seq<i32>,
    i: int,
    s: Seq<(i64, bool)>,
    t: Seq<(i64, bool)>,
    cur: Seq<i32>,
    done: Seq<Seq<i32>>,
    done2: Seq<Seq<i32>>,
)
    requires
        0 <= i <= rec.len(),
        s.len() == t.len(),
        forall|j: int| 0 <= j < s.len() ==> !active(#[trigger] s[j]),
        forall|j: int| 0 <= j < s.len() ==> #[trigger] t[j] == (s[j].0, false),
        done2 == if cur.len() > 0 {
            done.push(cur)
        } else {
            done
        },
    ensures
        selection_runs(rec, i, class_values(s, false), class_values(s, true), cur, done)
            == selection_runs(rec, i, class_values(t, false), class_values(t, true), Seq::empty(), done2),
{
    assert forall|j: int| 0 <= j < s.len() implies !in_class(#[trigger] s[j], false) by {
        assert(!active(s[j]));
    }
    lemma_class_none(s, false);
    lemma_class_unfreeze(s, t);
    let f = class_values(s, true);
    assert(class_values(t, false) =~= f);
    assert(class_values(t, true) =~= Multiset::<i32>::empty());
    assert(class_values(s, false) =~= Multiset::<i32>::empty());
    reveal(selection_runs);
    if f.len() == 0 {
        assert(f =~= Multiset::<i32>::empty());
        assert(selection_runs(rec, i, f, Multiset::empty(), Seq::empty(), done2) == done2);
    }
}

/// With nothing left to compete or to freeze, the runs are those made so far.
proof fn lemma_selection_done(rec: Seq<i32>, i: int, done: Seq<Seq<i32>>)
    requires
        0 <= i <= rec.len(),
    ensures
        selection_runs(rec, i, Multiset::empty(), Multiset::empty(), Seq::empty(), done) == done,
{
    reveal(selection_runs);
}

/// Emitting the least competing record: it goes to the current run and its
/// slot takes the next record read, frozen when below it.
proof fn lemma_emit_step(
    rec: Seq<i32>,
    i: int,
    s: Seq<(i64, bool)>,
    w: int,
    x: (i64, bool),
    cur: Seq<i32>,
    done: Seq<Seq<i32>>,
)
    requires
        0 <= i <= rec.len(),
        0 <= w < s.len(),
        active(s[w]),
        forall|j: int| 0 <= j < s.len() ==> #[trigger] slot_in_range(s[j]),
        forall|j: int| 0 <= j < s.len() && active(#[trigger] s[j]) ==> s[w].0 <= s[j].0,
        i < rec.len() ==> x == (rec[i] as i64, (rec[i] as i64) < s[w].0),
        i == rec.len() ==> x == (INF, false),
    ensures
        selection_runs(rec, i, class_values(s, false), class_values(s, true), cur, done) == selection_runs(
            rec,
            if i < rec.len() {
                i + 1
            } else {
                i
            },
            class_values(s.update(w, x), false),
            class_values(s.update(w, x), true),
            cur.push(s[w].0 as i32),
            done,
        ),
{
    let m = s[w].0 as i32;
    let a = class_values(s, false);
    let f = class_values(s, true);
    let u = s.update(w, x);
    lemma_class_member(s, false);
    assert(slot_in_range(s[w]));
    assert(in_class(s[w], false));
    assert(a.count(m) > 0);
    assert forall|y: i32| a.count(y) > 0 implies m <= y by {
        let j = choose|j: int| 0 <= j < s.len() && in_class(#[trigger] s[j], false) && s[j].0 as i32 == y;
        assert(slot_in_range(s[j]));
    }
    let c = ms_min(a);
    assert(a.count(c) > 0 && forall|y: i32| a.count(y) > 0 ==> c <= y);
    assert(c == m);
    lemma_class_update(s, w, x, false);
    lemma_class_update(s, w, x, true);
    assert(class_of(s[w], false) =~= Multiset::singleton(m));
    assert(class_of(s[w], true) =~= Multiset::<i32>::empty());
    assert forall|v: i32| #[trigger] class_values(u, false).count(v) == a.remove(m).add(class_of(x, false)).count(v) by {
        assert(class_values(u, false).add(class_of(s[w], false)).count(v) == a.add(class_of(x, false)).count(v));
        if v == m {
            assert(a.remove(m).count(v) == a.count(v) - 1);
        } else {
            assert(a.remove(m).count(v) == a.count(v));
        }
    }
    assert(class_values(u, false) =~= a.remove(m).add(class_of(x, false)));
    assert forall|v: i32| #[trigger] class_values(u, true).count(v) == f.add(class_of(x, true)).count(v) by {
        assert(class_values(u, true).add(class_of(s[w], true)).count(v) == f.add(class_of(x, true)).count(v));
    }
    assert(class_values(u, true) =~= f.add(class_of(x, true)));
    assert(a.len() > 0);
    reveal(selection_runs);
    if i < rec.len() {
        let xv = rec[i];
        if xv < m {
            assert(class_of(x, false) =~= Multiset::<i32>::empty());
            assert(class_of(x, true) =~= Multiset::singleton(xv));
            assert(class_values(u, false) =~= a.remove(m));
            assert(class_values(u, true) =~= f.insert(xv));
        } else {
            assert(class_of(x, false) =~= Multiset::singleton(xv));
            assert(class_of(x, true) =~= Multiset::<i32>::empty());
            assert(class_values(u, false) =~= a.remove(m).insert(xv));
            assert(class_values(u, true) =~= f);
        }
    } else {
        assert(class_of(x, false) =~= Multiset::<i32>::empty());
        assert(class_of(x, true) =~= Multiset::<i32>::empty());
        assert(class_values(u, false) =~= a.remove(m));
        assert(class_values(u, true) =~= f);
    }
}

/// A slot that still competes in the current run: it holds a record and is
/// not frozen.
pub open spec fn active(s: (i64, bool)) -> bool {
    !s.1 && s.0 != INF
}

pub open spec fn active_count(s: Seq<(i64, bool)>) -> nat
    decreases s.len(),
{
    if s.len() == 0 {
        0
    } else {
        active_count(s.drop_last()) + if active(s.last()) {
            1nat
        } else {
            0nat
        }
    }
}

proof fn lemma_active_update(s: Seq<(i64, bool)>, i: int, x: (i64, bool))
    requires
        0 <= i < s.len(),
    ensures
        active_count(s.update(i, x)) + (if active(s[i]) { 1int } else { 0int }) == active_count(s) + (
        if active(x) {
            1int
        } else {
            0int
        }),
    decreases s.len(),
{
    let u = s.update(i, x);
    if i == s.len() - 1 {
        assert(u.drop_last() =~= s.drop_last());
    } else {
        lemma_active_update(s.drop_last(), i, x);
        assert(u.drop_last() =~= s.drop_last().update(i, x));
    }
}

proof fn lemma_active_all(s: Seq<(i64, bool)>)
    requires
        forall|i: int| 0 <= i < s.len() ==> active(#[trigger] s[i]),
    ensures
        active_count(s) == s.len(),
    decreases s.len(),
{
    if s.len() > 0 {
        lemma_active_all(s.drop_last());
    }
}

proof fn lemma_active_none(s: Seq<(i64, bool)>)
    requires
        forall|i: int| 0 <= i < s.len() ==> !active(#[trigger] s[i]),
    ensures
        active_count(s) == 0,
    decreases s.len(),
{
    if s.len() > 0 {
        lemma_active_none(s.drop_last());
    }
}

proof fn lemma_runs_long(rs: Seq<Seq<i32>>, k: int)
    requires
        k >= 0,
        forall|j: int| 0 <= j < rs.len() ==> (#[trigger] rs[j]).len() >= k,
    ensures
        rs.flatten().len() >= rs.len() * k,
    decreases rs.len(),
{
    if rs.len() > 0 {
        let d = rs.drop_last();
        lemma_runs_long(d, k);
        assert(rs =~= d.push(rs.last()));
        d.lemma_flatten_push(rs.last());
        assert(rs.last().len() >= k);
        assert(d.len() * k + k == rs.len() * k) by (nonlinear_arith)
            requires
                d.len() + 1 == rs.len(),
        ;
    }
}

/// Runs that are all at least `k` long but the last, and none empty, are no
/// more than `ceil(n / k)` for `n` records in all.
pub proof fn lemma_run_count(rs: Seq<Seq<i32>>, k: int)
    requires
        k >= 1,
        runs_ok(rs),
        forall|j: int| 0 <= j < rs.len() - 1 ==> (#[trigger] rs[j]).len() >= k,
    ensures
        rs.len() * k <= rs.flatten().len() + k - 1,
{
    if rs.len() > 0 {
        let d = rs.drop_last();
        assert forall|j: int| 0 <= j < d.len() implies (#[trigger] d[j]).len() >= k by {
            assert(d[j] == rs[j]);
        }
        lemma_runs_long(d, k);
        assert(rs =~= d.push(rs.last()));
        d.lemma_flatten_push(rs.last());
        assert(rs.last().len() >= 1);
        assert(d.len() * k + k == rs.len() * k) by (nonlinear_arith)
            requires
                d.len() + 1 == rs.len(),
        ;
    }
}

/// Values that a slot may hold: a record, or `INF` for nothing.
pub open spec fn slot_in_range(s: (i64, bool)) -> bool {
    s.0 == INF || (i32::MIN <= s.0 && s.0 <= i32::MAX)
}

pub struct RunGenerator {
    /// The input records, read in order.
    pub records: Vec<i32>,
    /// Index of the next record to read.
    pub next: usize,
    pub loser_tree: LoserTree,
}

impl RunGenerator {
    /// The state before any run was produced: the tree holds the first records.
    pub open spec fn fresh(&self) -> bool {
        let slots = self.loser_tree.slots();
        &&& self.loser_tree.valid()
        &&& self.loser_tree.wf()
        &&& self.next <= self.records.len()
        &&& forall|i: int| 0 <= i < slots.len() ==> #[trigger] slot_in_range(slots[i])
        &&& forall|i: int| 0 <= i < slots.len() ==> !(#[trigger] slots[i]).1
        &&& self.next < self.records.len() ==> forall|i: int|
            0 <= i < slots.len() ==> #[trigger] slots[i].0 != INF
        &&& self.records@.take(self.next as int).to_multiset() == real_values(slots)
    }

    /// Loads the first `k` records (fewer if the input is shorter) into a tree
    /// of `k` slots.
    pub fn new(records: Vec<i32>, k: usize) -> (r: Self)
        requires
            1 <= k < usize::MAX / 2,
        ensures
            r.fresh(),
            r.records@ == records@,
            r.loser_tree.slots().len() == k,
            r.next == if records.len() < k {
                records.len()
            } else {
                k
            },
    {
        let n = records.len();
        let mut initial: Vec<i64> = Vec::new();
        let mut next: usize = 0;
        let ghost mut gs: Seq<(i64, bool)> = Seq::empty();
        while initial.len() < k
            invariant
                initial.len() <= k,
                next <= n == records.len(),
                next == if initial.len() < n {
                    initial.len()
                } else {
                    n
                },
                gs.len() == initial.len(),
                forall|i: int| 0 <= i < gs.len() ==> #[trigger] gs[i] == (initial@[i], false),
                forall|i: int| 0 <= i < gs.len() ==> #[trigger] slot_in_range(gs[i]),
                next < n ==> forall|i: int| 0 <= i < gs.len() ==> #[trigger] gs[i].0 != INF,
                records@.take(next as int).to_multiset() == real_values(gs),
            decreases k - initial.len(),
        {
            let ghost old_gs = gs;
            let v: i64 = if next < n {
                let x = records[next] as i64;
                proof {
                    assert(records@.take(next + 1) =~= records@.take(next as int).push(records@[next as int]));
                }
                next = next + 1;
                x
            } else {
                INF
            };
            initial.push(v);
            proof {
                gs = gs.push((v, false));
                assert(gs.drop_last() =~= old_gs);
            }
        }
        let loser_tree = LoserTree::new(initial);
        assert(loser_tree.slots() =~= gs);
        RunGenerator { records, next, loser_tree }
    }

    /// Produces the runs of replacement selection (`selection_from`): each
    /// non-empty and sorted, together holding exactly the input records. Every run but the last holds at least as many
    /// records as the tree has slots, so there are at most `ceil(n / k)`
    /// runs; sorted input gives a single run. A new run starts only when no
    /// record left can extend the current one: its first record is below the
    /// last record of the run before.
    pub fn generate_run_file(&mut self) -> (runs: Vec<Vec<i32>>)
        requires
            old(self).fresh(),
        ensures
            runs_ok(runs_view(runs@)),
            runs_view(runs@).flatten().to_multiset() == old(self).records@.to_multiset(),
            forall|j: int|
                0 <= j < runs@.len() - 1 ==> (#[trigger] runs@[j])@.len() >= old(
                    self,
                ).loser_tree.slots().len(),
            runs@.len() * old(self).loser_tree.slots().len() <= old(self).records@.len() + old(
                self,
            ).loser_tree.slots().len() - 1,
            sorted(old(self).records@) ==> runs@.len() <= 1,
            runs@.len() == 0 <==> old(self).records@.len() == 0,
            runs_descend_at_boundaries(runs_view(runs@)),
            runs_view(runs@) == selection_from(old(self).records@, old(self).next as int),
    {
        let n = self.records.len();
        let ghost records = self.records@;
        let ghost kk = self.loser_tree.slots().len();
        let ghost mut started_full: bool = forall|i: int|
            0 <= i < kk ==> #[trigger] self.loser_tree.slots()[i].0 != INF;
        proof {
            let s = self.loser_tree.slots();
            if started_full {
                assert forall|i: int| 0 <= i < s.len() implies active(#[trigger] s[i]) by {
                    assert(s[i].0 != INF);
                    assert(!s[i].1);
                }
                lemma_active_all(s);
            }
        }
        let mut runs: Vec<Vec<i32>> = Vec::new();
        let mut cur: Vec<i32> = Vec::new();
        let mut pre_winner: i64 = i64::MIN;
        let ghost mut emitted: Seq<i32> = Seq::empty();
        let ghost target = selection_from(records, self.next as int);
        proof {
            let s = self.loser_tree.slots();
            lemma_class_all_unfrozen(s);
            assert(class_values(s, true) =~= Multiset::<i32>::empty());
            assert(runs_view(runs@) =~= Seq::<Seq<i32>>::empty());
            assert(cur@ =~= Seq::<i32>::empty());
        }
        loop
            invariant_except_break
                self.loser_tree.valid(),
                self.loser_tree.wf(),
                self.records@ == records,
                n == records.len(),
                self.next <= n,
                forall|i: int|
                    0 <= i < self.loser_tree.slots().len() ==> #[trigger] slot_in_range(
                        self.loser_tree.slots()[i],
                    ),
                self.next < n ==> forall|i: int|
                    0 <= i < self.loser_tree.slots().len() ==> #[trigger] self.loser_tree.slots()[i].0
                        != INF,
                records.take(self.next as int).to_multiset() == emitted.to_multiset().add(
                    real_values(self.loser_tree.slots()),
                ),
                emitted == runs_view(runs@).flatten() + cur@,
                runs_ok(runs_view(runs@)),
                sorted(cur@),
                cur@.len() > 0 ==> pre_winner == cur@.last(),
                forall|i: int|
                    0 <= i < self.loser_tree.slots().len() && !(
                    #[trigger] self.loser_tree.slots()[i]).1 ==> self.loser_tree.slots()[i].0
                        >= pre_winner,
                kk == self.loser_tree.slots().len(),
                kk >= 1,
                forall|j: int| 0 <= j < runs@.len() ==> (#[trigger] runs@[j])@.len() >= kk,
                started_full ==> cur@.len() + active_count(self.loser_tree.slots()) >= kk,
                !started_full ==> self.next == n && forall|i: int|
                    0 <= i < kk ==> !(#[trigger] self.loser_tree.slots()[i]).1,
                sorted(records) ==> runs@.len() == 0 && forall|i: int|
                    0 <= i < kk ==> !(#[trigger] self.loser_tree.slots()[i]).1,
                forall|i: int|
                    0 <= i < kk && (#[trigger] self.loser_tree.slots()[i]).1 ==> self.loser_tree.slots()[i].0
                        < pre_winner,
                runs@.len() > 0 && cur@.len() == 0 ==> forall|i: int|
                    0 <= i < kk && (#[trigger] self.loser_tree.slots()[i]).0 != INF
                        ==> self.loser_tree.slots()[i].0 < runs@.last()@.last(),
                runs@.len() > 0 && cur@.len() > 0 ==> cur@[0] < runs@.last()@.last(),
                runs_descend_at_boundaries(runs_view(runs@)),
                selection_runs(
                    records,
                    self.next as int,
                    class_values(self.loser_tree.slots(), false),
                    class_values(self.loser_tree.slots(), true),
                    cur@,
                    runs_view(runs@),
                ) == target,
            ensures
                runs_ok(runs_view(runs@)),
                runs_view(runs@).flatten().to_multiset() == records.to_multiset(),
                forall|j: int| 0 <= j < runs@.len() - 1 ==> (#[trigger] runs@[j])@.len() >= kk,
                sorted(records) ==> runs@.len() <= 1,
                runs_descend_at_boundaries(runs_view(runs@)),
                runs_view(runs@) == target,
            decreases 2 * (n - self.next) + 2 * real_values(self.loser_tree.slots()).len() + (
            if self.loser_tree.key_at(self.loser_tree.winner()) == INF {
                1int
            } else {
                0int
            }),
        {
            let winner_idx = self.loser_tree.get_winner_idx();
            let winner_key = self.loser_tree.get_key(winner_idx);
            proof {
                self.loser_tree.lemma_winner_is_least();
            }
            if winner_key == INF {
                let ghost s00 = self.loser_tree.slots();
                let ghost old_cur = cur@;
                let ghost old_rv = runs_view(runs@);
                let ghost cur_len = cur@.len();
                let ghost runs_len = runs@.len();
                let ghost all_inf = forall|i: int| 0 <= i < kk ==> #[trigger] s00[i].0 == INF;
                proof {
                    assert forall|i: int| 0 <= i < kk implies !active(#[trigger] s00[i]) by {
                        assert(self.loser_tree.key_at(i) == effective_key(s00[i]));
                    }
                    lemma_active_none(s00);
                    if !started_full || sorted(records) {
                        assert forall|i: int| 0 <= i < kk implies #[trigger] s00[i].0 == INF by {
                            assert(!active(s00[i]));
                            assert(!s00[i].1);
                        }
                    }
                }
                if cur.len() > 0 {
                    let ghost old_runs = runs@;
                    runs.push(cur);
                    proof {
                        assert(runs_view(runs@) =~= runs_view(old_runs).push(cur@));
                        runs_view(old_runs).lemma_flatten_push(cur@);
                        let rv = runs_view(runs@);
                        assert forall|j: int| 0 <= j < rv.len() - 1 implies (#[trigger] rv[j + 1])[0]
                            < rv[j].last() by {
                            if j + 1 < old_runs.len() {
                                assert(runs_view(old_runs)[j + 1] == rv[j + 1]);
                                assert(runs_view(old_runs)[j] == rv[j]);
                            } else {
                                assert(rv[j + 1] == cur@);
                                assert(rv[j] == old_runs.last()@);
                            }
                        }
                        assert forall|i: int| 0 <= i < kk && (#[trigger] s00[i]).0 != INF implies s00[i].0
                            < runs@.last()@.last() by {
                            assert(!active(s00[i]));
                        }
                    }
                    cur = Vec::new();
                } else {
                    assert(emitted =~= runs_view(runs@).flatten());
                }
                assert(emitted =~= runs_view(runs@).flatten() + cur@);
                let ghost slots0 = self.loser_tree.slots();
                self.loser_tree.unfreeze_all_elements();
                self.loser_tree.build();
                proof {
                    lemma_real_values_same(slots0, self.loser_tree.slots());
                    assert(slots0 == s00);
                    if runs@.len() > 0 {
                        assert forall|i: int|
                            0 <= i < kk && (#[trigger] self.loser_tree.slots()[i]).0 != INF implies self.loser_tree.slots()[i].0
                                < runs@.last()@.last() by {
                            assert(self.loser_tree.slots()[i].0 == s00[i].0);
                        }
                    }
                    assert forall|i: int| 0 <= i < slots0.len() implies #[trigger] slot_in_range(
                        self.loser_tree.slots()[i],
                    ) by {
                        assert(slot_in_range(slots0[i]));
                    }
                }
                proof {
                    let t = self.loser_tree.slots();
                    assert forall|i: int| 0 <= i < s00.len() implies #[trigger] t[i] == (s00[i].0, false) by {}
                    assert(s00.len() == kk);
                    lemma_close_step(records, self.next as int, s00, t, old_cur, old_rv, runs_view(runs@));
                    assert(cur@ =~= Seq::<i32>::empty());
                }
                pre_winner = i64::MIN;
                let w2 = self.loser_tree.get_winner_idx();
                if self.loser_tree.get_key(w2) == INF {
                    proof {
                        assert forall|j: int| 0 <= j < runs@.len() - 1 implies (#[trigger] runs@[j])@.len()
                            >= kk by {
                            assert(j < runs_len);
                        }
                        self.loser_tree.lemma_winner_is_least();
                        let s = self.loser_tree.slots();
                        assert forall|i: int| 0 <= i < s.len() implies #[trigger] s[i].0 == INF by {
                            assert(self.loser_tree.key_at(i) == effective_key(s[i]));
                            assert(!s[i].1);
                        }
                        lemma_real_values_none(s);
                        assert(s[0].0 == INF);
                        assert(self.next == n);
                        assert forall|i: int| 0 <= i < s.len() implies !in_class(#[trigger] s[i], false) by {}
                        assert forall|i: int| 0 <= i < s.len() implies !in_class(#[trigger] s[i], true) by {}
                        lemma_class_none(s, false);
                        lemma_class_none(s, true);
                        lemma_selection_done(records, self.next as int, runs_view(runs@));
                        assert(records.take(n as int) =~= records);
                        assert(emitted.to_multiset().add(Multiset::empty()) =~= emitted.to_multiset());
                        assert(cur@ =~= Seq::<i32>::empty());
                        assert(runs_view(runs@).flatten() + cur@ =~= runs_view(runs@).flatten());
                        assert(emitted == runs_view(runs@).flatten());
                        assert(records.to_multiset() == emitted.to_multiset());
                    }
                    break;
                }
                proof {
                    let s = self.loser_tree.slots();
                    if all_inf {
                        assert(s[w2 as int].0 == slots0[w2 as int].0);
                        assert(false);
                    }
                    assert(started_full && !sorted(records));
                    assert forall|j: int| 0 <= j < runs@.len() implies (#[trigger] runs@[j])@.len() >= kk by {
                        if j >= runs_len {
                            assert(runs@[j]@.len() == cur_len);
                        }
                    }
                    started_full = forall|i: int| 0 <= i < kk ==> #[trigger] s[i].0 != INF;
                    if started_full {
                        assert forall|i: int| 0 <= i < s.len() implies active(#[trigger] s[i]) by {
                            assert(s[i].0 != INF);
                            assert(!s[i].1);
                        }
                        lemma_active_all(s);
                    } else {
                        let i = choose|i: int| 0 <= i < kk && s[i].0 == INF;
                        assert(s[i].0 == INF);
                    }
                }
            } else {
                let ghost slots0 = self.loser_tree.slots();
                let ghost w = winner_idx as int;
                let ghost old_cur = cur@;
                let ghost old_emitted = emitted;
                let ghost old_next = self.next;
                assert(!slots0[w].1 && slots0[w].0 == winner_key);
                assert(slot_in_range(slots0[w]));
                let record = winner_key as i32;
                cur.push(record);
                proof {
                    emitted = emitted.push(record);
                    assert(runs_view(runs@).flatten() + cur@ =~= (runs_view(runs@).flatten()
                        + old_cur).push(record));
                    assert forall|i: int, j: int| 0 <= i < j < cur@.len() implies cur@[i]
                        <= cur@[j] by {
                        if j == cur@.len() - 1 && i < old_cur.len() {
                            assert(old_cur[i] <= old_cur.last());
                        }
                    }
                }
                pre_winner = winner_key;
                let x: i64 = if self.next < n {
                    let v = self.records[self.next] as i64;
                    proof {
                        assert(records.take(self.next + 1) =~= records.take(self.next as int).push(
                            records[self.next as int],
                        ));
                    }
                    self.next = self.next + 1;
                    v
                } else {
                    INF
                };
                let frozen = x < pre_winner;
                let ghost old_tree = self.loser_tree;
                self.loser_tree.replace_and_replay(winner_idx, (x, frozen));
                proof {
                    let s1 = self.loser_tree.slots();
                    assert forall|j: int| 0 <= j < slots0.len() && active(#[trigger] slots0[j]) implies slots0[w].0
                        <= slots0[j].0 by {
                        assert(old_tree.key_at(w) <= old_tree.key_at(j));
                    }
                    lemma_emit_step(records, old_next as int, slots0, w, (x, frozen), old_cur, runs_view(runs@));
                    lemma_real_values_update(slots0, w, (x, frozen));
                    assert(s1 =~= slots0.update(w, (x, frozen)));
                    assert(slot_record(slots0[w]) =~= Multiset::singleton(record));
                    assert(real_values(s1).add(Multiset::singleton(record)).len() == real_values(
                        slots0,
                    ).add(slot_record((x, frozen))).len());
                    assert(slot_in_range((x, frozen)));
                    assert forall|i: int| 0 <= i < s1.len() implies #[trigger] slot_in_range(s1[i]) by {
                        if i != w {
                            assert(slot_in_range(slots0[i]));
                        }
                    }
                    if old_next < n {
                        assert(records.take(self.next as int).to_multiset() =~= records.take(
                            old_next as int,
                        ).to_multiset().insert(x as i32));
                        assert(slot_record((x, frozen)) =~= Multiset::singleton(x as i32));
                    } else {
                        assert(slot_record((x, frozen)) =~= Multiset::<i32>::empty());
                    }
                    assert(emitted.to_multiset() =~= old_emitted.to_multiset().insert(record));
                    assert(real_values(s1).add(Multiset::singleton(record)) =~= real_values(
                        slots0,
                    ).add(slot_record((x, frozen))));
                    assert(records.take(old_next as int).to_multiset() =~= old_emitted.to_multiset().add(
                        real_values(slots0),
                    ));
                    assert(records.take(self.next as int).to_multiset() =~= records.take(
                        old_next as int,
                    ).to_multiset().add(slot_record((x, frozen))));
                    assert forall|v: i32| #[trigger] records.take(self.next as int).to_multiset().count(v)
                        == emitted.to_multiset().add(real_values(s1)).count(v) by {
                        assert(emitted.to_multiset().count(v) == old_emitted.to_multiset().count(v)
                            + Multiset::singleton(record).count(v));
                        assert(real_values(s1).add(Multiset::singleton(record)).count(v)
                            == real_values(slots0).add(slot_record((x, frozen))).count(v));
                        assert(real_values(s1).count(v) + Multiset::singleton(record).count(v)
                            == real_values(slots0).count(v) + slot_record((x, frozen)).count(v));
                    }
                    assert(records.take(self.next as int).to_multiset() =~= emitted.to_multiset().add(
                        real_values(s1),
                    ));
                    assert(active(slots0[w]));
                    lemma_active_update(slots0, w, (x, frozen));
                    if sorted(records) && old_next < n {
                        lemma_real_values_update(slots0, w, (INF, false));
                        assert(slot_record((INF, false)) =~= Multiset::<i32>::empty());
                        assert(real_values(slots0.update(w, (INF, false))).add(slot_record(slots0[w])).count(
                            record,
                        ) == real_values(slots0).add(slot_record((INF, false))).count(record));
                        assert(real_values(slots0).count(record) >= 1);
                        let t = records.take(old_next as int);
                        assert(t.to_multiset().count(record) >= 1);
                        assert(t.contains(record));
                        let i = choose|i: int| 0 <= i < t.len() && t[i] == record;
                        assert(records[i] <= records[old_next as int]);
                        assert(!frozen);
                    }
                    assert forall|i: int| 0 <= i < s1.len() && !(#[trigger] s1[i]).1 implies s1[i].0
                        >= pre_winner by {
                        if i != w {
                            assert(old_tree.key_at(i) == effective_key(slots0[i]));
                            assert(old_tree.key_at(w) <= old_tree.key_at(i));
                        }
                    }
                }
            }
        }
        proof {
            let rv = runs_view(runs@);
            assert(rv.flatten().len() == records.len()) by {
                assert(rv.flatten().to_multiset().len() == records.to_multiset().len());
            }
            assert forall|j: int| 0 <= j < rv.len() - 1 implies (#[trigger] rv[j]).len() >= kk by {
                assert(rv[j] == runs@[j]@);
            }
            lemma_run_count(rv, kk as int);
            assert forall|j: int| 0 <= j < rv.len() implies (#[trigger] rv[j]).len() >= 1 by {
                assert(rv[j].len() > 0);
            }
            lemma_runs_long(rv, 1);
            if runs@.len() > 0 {
                assert(rv.len() > 0);
            }
        }
        runs
    }
}

} // verus!
