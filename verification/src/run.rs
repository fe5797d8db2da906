//! What the operations of the table keep: every operation keeps the books
//! (ids and safe sequence), admissions leave the system in a safe state, a
//! run finishes the processes one at a time in the order of the safe
//! sequence and gives back everything they held, and a run that starts from
//! a safe sequence never lacks resources.

use vstd::prelude::*;

use crate::algo::{can_finish, held, is_safe_order};
use crate::table::{
    Data, Proc, RESOURCE_COUNT, TableModel, distinct_ids, empty_table, find_id, finished,
    is_first_with_id, released_by,
};

verus! {

broadcast use vstd::seq_lib::group_to_multiset_ensures;

/// If `a` lists the processes of `b`, each process of `a` is one of `b`.
proof fn lemma_member_of_perm(a: Seq<Data>, b: Seq<Data>, j: int) -> (i: int)
    requires
        a.to_multiset() == b.to_multiset(),
        0 <= j < a.len(),
    ensures
        0 <= i < b.len(),
        b[i] == a[j],
{
    assert(a.to_multiset().count(a[j]) > 0);
    assert(b.contains(a[j]));
    b.index_of(a[j])
}

/// Listing the same processes in another order keeps the ids distinct.
proof fn lemma_distinct_ids_perm(a: Seq<Data>, b: Seq<Data>)
    requires
        a.to_multiset() == b.to_multiset(),
        distinct_ids(b),
    ensures
        distinct_ids(a),
{
    assert forall|i: int, j: int|
        0 <= i < a.len() && 0 <= j < a.len() && i != j implies a[i].id != a[j].id by {
        if a[i].id == a[j].id {
            let p = lemma_member_of_perm(a, b, i);
            if a[i] == a[j] {
                // the process occurs twice in `a`, hence twice in `b`
                let x = a[i];
                let a2 = a.remove(j);
                let i2 = if i < j {
                    i
                } else {
                    i - 1
                };
                assert(a2[i2] == x);
                assert(a2.to_multiset().count(x) > 0);
                assert(a2.to_multiset() == a.to_multiset().remove(x));
                let b2 = b.remove(p);
                assert(b2.to_multiset() == b.to_multiset().remove(x));
                assert(b2.to_multiset().count(x) > 0);
                assert(b2.contains(x));
                let q2 = b2.index_of(x);
                let q = if q2 < p {
                    q2
                } else {
                    q2 + 1
                };
                assert(b[q] == x);
                assert(b[q].id == b[p].id);
            } else {
                let q = lemma_member_of_perm(a, b, j);
                assert(b[p].id == b[q].id);
            }
        }
    }
}

/// The first process with a given id is the one that holds it, when ids are distinct.
proof fn lemma_find_distinct(procs: Seq<Data>, k: int)
    requires
        distinct_ids(procs),
        0 <= k < procs.len(),
    ensures
        find_id(procs, procs[k].id) == Some(k),
{
    let id = procs[k].id;
    assert(is_first_with_id(procs, id, k));
    let c = choose|c: int| is_first_with_id(procs, id, c);
    assert(c == k);
}

/// A safe order stays safe without its first process, from what that process releases.
proof fn lemma_safe_order_tail(s: Seq<Data>, cur: Seq<usize>)
    requires
        is_safe_order(s, cur),
        s.len() > 0,
        cur.len() == RESOURCE_COUNT,
        forall|r: int| 0 <= r < RESOURCE_COUNT ==> cur[r] + s[0].allocation@[r] <= usize::MAX,
    ensures
        is_safe_order(s.drop_first(), released_by(cur, s[0])),
{
    let rest = s.drop_first();
    let next = released_by(cur, s[0]);
    assert forall|k: int| 0 <= k < rest.len() implies #[trigger] can_finish(
        rest[k],
        next,
        rest.take(k),
    ) by {
        assert(can_finish(s[k + 1], cur, s.take(k + 1)));
        let one = seq![s[0]];
        assert(s.take(k + 1) =~= one + rest.take(k));
        assert forall|r: int| 0 <= r < RESOURCE_COUNT implies rest[k].need@[r] <= next[r] + held(
            rest.take(k),
            r,
        ) by {
            crate::algo::lemma_held_append(one, rest.take(k), r);
            assert(one.drop_last() =~= Seq::<Data>::empty());
            assert(held(one.drop_last(), r) == 0);
            assert(held(one, r) == s[0].allocation@[r]);
        }
    }
}

/// A table with no process is ready to run.
pub proof fn lemma_empty_ready()
    ensures
        empty_table().ready_to_run(),
{
    let t = empty_table();
    assert(t.safe.skip(0) =~= Seq::<Data>::empty());
}

/// Changing the resources keeps the bookkeeping of the processes.
pub proof fn lemma_resources_keep_consistent(t: TableModel, res: Seq<usize>)
    requires
        t.consistent(),
        res.len() == RESOURCE_COUNT,
    ensures
        (TableModel { available: res, total: res, ..t }).consistent(),
{
    let u = TableModel { available: res, total: res, ..t };
    assert forall|j: int| 0 <= j < u.data.len() implies u.has_entry_like(#[trigger] u.safe[j]) by {
        assert(t.has_entry_like(t.safe[j]));
        let k = choose|k: int|
            0 <= k < t.data.len() && #[trigger] t.data[k].id == t.safe[j].id && t.data[k].allocation
                == t.safe[j].allocation && t.data[k].need == t.safe[j].need;
        assert(u.data[k].id == u.safe[j].id);
    }
    assert forall|i: int| 0 <= i < u.data.len() implies u.runs_through(#[trigger] u.data[i].id) by {
        assert(t.runs_through(t.data[i].id));
        let j = choose|j: int| 0 <= j < t.safe.len() && #[trigger] t.safe[j].id == t.data[i].id;
        assert(u.safe[j].id == u.data[i].id);
    }
}

/// Admitting a process before a run has started leaves the table ready to
/// run: the new safe sequence lets every process finish.
pub proof fn lemma_push_keeps_ready(t: TableModel, p: Proc, u: TableModel)
    requires
        t.consistent(),
        t.finished == 0,
        t.data.len() + 1 < usize::MAX,
        t.push_accepted(p, u),
    ensures
        u.ready_to_run(),
{
    let n = t.data.len();
    let e = t.admitted(p);
    let old_safe = t.safe.push(e);
    assert(u.data == t.data.push(e));
    assert(u.safe.to_multiset() == old_safe.to_multiset());
    assert(u.safe.len() == old_safe.len()) by {
        assert(u.safe.to_multiset().len() == u.safe.len());
        assert(old_safe.to_multiset().len() == old_safe.len());
    }
    // ids of `data`
    assert forall|i: int| 0 <= i < n + 1 implies #[trigger] u.data[i].id < n + 1 by {
        if i < n {
            assert(u.data[i] == t.data[i]);
        }
    }
    assert(distinct_ids(u.data)) by {
        assert forall|i: int, j: int|
            0 <= i < n + 1 && 0 <= j < n + 1 && i != j implies u.data[i].id != u.data[j].id by {
            if i < n {
                assert(t.data[i].id < n);
            }
            if j < n {
                assert(t.data[j].id < n);
            }
        }
    }
    // the safe sequence before the check
    assert(distinct_ids(old_safe)) by {
        assert forall|i: int, j: int|
            0 <= i < n + 1 && 0 <= j < n + 1 && i != j implies old_safe[i].id != old_safe[j].id by {
            if i < n {
                assert(t.safe[i].id < n);
            }
            if j < n {
                assert(t.safe[j].id < n);
            }
        }
    }
    lemma_distinct_ids_perm(u.safe, old_safe);
    assert forall|j: int| 0 <= j < n + 1 implies u.safe[j].id < n + 1 && u.has_entry_like(
        #[trigger] u.safe[j],
    ) by {
        let i = lemma_member_of_perm(u.safe, old_safe, j);
        if i < n {
            assert(old_safe[i] == t.safe[i]);
            assert(t.safe[i].id < n);
            assert(t.has_entry_like(t.safe[i]));
            let k = choose|k: int|
                0 <= k < t.data.len() && #[trigger] t.data[k].id == t.safe[i].id
                    && t.data[k].allocation == t.safe[i].allocation && t.data[k].need
                    == t.safe[i].need;
            assert(u.data[k] == t.data[k]);
            assert(u.data[k].id == u.safe[j].id);
        } else {
            assert(u.data[n as int] == e);
            assert(u.data[n as int].id == u.safe[j].id);
        }
    }
    assert forall|j: int| 0 <= j < n + 1 implies #[trigger] u.safe[j].id < n + 1 by {
        assert(u.has_entry_like(u.safe[j]));
    }
    // every process of `data` is in the safe sequence
    assert forall|i: int| 0 <= i < n + 1 implies u.runs_through(#[trigger] u.data[i].id) by {
        let x = if i < n {
            assert(t.runs_through(t.data[i].id));
            let j0 = choose|j: int| 0 <= j < n && #[trigger] t.safe[j].id == t.data[i].id;
            assert(old_safe[j0] == t.safe[j0]);
            old_safe[j0]
        } else {
            assert(old_safe[n as int] == e);
            e
        };
        assert(old_safe.contains(x));
        assert(old_safe.to_multiset().count(x) > 0);
        assert(u.safe.contains(x));
        let j = u.safe.index_of(x);
        assert(u.safe[j].id == u.data[i].id);
    }
    // nothing is finished
    assert forall|i: int| 0 <= i < n + 1 implies !#[trigger] u.data[i].finish by {
        if i < n {
            assert(u.data[i] == t.data[i]);
            assert(t.data[i].finish <==> exists|j: int|
                0 <= j < t.finished && t.safe[j].id == t.data[i].id);
        }
    }
    assert(u.safe.skip(0) =~= u.safe);
}

/// A step of a run that is ready finishes the next process of the safe
/// sequence, which was still running and whose need what is available covers,
/// and leaves the table ready to run.
pub proof fn lemma_step_keeps_ready(t: TableModel)
    requires
        t.ready_to_run(),
        t.finished < t.data.len(),
        t.step_fits(),
    ensures
        t.next_to_finish() is Some,
        !t.data[t.next_to_finish()->0].finish,
        forall|r: int|
            0 <= r < RESOURCE_COUNT ==> #[trigger] t.data[t.next_to_finish()->0].need@[r]
                <= t.available[r],
        t.stepped().finished == t.finished + 1,
        t.stepped().ready_to_run(),
{
    let n = t.data.len();
    let f = t.finished as int;
    let x = t.safe[f];
    assert(t.has_entry_like(x));
    let k = choose|k: int|
        0 <= k < t.data.len() && #[trigger] t.data[k].id == x.id && t.data[k].allocation
            == x.allocation && t.data[k].need == x.need;
    lemma_find_distinct(t.data, k);
    assert(t.next_to_finish() == Some(k));
    // it was still running
    if t.data[k].finish {
        let j = choose|j: int| 0 <= j < t.finished && t.safe[j].id == t.data[k].id;
        assert(t.safe[j].id == t.safe[f].id);
    }
    // its need is covered
    let rest = t.safe.skip(f);
    assert(rest[0] == x);
    assert(can_finish(rest[0], t.available, rest.take(0)));
    assert(rest.take(0) =~= Seq::<Data>::empty());
    assert forall|r: int| 0 <= r < RESOURCE_COUNT implies t.data[k].need@[r] <= t.available[r] by {
        assert(held(rest.take(0), r) == 0);
    }
    // after the step
    let u = t.stepped();
    assert(u.data == t.data.update(k, finished(t.data[k])));
    assert(u.available == released_by(t.available, t.data[k]));
    assert forall|i: int| 0 <= i < n implies #[trigger] u.data[i].id == t.data[i].id && u.data[i].allocation
        == t.data[i].allocation && u.data[i].need == t.data[i].need by {}
    assert forall|j: int| 0 <= j < n implies u.has_entry_like(#[trigger] u.safe[j]) by {
        assert(t.has_entry_like(t.safe[j]));
        let k2 = choose|k2: int|
            0 <= k2 < t.data.len() && #[trigger] t.data[k2].id == t.safe[j].id
                && t.data[k2].allocation == t.safe[j].allocation && t.data[k2].need
                == t.safe[j].need;
        assert(u.data[k2].id == u.safe[j].id);
    }
    assert forall|i: int| 0 <= i < n implies u.runs_through(#[trigger] u.data[i].id) by {
        assert(t.runs_through(t.data[i].id));
        let j = choose|j: int| 0 <= j < n && #[trigger] t.safe[j].id == t.data[i].id;
        assert(u.safe[j].id == u.data[i].id);
    }
    assert forall|i: int| 0 <= i < n implies (#[trigger] u.data[i].finish <==> exists|j: int|
        0 <= j < u.finished && u.safe[j].id == u.data[i].id) by {
        if i == k {
            assert(u.safe[f].id == u.data[i].id);
        } else {
            assert(u.data[i] == t.data[i]);
            assert(t.data[i].id != t.data[k].id);
            if exists|j: int| 0 <= j < u.finished && u.safe[j].id == u.data[i].id {
                let j = choose|j: int| 0 <= j < u.finished && u.safe[j].id == u.data[i].id;
                assert(j != f);
                assert(0 <= j < t.finished && t.safe[j].id == t.data[i].id);
            }
        }
    }
    assert(distinct_ids(u.data)) by {
        assert forall|i: int, j: int|
            0 <= i < n && 0 <= j < n && i != j implies u.data[i].id != u.data[j].id by {
            assert(t.data[i].id != t.data[j].id);
        }
    }
    // what is left of the safe sequence is still a safe order
    assert forall|r: int| 0 <= r < RESOURCE_COUNT implies t.available[r] + rest[0].allocation@[r]
        <= usize::MAX by {}
    lemma_safe_order_tail(rest, t.available);
    assert(rest.drop_first() =~= t.safe.skip(f + 1));
    assert(released_by(t.available, rest[0]) =~= u.available);
}

/// Reordering the rows of the table, as sorting a column does, keeps it
/// ready to run.
pub proof fn lemma_reorder_keeps_ready(t: TableModel, u: TableModel)
    requires
        t.ready_to_run(),
        u.data.to_multiset() == t.data.to_multiset(),
        u.available == t.available,
        u.total == t.total,
        u.finished == t.finished,
        u.safe == t.safe,
    ensures
        u.ready_to_run(),
{
    let n = t.data.len();
    assert(u.data.len() == n) by {
        assert(u.data.to_multiset().len() == u.data.len());
        assert(t.data.to_multiset().len() == t.data.len());
    }
    lemma_distinct_ids_perm(u.data, t.data);
    assert forall|i: int| 0 <= i < n implies #[trigger] u.data[i].id < n && u.runs_through(
        u.data[i].id,
    ) && (u.data[i].finish <==> exists|j: int|
        0 <= j < u.finished && u.safe[j].id == u.data[i].id) by {
        let p = lemma_member_of_perm(u.data, t.data, i);
        assert(t.data[p].id < n);
        assert(t.runs_through(t.data[p].id));
        assert(t.data[p].finish <==> exists|j: int|
            0 <= j < t.finished && t.safe[j].id == t.data[p].id);
    }
    assert forall|i: int| 0 <= i < n implies u.runs_through(#[trigger] u.data[i].id) by {
        assert(u.data[i].id < n);
    }
    assert forall|i: int| 0 <= i < n implies (#[trigger] u.data[i].finish <==> exists|j: int|
        0 <= j < u.finished && u.safe[j].id == u.data[i].id) by {
        assert(u.data[i].id < n);
    }
    assert forall|j: int| 0 <= j < n implies u.has_entry_like(#[trigger] u.safe[j]) by {
        assert(t.has_entry_like(t.safe[j]));
        let k = choose|k: int|
            0 <= k < t.data.len() && #[trigger] t.data[k].id == t.safe[j].id && t.data[k].allocation
                == t.safe[j].allocation && t.data[k].need == t.safe[j].need;
        let i = lemma_member_of_perm(t.data, u.data, k);
        assert(u.data[i].id == u.safe[j].id);
    }
}

/// Once the run has passed every process of the safe sequence, every process
/// is finished.
pub proof fn lemma_run_finishes_all(t: TableModel)
    requires
        t.consistent(),
        t.finished == t.data.len(),
    ensures
        forall|i: int| 0 <= i < t.data.len() ==> #[trigger] t.data[i].finish,
{
    assert forall|i: int| 0 <= i < t.data.len() implies #[trigger] t.data[i].finish by {
        assert(t.runs_through(t.data[i].id));
        let j = choose|j: int| 0 <= j < t.data.len() && #[trigger] t.safe[j].id == t.data[i].id;
        assert(0 <= j < t.finished && t.safe[j].id == t.data[i].id);
    }
}


/// An empty table keeps the books.
pub proof fn lemma_empty_bookkept()
    ensures
        empty_table().bookkept(),
        empty_table().flags_follow_run(),
{
}

/// Admitting a process, at any time, keeps the books: the new process gets
/// the next id, and the safe sequence holds it once.
pub proof fn lemma_push_bookkept(t: TableModel, p: Proc, u: TableModel)
    requires
        t.bookkept(),
        t.data.len() + 1 < usize::MAX,
        t.push_accepted(p, u),
    ensures
        u.bookkept(),
{
    let n = t.data.len();
    let e = t.admitted(p);
    let old_safe = t.safe.push(e);
    assert(u.safe.len() == old_safe.len()) by {
        assert(u.safe.to_multiset().len() == u.safe.len());
        assert(old_safe.to_multiset().len() == old_safe.len());
    }
    assert(u.data[n as int] == e);
    assert forall|i: int| 0 <= i < n + 1 implies #[trigger] u.data[i].id < n + 1 by {
        if i < n {
            assert(u.data[i] == t.data[i]);
        }
    }
    assert(distinct_ids(u.data)) by {
        assert forall|i: int, j: int|
            0 <= i < n + 1 && 0 <= j < n + 1 && i != j implies u.data[i].id != u.data[j].id by {
            if i < n {
                assert(t.data[i].id < n);
            }
            if j < n {
                assert(t.data[j].id < n);
            }
        }
    }
    // the ids of the safe sequence before the check are below `n`, but for the new one
    assert forall|j: int| 0 <= j < n implies #[trigger] t.safe[j].id < n by {
        assert(TableModel::has_id(t.data, t.safe[j].id));
        let k = choose|k: int| 0 <= k < t.data.len() && #[trigger] t.data[k].id == t.safe[j].id;
        assert(t.data[k].id < n);
    }
    assert(distinct_ids(old_safe)) by {
        assert forall|i: int, j: int|
            0 <= i < n + 1 && 0 <= j < n + 1 && i != j implies old_safe[i].id != old_safe[j].id by {
            if i < n {
                assert(t.safe[i].id < n);
            }
            if j < n {
                assert(t.safe[j].id < n);
            }
        }
    }
    lemma_distinct_ids_perm(u.safe, old_safe);
    assert forall|j: int| 0 <= j < n + 1 implies TableModel::has_id(
        u.data,
        #[trigger] u.safe[j].id,
    ) by {
        let i = lemma_member_of_perm(u.safe, old_safe, j);
        if i < n {
            assert(old_safe[i] == t.safe[i]);
            assert(TableModel::has_id(t.data, t.safe[i].id));
            let k = choose|k: int| 0 <= k < t.data.len() && #[trigger] t.data[k].id == t.safe[i].id;
            assert(u.data[k] == t.data[k]);
            assert(u.data[k].id == u.safe[j].id);
        } else {
            assert(u.data[n as int].id == u.safe[j].id);
        }
    }
    assert forall|i: int| 0 <= i < n + 1 implies TableModel::has_id(
        u.safe,
        #[trigger] u.data[i].id,
    ) by {
        let jj = if i < n {
            assert(u.data[i] == t.data[i]);
            assert(TableModel::has_id(t.safe, t.data[i].id));
            let j0 = choose|j: int| 0 <= j < t.safe.len() && #[trigger] t.safe[j].id == t.data[i].id;
            assert(old_safe[j0] == t.safe[j0]);
            j0
        } else {
            n as int
        };
        let x = old_safe[jj];
        assert(x.id == u.data[i].id);
        assert(old_safe.contains(x));
        assert(old_safe.to_multiset().count(x) > 0);
        assert(u.safe.contains(x));
        let j = u.safe.index_of(x);
        assert(u.safe[j].id == u.data[i].id);
    }
}

/// Changing the resources keeps the books.
pub proof fn lemma_resources_bookkept(t: TableModel, res: Seq<usize>)
    requires
        t.bookkept(),
        res.len() == RESOURCE_COUNT,
    ensures
        (TableModel { available: res, total: res, ..t }).bookkept(),
        t.flags_follow_run() ==> (TableModel { available: res, total: res, ..t }).flags_follow_run(),
{
    let u = TableModel { available: res, total: res, ..t };
    assert forall|i: int| 0 <= i < u.data.len() implies TableModel::has_id(
        u.safe,
        #[trigger] u.data[i].id,
    ) by {
        assert(TableModel::has_id(t.safe, t.data[i].id));
    }
    assert forall|j: int| 0 <= j < u.data.len() implies TableModel::has_id(
        u.data,
        #[trigger] u.safe[j].id,
    ) by {
        assert(TableModel::has_id(t.data, t.safe[j].id));
    }
}

/// Reordering the rows, as sorting a column does, keeps the books and the
/// finished flags.
pub proof fn lemma_reorder_bookkept(t: TableModel, u: TableModel)
    requires
        t.bookkept(),
        u.data.to_multiset() == t.data.to_multiset(),
        u.available == t.available,
        u.total == t.total,
        u.finished == t.finished,
        u.safe == t.safe,
    ensures
        u.bookkept(),
        t.flags_follow_run() ==> u.flags_follow_run(),
{
    let n = t.data.len();
    assert(u.data.len() == n) by {
        assert(u.data.to_multiset().len() == u.data.len());
        assert(t.data.to_multiset().len() == t.data.len());
    }
    lemma_distinct_ids_perm(u.data, t.data);
    assert forall|i: int| 0 <= i < n implies #[trigger] u.data[i].id < n && TableModel::has_id(
        u.safe,
        u.data[i].id,
    ) && (t.flags_follow_run() ==> (u.data[i].finish <==> exists|j: int|
        0 <= j < u.finished && u.safe[j].id == u.data[i].id)) by {
        let p = lemma_member_of_perm(u.data, t.data, i);
        assert(t.data[p].id < n);
        assert(TableModel::has_id(t.safe, t.data[p].id));
        if t.flags_follow_run() {
            assert(t.data[p].finish <==> exists|j: int|
                0 <= j < t.finished && t.safe[j].id == t.data[p].id);
        }
    }
    assert forall|i: int| 0 <= i < n implies TableModel::has_id(
        u.safe,
        #[trigger] u.data[i].id,
    ) by {
        assert(u.data[i].id < n);
    }
    if t.flags_follow_run() {
        assert forall|i: int| 0 <= i < n implies (#[trigger] u.data[i].finish <==> exists|j: int|
            0 <= j < u.finished && u.safe[j].id == u.data[i].id) by {
            assert(u.data[i].id < n);
        }
    }
    assert forall|j: int| 0 <= j < n implies TableModel::has_id(
        u.data,
        #[trigger] u.safe[j].id,
    ) by {
        assert(TableModel::has_id(t.data, t.safe[j].id));
        let k = choose|k: int| 0 <= k < t.data.len() && #[trigger] t.data[k].id == t.safe[j].id;
        let i = lemma_member_of_perm(t.data, u.data, k);
        assert(u.data[i].id == u.safe[j].id);
    }
}

/// A step keeps the books and the finished flags: while the run has not
/// passed its end, it finishes the process at the next place of the safe
/// sequence, which was still running, and moves on by one place.
pub proof fn lemma_step_bookkept(t: TableModel)
    requires
        t.bookkept(),
        t.flags_follow_run(),
    ensures
        t.stepped().bookkept(),
        t.stepped().flags_follow_run(),
        t.finished < t.data.len() ==> {
            &&& t.next_to_finish() is Some
            &&& t.data[t.next_to_finish()->0].id == t.safe[t.finished as int].id
            &&& !t.data[t.next_to_finish()->0].finish
            &&& t.stepped().finished == t.finished + 1
        },
        t.finished == t.data.len() ==> t.stepped() == t,
{
    let n = t.data.len();
    if t.finished < n {
        let f = t.finished as int;
        assert(TableModel::has_id(t.data, t.safe[f].id));
        let k0 = choose|k: int| 0 <= k < t.data.len() && #[trigger] t.data[k].id == t.safe[f].id;
        lemma_find_distinct(t.data, k0);
        let k = k0;
        assert(t.next_to_finish() == Some(k));
        if t.data[k].finish {
            let j = choose|j: int| 0 <= j < t.finished && t.safe[j].id == t.data[k].id;
            assert(t.safe[j].id == t.safe[f].id);
        }
        let u = t.stepped();
        assert forall|i: int| 0 <= i < n implies #[trigger] u.data[i].id == t.data[i].id by {}
        assert(distinct_ids(u.data)) by {
            assert forall|i: int, j: int|
                0 <= i < n && 0 <= j < n && i != j implies u.data[i].id != u.data[j].id by {
                assert(t.data[i].id != t.data[j].id);
            }
        }
        assert forall|i: int| 0 <= i < n implies TableModel::has_id(
            u.safe,
            #[trigger] u.data[i].id,
        ) by {
            assert(TableModel::has_id(t.safe, t.data[i].id));
        }
        assert forall|j: int| 0 <= j < n implies TableModel::has_id(
            u.data,
            #[trigger] u.safe[j].id,
        ) by {
            assert(TableModel::has_id(t.data, t.safe[j].id));
            let k2 = choose|k2: int| 0 <= k2 < t.data.len() && #[trigger] t.data[k2].id == t.safe[j].id;
            assert(u.data[k2].id == u.safe[j].id);
        }
        assert forall|i: int| 0 <= i < n implies (#[trigger] u.data[i].finish <==> exists|j: int|
            0 <= j < u.finished && u.safe[j].id == u.data[i].id) by {
            if i == k {
                assert(u.safe[f].id == u.data[i].id);
            } else {
                assert(u.data[i] == t.data[i]);
                assert(t.data[i].id != t.data[k].id);
                if exists|j: int| 0 <= j < u.finished && u.safe[j].id == u.data[i].id {
                    let j = choose|j: int| 0 <= j < u.finished && u.safe[j].id == u.data[i].id;
                    assert(j != f);
                    assert(0 <= j < t.finished && t.safe[j].id == t.data[i].id);
                }
            }
        }
    }
}

/// Amount of resource `r` that the finished processes of `procs` held.
pub open spec fn held_by_finished(procs: Seq<Data>, r: int) -> int
    decreases procs.len(),
{
    if procs.len() == 0 {
        0
    } else {
        held_by_finished(procs.drop_last(), r) + if procs.last().finish {
            procs.last().allocation@[r] as int
        } else {
            0
        }
    }
}

/// The table after `k` steps.
pub open spec fn run_steps(t: TableModel, k: nat) -> TableModel
    decreases k,
{
    if k == 0 {
        t
    } else {
        run_steps(t, (k - 1) as nat).stepped()
    }
}

/// A process still running holds resources that no finished one accounts for.
proof fn lemma_held_by_finished_room(s: Seq<Data>, k: int, r: int)
    requires
        0 <= k < s.len(),
        !s[k].finish,
    ensures
        held_by_finished(s, r) + s[k].allocation@[r] <= held(s, r),
    decreases s.len(),
{
    if k == s.len() - 1 {
        lemma_held_by_finished_le(s.drop_last(), r);
    } else {
        lemma_held_by_finished_room(s.drop_last(), k, r);
    }
}

proof fn lemma_held_by_finished_le(s: Seq<Data>, r: int)
    ensures
        0 <= held_by_finished(s, r) <= held(s, r),
    decreases s.len(),
{
    if s.len() > 0 {
        lemma_held_by_finished_le(s.drop_last(), r);
    }
}

/// Finishing a running process adds what it holds.
proof fn lemma_held_by_finished_step(s: Seq<Data>, k: int, r: int)
    requires
        0 <= k < s.len(),
        !s[k].finish,
    ensures
        held_by_finished(s.update(k, finished(s[k])), r) == held_by_finished(s, r)
            + s[k].allocation@[r],
    decreases s.len(),
{
    let u = s.update(k, finished(s[k]));
    if k == s.len() - 1 {
        assert(u.drop_last() =~= s.drop_last());
    } else {
        assert(u.drop_last() =~= s.drop_last().update(k, finished(s[k])));
        lemma_held_by_finished_step(s.drop_last(), k, r);
    }
}

/// When every process is finished, the finished ones hold everything held.
proof fn lemma_held_by_finished_all(s: Seq<Data>, r: int)
    requires
        forall|i: int| 0 <= i < s.len() ==> #[trigger] s[i].finish,
    ensures
        held_by_finished(s, r) == held(s, r),
    decreases s.len(),
{
    if s.len() > 0 {
        lemma_held_by_finished_all(s.drop_last(), r);
    }
}

/// When no process is finished, the finished ones hold nothing.
proof fn lemma_held_by_finished_none(s: Seq<Data>, r: int)
    requires
        forall|i: int| 0 <= i < s.len() ==> !#[trigger] s[i].finish,
    ensures
        held_by_finished(s, r) == 0,
    decreases s.len(),
{
    if s.len() > 0 {
        lemma_held_by_finished_none(s.drop_last(), r);
    }
}

/// Marking processes finished does not change what they hold.
proof fn lemma_held_same_allocations(a: Seq<Data>, b: Seq<Data>, r: int)
    requires
        a.len() == b.len(),
        forall|i: int| 0 <= i < a.len() ==> #[trigger] a[i].allocation == b[i].allocation,
    ensures
        held(a, r) == held(b, r),
    decreases a.len(),
{
    if a.len() > 0 {
        lemma_held_same_allocations(a.drop_last(), b.drop_last(), r);
        assert(a.last().allocation == b.last().allocation);
    }
}

/// What `k` steps of a run from `t` have done: the first `k` places of the
/// safe sequence are finished, and what they held is available again.
proof fn lemma_run_prefix(t: TableModel, k: nat)
    requires
        t.bookkept(),
        t.flags_follow_run(),
        t.finished == 0,
        k <= t.data.len(),
        forall|r: int| 0 <= r < RESOURCE_COUNT ==> t.available[r] + held(t.data, r) <= usize::MAX,
    ensures
        ({
            let u = run_steps(t, k);
            &&& u.bookkept()
            &&& u.flags_follow_run()
            &&& u.finished == k
            &&& u.data.len() == t.data.len()
            &&& u.safe == t.safe
            &&& u.total == t.total
            &&& forall|i: int| 0 <= i < t.data.len() ==> #[trigger] u.data[i].allocation
                == t.data[i].allocation
            &&& forall|r: int|
                0 <= r < RESOURCE_COUNT ==> #[trigger] u.available[r] == t.available[r]
                    + held_by_finished(u.data, r)
        }),
        forall|j: nat| j < k ==> #[trigger] run_steps(t, j).step_fits(),
    decreases k,
{
    if k == 0 {
        assert forall|i: int| 0 <= i < t.data.len() implies !#[trigger] t.data[i].finish by {
            assert(t.data[i].finish <==> exists|j: int|
                0 <= j < t.finished && t.safe[j].id == t.data[i].id);
        }
        assert forall|r: int| 0 <= r < RESOURCE_COUNT implies t.available[r] == t.available[r]
            + held_by_finished(t.data, r) by {
            lemma_held_by_finished_none(t.data, r);
        }
    } else {
        let k1 = (k - 1) as nat;
        lemma_run_prefix(t, k1);
        let u = run_steps(t, k1);
        lemma_step_bookkept(u);
        let i = u.next_to_finish()->0;
        assert(u.wf());
        // the step fits: what it adds is still unaccounted for
        assert forall|r: int| 0 <= r < RESOURCE_COUNT implies u.available[r]
            + u.data[i].allocation@[r] <= usize::MAX by {
            lemma_held_by_finished_room(u.data, i, r);
            lemma_held_same_allocations(u.data, t.data, r);
        }
        assert(u.step_fits());
        let v = u.stepped();
        assert(v == run_steps(t, k));
        assert forall|j: int| 0 <= j < t.data.len() implies #[trigger] v.data[j].allocation
            == t.data[j].allocation by {
            assert(u.data[j].allocation == t.data[j].allocation);
        }
        assert forall|r: int| 0 <= r < RESOURCE_COUNT implies #[trigger] v.available[r]
            == t.available[r] + held_by_finished(v.data, r) by {
            lemma_held_by_finished_step(u.data, i, r);
            lemma_held_by_finished_room(u.data, i, r);
            lemma_held_same_allocations(u.data, t.data, r);
            assert(u.available[r] == t.available[r] + held_by_finished(u.data, r));
        }
        assert forall|j: nat| j < k implies #[trigger] run_steps(t, j).step_fits() by {
            if j == k1 {
                assert(run_steps(t, j) == u);
            }
        }
    }
}

/// A run from a table whose books are kept and where nothing is finished yet
/// takes as many steps as there are processes: every step fits, afterwards
/// every process is finished and everything they held is available again,
/// and a further step changes nothing.
pub proof fn lemma_full_run(t: TableModel)
    requires
        t.bookkept(),
        t.flags_follow_run(),
        t.finished == 0,
        forall|r: int| 0 <= r < RESOURCE_COUNT ==> t.available[r] + held(t.data, r) <= usize::MAX,
    ensures
        forall|j: nat| j < t.data.len() ==> #[trigger] run_steps(t, j).step_fits(),
        run_steps(t, t.data.len()).finished == t.data.len(),
        forall|i: int|
            0 <= i < t.data.len() ==> #[trigger] run_steps(t, t.data.len()).data[i].finish,
        forall|r: int|
            0 <= r < RESOURCE_COUNT ==> #[trigger] run_steps(t, t.data.len()).available[r]
                == t.available[r] + held(t.data, r),
        run_steps(t, t.data.len()).stepped() == run_steps(t, t.data.len()),
{
    let n = t.data.len();
    lemma_run_prefix(t, n);
    let u = run_steps(t, n);
    assert forall|i: int| 0 <= i < n implies #[trigger] u.data[i].finish by {
        assert(TableModel::has_id(u.safe, u.data[i].id));
        let j = choose|j: int| 0 <= j < u.safe.len() && #[trigger] u.safe[j].id == u.data[i].id;
        assert(0 <= j < u.finished && u.safe[j].id == u.data[i].id);
    }
    assert forall|r: int| 0 <= r < RESOURCE_COUNT implies #[trigger] u.available[r]
        == t.available[r] + held(t.data, r) by {
        lemma_held_by_finished_all(u.data, r);
        lemma_held_same_allocations(u.data, t.data, r);
    }
    lemma_step_bookkept(u);
}

/// A push is refused for lack of resources exactly when the process holds
/// more of some resource than is available; an admitted process takes its
/// allocation out of what is available, and holds no more than was there.
pub proof fn lemma_admission_takes_from_available(t: TableModel, p: Proc, u: TableModel)
    requires
        t.wf(),
    ensures
        t.lacks_resources(p) <==> exists|r: int|
            0 <= r < RESOURCE_COUNT && p.allocation@[r] > t.available[r],
        !t.lacks_resources(p) && t.push_accepted(p, u) ==> forall|r: int|
            0 <= r < RESOURCE_COUNT ==> #[trigger] p.allocation@[r] <= t.available[r]
                && u.available[r] + p.allocation@[r] == t.available[r],
{
}

/// A step finishes the first row whose id is the next one of the safe
/// sequence and gives back what that row holds; everything else stays. When
/// the run has reached its end, or no row has that id, nothing changes.
pub proof fn lemma_step_effect(t: TableModel)
    requires
        t.wf(),
        t.step_fits(),
    ensures
        t.finished == t.data.len() ==> t.stepped() == t,
        t.finished < t.data.len() && (forall|k: int|
            0 <= k < t.data.len() ==> #[trigger] t.data[k].id != t.safe[t.finished as int].id)
            ==> t.stepped() == t,
        forall|k: int|
            0 <= k < t.data.len() && t.finished < t.data.len() && #[trigger] t.data[k].id
                == t.safe[t.finished as int].id && (forall|j: int|
                0 <= j < k ==> t.data[j].id != t.safe[t.finished as int].id) ==> {
                let u = t.stepped();
                &&& u.finished == t.finished + 1
                &&& u.safe == t.safe
                &&& u.total == t.total
                &&& u.data.len() == t.data.len()
                &&& u.data[k].finish
                &&& u.data[k].id == t.data[k].id
                &&& u.data[k].name == t.data[k].name
                &&& u.data[k].allocation == t.data[k].allocation
                &&& u.data[k].max == t.data[k].max
                &&& u.data[k].need == t.data[k].need
                &&& forall|i: int| 0 <= i < t.data.len() && i != k ==> u.data[i] == t.data[i]
                &&& forall|r: int|
                    0 <= r < RESOURCE_COUNT ==> u.available[r] == t.available[r]
                        + t.data[k].allocation@[r]
            },
{
    if t.finished < t.data.len() {
        let id = t.safe[t.finished as int].id;
        if exists|k: int| is_first_with_id(t.data, id, k) {
            let k = choose|k: int| is_first_with_id(t.data, id, k);
            assert forall|k2: int|
                0 <= k2 < t.data.len() && #[trigger] t.data[k2].id == id && (forall|j: int|
                    0 <= j < k2 ==> t.data[j].id != id) implies k2 == k by {
                assert(is_first_with_id(t.data, id, k2));
                if k2 < k {
                    assert(t.data[k2].id != id);
                }
                if k < k2 {
                    assert(t.data[k].id != id);
                }
            }
            assert forall|r: int| 0 <= r < RESOURCE_COUNT implies t.stepped().available[r]
                == t.available[r] + t.data[k].allocation@[r] by {
                assert(t.available[r] + t.data[k].allocation@[r] <= usize::MAX);
            }
        } else {
            assert forall|k: int|
                0 <= k < t.data.len() && #[trigger] t.data[k].id == id implies exists|j: int|
                0 <= j < k && t.data[j].id == id by {
                if !exists|j: int| 0 <= j < k && t.data[j].id == id {
                    assert(is_first_with_id(t.data, id, k));
                }
            }
        }
    }
}

/// The entry an admission adds is the process as given, with the next id and
/// not finished; what remains available is what was there less what it holds.
pub proof fn lemma_admission_parts(t: TableModel, p: Proc)
    requires
        t.wf(),
        t.data.len() < usize::MAX,
    ensures
        t.admitted(p).id == t.data.len(),
        t.admitted(p).name == p.name,
        t.admitted(p).allocation == p.allocation,
        t.admitted(p).max == p.max,
        t.admitted(p).need == p.need,
        !t.admitted(p).finish,
        !t.lacks_resources(p) ==> forall|r: int|
            0 <= r < RESOURCE_COUNT ==> #[trigger] t.after_allocation(p)[r] + p.allocation@[r]
                == t.available[r],
        t.after_allocation(p).len() == RESOURCE_COUNT,
{
}

} // verus!
