use vstd::prelude::*;

use vstd::multiset::Multiset;

use crate::table::{Data, RESOURCE_COUNT};

verus! {

broadcast use {
    vstd::seq_lib::group_to_multiset_ensures,
    vstd::multiset::group_multiset_axioms,
    vstd::multiset::group_multiset_properties,
};

/// Amount of resource `r` that the processes of `procs` hold together.
pub open spec fn held(procs: Seq<Data>, r: int) -> int
    decreases procs.len(),
{
    if procs.len() == 0 {
        0
    } else {
        held(procs.drop_last(), r) + procs.last().allocation@[r]
    }
}

/// `p` can run to completion with the resources `cur` plus everything the
/// processes of `done` released when they finished.
pub open spec fn can_finish(p: Data, cur: Seq<usize>, done: Seq<Data>) -> bool {
    forall|r: int| 0 <= r < RESOURCE_COUNT ==> p.need@[r] <= cur[r] + held(done, r)
}

/// Running the processes one after the other in the order of `order`, each
/// one finds enough resources to finish.
pub open spec fn is_safe_order(order: Seq<Data>, cur: Seq<usize>) -> bool {
    forall|k: int| 0 <= k < order.len() ==> #[trigger] can_finish(order[k], cur, order.take(k))
}

/// Some ordering of `procs` lets every process finish: the system is in a safe state.
pub open spec fn is_safe_state(procs: Seq<Data>, cur: Seq<usize>) -> bool {
    exists|order: Seq<Data>|
        #[trigger] order.to_multiset() == procs.to_multiset() && is_safe_order(order, cur)
}

/// `k` is the first position from `c` on whose process can finish once the
/// processes before `c` have.
pub open spec fn is_first_fit(s: Seq<Data>, cur: Seq<usize>, c: int, k: int) -> bool {
    &&& 0 <= c <= k < s.len()
    &&& can_finish(s[k], cur, s.take(c))
    &&& forall|j: int| c <= j < k ==> !can_finish(#[trigger] s[j], cur, s.take(c))
}

/// The arrangement that the first-fit search leaves: from position `c` on, it
/// swaps the first process that can finish into place `c`, and goes on from
/// `c + 1`, until no process left can finish.
pub open spec fn first_fit_arrangement(s: Seq<Data>, cur: Seq<usize>, c: int) -> Seq<Data>
    decreases s.len() - c,
{
    if exists|k: int| is_first_fit(s, cur, c, k) {
        let k = choose|k: int| is_first_fit(s, cur, c, k);
        first_fit_arrangement(s.update(c, s[k]).update(k, s[c]), cur, c + 1)
    } else {
        s
    }
}

/// The processes are in the order of their ids.
pub open spec fn sorted_by_id(s: Seq<Data>) -> bool {
    forall|a: int, b: int| 0 <= a <= b < s.len() ==> s[a].id <= s[b].id
}

/// `out` is how the safety check leaves `procs`: sorted by id, then arranged
/// first fit from `cur`.
pub open spec fn checked_order(procs: Seq<Data>, cur: Seq<usize>, out: Seq<Data>) -> bool {
    exists|sorted: Seq<Data>|
        #[trigger] sorted.to_multiset() == procs.to_multiset() && sorted_by_id(sorted) && out
            == first_fit_arrangement(sorted, cur, 0)
}

proof fn lemma_first_fit_unique(s: Seq<Data>, cur: Seq<usize>, c: int, k: int)
    requires
        is_first_fit(s, cur, c, k),
    ensures
        (choose|i: int| is_first_fit(s, cur, c, i)) == k,
{
    let i = choose|i: int| is_first_fit(s, cur, c, i);
    if i < k {
        assert(!can_finish(s[i], cur, s.take(c)));
    }
    if k < i {
        assert(!can_finish(s[k], cur, s.take(c)));
    }
}

/// `need` is covered by `available`, resource by resource.
pub open spec fn covered(need: Seq<usize>, available: Seq<u128>) -> bool {
    forall|r: int| 0 <= r < RESOURCE_COUNT ==> need[r] <= available[r]
}

pub proof fn lemma_held_nonneg(s: Seq<Data>, r: int)
    ensures
        held(s, r) >= 0,
    decreases s.len(),
{
    if s.len() > 0 {
        lemma_held_nonneg(s.drop_last(), r);
    }
}

/// Each process holds at most `usize::MAX` of a resource.
pub proof fn lemma_held_bound(s: Seq<Data>, r: int)
    requires
        0 <= r < RESOURCE_COUNT,
    ensures
        held(s, r) <= s.len() * usize::MAX,
    decreases s.len(),
{
    if s.len() > 0 {
        lemma_held_bound(s.drop_last(), r);
        assert(held(s, r) <= (s.len() - 1) * usize::MAX + usize::MAX) by (nonlinear_arith)
            requires
                held(s.drop_last(), r) <= s.drop_last().len() * usize::MAX,
                s.drop_last().len() == s.len() - 1,
                held(s, r) == held(s.drop_last(), r) + s.last().allocation@[r],
                s.last().allocation@[r] <= usize::MAX,
        ;
        assert((s.len() - 1) * usize::MAX + usize::MAX == s.len() * usize::MAX) by (nonlinear_arith);
    }
}

pub proof fn lemma_held_append(a: Seq<Data>, b: Seq<Data>, r: int)
    ensures
        held(a + b, r) == held(a, r) + held(b, r),
    decreases b.len(),
{
    if b.len() == 0 {
        assert(a + b =~= a);
    } else {
        assert((a + b).drop_last() =~= a + b.drop_last());
        lemma_held_append(a, b.drop_last(), r);
    }
}

pub proof fn lemma_held_remove(s: Seq<Data>, i: int, r: int)
    requires
        0 <= i < s.len(),
    ensures
        held(s, r) == held(s.remove(i), r) + s[i].allocation@[r],
{
    let a = s.take(i);
    let b = s.skip(i + 1);
    assert(s =~= a + seq![s[i]] + b);
    assert(s.remove(i) =~= a + b);
    lemma_held_append(a + seq![s[i]], b, r);
    lemma_held_append(a, seq![s[i]], r);
    lemma_held_append(a, b, r);
    let one = seq![s[i]];
    assert(one.drop_last() =~= Seq::<Data>::empty());
    assert(held(one.drop_last(), r) == 0);
    assert(one.last() == s[i]);
    assert(held(one, r) == s[i].allocation@[r]);
}

pub proof fn lemma_held_prefix(s: Seq<Data>, k: int, r: int)
    requires
        0 <= k <= s.len(),
    ensures
        held(s.take(k), r) <= held(s, r),
{
    assert(s =~= s.take(k) + s.skip(k));
    lemma_held_append(s.take(k), s.skip(k), r);
    lemma_held_nonneg(s.skip(k), r);
}

/// What a group of processes holds does not exceed what a larger group holds.
pub proof fn lemma_held_sub(a: Seq<Data>, b: Seq<Data>, r: int)
    requires
        a.to_multiset().subset_of(b.to_multiset()),
    ensures
        held(a, r) <= held(b, r),
    decreases a.len(),
{
    if a.len() == 0 {
        lemma_held_nonneg(b, r);
    } else {
        let x = a.last();
        let a2 = a.drop_last();
        assert(a =~= a2.push(x));
        assert(a.to_multiset() =~= a2.to_multiset().insert(x));
        assert(b.to_multiset().count(x) > 0);
        assert(b.contains(x));
        let i = b.index_of(x);
        let b2 = b.remove(i);
        assert(b2.to_multiset() =~= b.to_multiset().remove(x));
        assert(a2.to_multiset().subset_of(b2.to_multiset())) by {
            assert forall|v: Data| a2.to_multiset().count(v) <= b2.to_multiset().count(v) by {
                assert(a.to_multiset().count(v) <= b.to_multiset().count(v));
            }
        }
        lemma_held_sub(a2, b2, r);
        lemma_held_remove(b, i, r);
    }
}

/// Walking along `order`, there is a first position whose process is not
/// accounted for by the multiset `bound`.
proof fn lemma_first_escape(order: Seq<Data>, bound: Multiset<Data>, k: int) -> (m: int)
    requires
        0 <= k <= order.len(),
        order.take(k).to_multiset().subset_of(bound),
        !order.to_multiset().subset_of(bound),
    ensures
        k <= m < order.len(),
        order.take(m).to_multiset().subset_of(bound),
        !order.take(m + 1).to_multiset().subset_of(bound),
    decreases order.len() - k,
{
    if k == order.len() {
        assert(order.take(k) =~= order);
        k
    } else if order.take(k + 1).to_multiset().subset_of(bound) {
        lemma_first_escape(order, bound, k + 1)
    } else {
        k
    }
}

/// If none of the processes left in `rest` can finish with what the processes
/// of `done` released, no ordering of all of them is safe.
pub proof fn lemma_stuck_is_unsafe(done: Seq<Data>, rest: Seq<Data>, cur: Seq<usize>)
    requires
        rest.len() > 0,
        forall|j: int| 0 <= j < rest.len() ==> !can_finish(#[trigger] rest[j], cur, done),
    ensures
        !is_safe_state(done + rest, cur),
{
    if is_safe_state(done + rest, cur) {
        let order = choose|order: Seq<Data>|
            #[trigger] order.to_multiset() == (done + rest).to_multiset() && is_safe_order(
                order,
                cur,
            );
        let dm = done.to_multiset();
        vstd::seq_lib::lemma_multiset_commutative(done, rest);
        assert(order.to_multiset() =~= dm.add(rest.to_multiset()));
        assert(rest.to_multiset().len() > 0);
        let y = rest[0];
        assert(rest.to_multiset().count(y) > 0);
        assert(!order.to_multiset().subset_of(dm)) by {
            assert(order.to_multiset().count(y) > dm.count(y));
        }
        assert(order.take(0) =~= Seq::<Data>::empty());
        let m = lemma_first_escape(order, dm, 0);
        let x = order[m];
        let pre = order.take(m);
        assert(order.take(m + 1) =~= pre.push(x));
        assert(order.take(m + 1).to_multiset() =~= pre.to_multiset().insert(x));
        let v = choose|v: Data| order.take(m + 1).to_multiset().count(v) > dm.count(v);
        assert(v == x);
        // `x` is one of the processes of `rest`
        assert(order =~= order.take(m + 1) + order.skip(m + 1));
        vstd::seq_lib::lemma_multiset_commutative(order.take(m + 1), order.skip(m + 1));
        assert(order.to_multiset().count(x) >= order.take(m + 1).to_multiset().count(x));
        assert(rest.to_multiset().count(x) > 0);
        assert(rest.contains(x));
        let j = rest.index_of(x);
        // and yet it finishes with what `done` released
        assert(can_finish(order[m], cur, pre));
        assert forall|r: int| 0 <= r < RESOURCE_COUNT implies x.need@[r] <= cur[r] + held(
            done,
            r,
        ) by {
            lemma_held_sub(pre, done, r);
        }
        assert(can_finish(rest[j], cur, done));
    }
}

pub(crate) proof fn lemma_swap_multiset<T>(s: Seq<T>, i: int, j: int)
    requires
        0 <= i < s.len(),
        0 <= j < s.len(),
    ensures
        s.update(i, s[j]).update(j, s[i]).to_multiset() == s.to_multiset(),
{
    let s1 = s.update(i, s[j]);
    assert(s1.to_multiset() == s.to_multiset().insert(s[j]).remove(s[i]));
    assert(s1.update(j, s[i]).to_multiset() == s1.to_multiset().insert(s[i]).remove(s1[j]));
    assert(s1[j] == s[j]);
    assert(s1.update(j, s[i]).to_multiset() =~= s.to_multiset());
}

/// `<[T]>::swap` from std: exchanges the elements at positions `i` and `j`.
#[verifier::external_body]
pub(crate) fn swap_entries<T>(s: &mut [T], i: usize, j: usize)
    requires
        i < old(s)@.len(),
        j < old(s)@.len(),
    ensures
        final(s)@ == old(s)@.update(i as int, old(s)@[j as int]).update(j as int, old(s)@[i as int]),
{
    s.swap(i, j)
}

/// Sorts the processes by id.
fn sort_by_id(s: &mut [Data])
    ensures
        final(s)@.to_multiset() == old(s)@.to_multiset(),
        sorted_by_id(final(s)@),
{
    let n = s.len();
    let mut i: usize = 1;
    while i < n
        invariant
            n == s@.len(),
            1 <= i,
            i <= n || n == 0,
            s@.to_multiset() == old(s)@.to_multiset(),
            forall|a: int, b: int| 0 <= a <= b < i && b < n ==> s@[a].id <= s@[b].id,
        decreases n - i,
    {
        let mut j = i;
        while j > 0 && s[j - 1].id > s[j].id
            invariant
                n == s@.len(),
                0 <= j <= i < n,
                s@.to_multiset() == old(s)@.to_multiset(),
                forall|a: int, b: int| 0 <= a <= b <= i && a != j && b != j ==> s@[a].id <= s@[b].id,
                forall|b: int| j < b <= i ==> s@[j as int].id < s@[b].id,
            decreases j,
        {
            proof {
                lemma_swap_multiset(s@, (j - 1) as int, j as int);
            }
            swap_entries(s, j - 1, j);
            j = j - 1;
        }
        i = i + 1;
    }
}

/// Whether `need` is covered by `available`, resource by resource.
fn covers(need: &[usize; RESOURCE_COUNT], available: &[u128; RESOURCE_COUNT]) -> (b: bool)
    ensures
        b == covered(need@, available@),
{
    let mut r: usize = 0;
    while r < RESOURCE_COUNT
        invariant
            r <= RESOURCE_COUNT,
            forall|q: int| 0 <= q < r ==> need@[q] <= available@[q],
        decreases RESOURCE_COUNT - r,
    {
        if need[r] as u128 > available[r] {
            return false;
        }
        r = r + 1;
    }
    true
}

/// Position of the first process from `from` on whose need `available` covers.
fn first_runnable(procs: &[Data], from: usize, available: &[u128; RESOURCE_COUNT]) -> (res:
    Option<usize>)
    requires
        from <= procs@.len(),
    ensures
        match res {
            Some(j) => {
                &&& from <= j < procs@.len()
                &&& covered(procs@[j as int].need@, available@)
                &&& forall|k: int| from <= k < j ==> !covered(#[trigger] procs@[k].need@, available@)
            },
            None => forall|k: int|
                from <= k < procs@.len() ==> !covered(#[trigger] procs@[k].need@, available@),
        },
{
    let n = procs.len();
    let mut j = from;
    while j < n
        invariant
            n == procs@.len(),
            from <= j <= n,
            forall|k: int| from <= k < j ==> !covered(#[trigger] procs@[k].need@, available@),
        decreases n - j,
    {
        if covers(&procs[j].need, available) {
            return Some(j);
        }
        j = j + 1;
    }
    None
}

/// A state is safe or not whatever the order in which its processes are listed.
pub proof fn lemma_safe_state_perm(a: Seq<Data>, b: Seq<Data>, cur: Seq<usize>)
    requires
        a.to_multiset() == b.to_multiset(),
    ensures
        is_safe_state(a, cur) == is_safe_state(b, cur),
{
    if is_safe_state(a, cur) {
        let order = choose|order: Seq<Data>|
            #[trigger] order.to_multiset() == a.to_multiset() && is_safe_order(order, cur);
        assert(order.to_multiset() == b.to_multiset());
    }
    if is_safe_state(b, cur) {
        let order = choose|order: Seq<Data>|
            #[trigger] order.to_multiset() == b.to_multiset() && is_safe_order(order, cur);
        assert(order.to_multiset() == a.to_multiset());
    }
}

/// `b` needs no more than `a` and holds no less, resource by resource.
pub open spec fn needs_less_holds_more(b: Data, a: Data) -> bool {
    &&& forall|r: int| 0 <= r < RESOURCE_COUNT ==> #[trigger] b.need@[r] <= a.need@[r]
    &&& forall|r: int| 0 <= r < RESOURCE_COUNT ==> a.allocation@[r] <= #[trigger] b.allocation@[r]
}

/// Processes that hold no less hold no less together.
proof fn lemma_held_monotone(a: Seq<Data>, b: Seq<Data>, r: int)
    requires
        0 <= r < RESOURCE_COUNT,
        a.len() == b.len(),
        forall|k: int| 0 <= k < a.len() ==> needs_less_holds_more(#[trigger] b[k], a[k]),
    ensures
        held(a, r) <= held(b, r),
    decreases a.len(),
{
    if a.len() > 0 {
        lemma_held_monotone(a.drop_last(), b.drop_last(), r);
        assert(needs_less_holds_more(b[a.len() - 1], a[a.len() - 1]));
    }
}

/// An ordering `o` of `a` carries over to an ordering of `b`, process by
/// process, when each process of `b` needs less and holds more than the one
/// of `a` at the same place.
proof fn lemma_order_carries_over(o: Seq<Data>, a: Seq<Data>, b: Seq<Data>) -> (o2: Seq<Data>)
    requires
        o.to_multiset() == a.to_multiset(),
        a.len() == b.len(),
        forall|k: int| 0 <= k < a.len() ==> needs_less_holds_more(#[trigger] b[k], a[k]),
    ensures
        o2.to_multiset() == b.to_multiset(),
        o2.len() == o.len(),
        forall|k: int| 0 <= k < o.len() ==> needs_less_holds_more(#[trigger] o2[k], o[k]),
    decreases o.len(),
{
    assert(o.to_multiset().len() == o.len() && a.to_multiset().len() == a.len());
    if o.len() == 0 {
        assert(b.len() == 0);
        assert(b =~= Seq::<Data>::empty());
        o
    } else {
        let x = o.last();
        let o1 = o.drop_last();
        assert(o =~= o1.push(x));
        assert(a.to_multiset().count(x) > 0);
        assert(a.contains(x));
        let i = a.index_of(x);
        let a1 = a.remove(i);
        let b1 = b.remove(i);
        assert(o1.to_multiset() =~= a1.to_multiset()) by {
            assert(o.to_multiset() == o1.to_multiset().insert(x));
            assert(a1.to_multiset() == a.to_multiset().remove(x));
        }
        assert forall|k: int| 0 <= k < a1.len() implies needs_less_holds_more(#[trigger] b1[k], a1[k]) by {
            if k < i {
                assert(needs_less_holds_more(b[k], a[k]));
            } else {
                assert(needs_less_holds_more(b[k + 1], a[k + 1]));
            }
        }
        let o3 = lemma_order_carries_over(o1, a1, b1);
        let o2 = o3.push(b[i]);
        assert(b1.to_multiset() == b.to_multiset().remove(b[i]));
        assert(b.to_multiset().count(b[i]) > 0);
        assert(o2.to_multiset() =~= b.to_multiset()) by {
            assert(o2.to_multiset() == o3.to_multiset().insert(b[i]));
        }
        assert forall|k: int| 0 <= k < o.len() implies needs_less_holds_more(#[trigger] o2[k], o[k]) by {
            if k < o.len() - 1 {
                assert(o2[k] == o3[k] && o[k] == o1[k]);
            } else {
                assert(needs_less_holds_more(b[i], a[i]));
            }
        }
        o2
    }
}

/// Needing less, or holding more and so releasing more on completion, never
/// makes a safe state unsafe.
pub proof fn lemma_less_need_stays_safe(a: Seq<Data>, b: Seq<Data>, cur: Seq<usize>)
    requires
        a.len() == b.len(),
        forall|k: int| 0 <= k < a.len() ==> needs_less_holds_more(#[trigger] b[k], a[k]),
        is_safe_state(a, cur),
    ensures
        is_safe_state(b, cur),
{
    let o = choose|order: Seq<Data>|
        #[trigger] order.to_multiset() == a.to_multiset() && is_safe_order(order, cur);
    let o2 = lemma_order_carries_over(o, a, b);
    assert forall|k: int| 0 <= k < o2.len() implies #[trigger] can_finish(o2[k], cur, o2.take(k)) by {
        assert(can_finish(o[k], cur, o.take(k)));
        assert forall|r: int| 0 <= r < RESOURCE_COUNT implies o2[k].need@[r] <= cur[r] + held(
            o2.take(k),
            r,
        ) by {
            assert(needs_less_holds_more(o2[k], o[k]));
            assert forall|q: int| 0 <= q < k implies needs_less_holds_more(
                #[trigger] o2.take(k)[q],
                o.take(k)[q],
            ) by {
                assert(needs_less_holds_more(o2[q], o[q]));
            }
            lemma_held_monotone(o.take(k), o2.take(k), r);
        }
    }
    assert(is_safe_order(o2, cur));
}

/// What a group holds of a resource is the sum of the allocations of its processes.
pub proof fn lemma_held_is_sum(s: Seq<Data>, r: int)
    ensures
        held(s, r) == s.fold_left(0int, |acc: int, d: Data| acc + d.allocation@[r]),
    decreases s.len(),
{
    if s.len() > 0 {
        lemma_held_is_sum(s.drop_last(), r);
    }
}

/// An order is safe exactly when each process needs, of every resource, no
/// more than `cur` plus the sum of what the processes before it hold.
pub proof fn lemma_safe_order_meaning(o: Seq<Data>, cur: Seq<usize>)
    ensures
        is_safe_order(o, cur) <==> forall|k: int, r: int|
            0 <= k < o.len() && 0 <= r < RESOURCE_COUNT ==> #[trigger] o[k].need@[r] <= cur[r]
                + o.take(k).fold_left(0int, |acc: int, d: Data| acc + d.allocation@[r]),
{
    assert forall|k: int, r: int| 0 <= k < o.len() && 0 <= r < RESOURCE_COUNT implies #[trigger] held(
        o.take(k),
        r,
    ) == o.take(k).fold_left(0int, |acc: int, d: Data| acc + d.allocation@[r]) by {
        lemma_held_is_sum(o.take(k), r);
    }
    if is_safe_order(o, cur) {
        assert forall|k: int, r: int|
            0 <= k < o.len() && 0 <= r < RESOURCE_COUNT implies #[trigger] o[k].need@[r] <= cur[r]
                + o.take(k).fold_left(0int, |acc: int, d: Data| acc + d.allocation@[r]) by {
            assert(can_finish(o[k], cur, o.take(k)));
        }
    }
    if forall|k: int, r: int|
        0 <= k < o.len() && 0 <= r < RESOURCE_COUNT ==> #[trigger] o[k].need@[r] <= cur[r]
            + o.take(k).fold_left(0int, |acc: int, d: Data| acc + d.allocation@[r]) {
        assert forall|k: int| 0 <= k < o.len() implies #[trigger] can_finish(o[k], cur, o.take(k)) by {
            assert forall|r: int| 0 <= r < RESOURCE_COUNT implies o[k].need@[r] <= cur[r] + held(
                o.take(k),
                r,
            ) by {
                assert(o[k].need@[r] <= cur[r] + o.take(k).fold_left(
                    0int,
                    |acc: int, d: Data| acc + d.allocation@[r],
                ));
            }
        }
    }
}

/// The Banker's safety check: `cur` is what is available now, `input` the
/// processes that hold and still need resources.
///
/// Returns whether some order lets every process run to completion. The
/// processes are rearranged; when the state is safe they end up in such an order.
pub fn check_safety(input: &mut [Data], cur: &[usize; RESOURCE_COUNT]) -> (safe: bool)
    ensures
        final(input)@.to_multiset() == old(input)@.to_multiset(),
        safe == is_safe_state(old(input)@, cur@),
        safe ==> is_safe_order(final(input)@, cur@),
        !safe ==> exists|c: int|
            0 <= c < final(input)@.len() && is_safe_order(final(input)@.take(c), cur@) && forall|j: int|
                c <= j < final(input)@.len() ==> !can_finish(
                    #[trigger] final(input)@[j],
                    cur@,
                    final(input)@.take(c),
                ),
        checked_order(old(input)@, cur@, final(input)@),
{
    // Counted in `u128`: what all the processes hold together may exceed `usize`.
    let mut available: [u128; RESOURCE_COUNT] = [0, 0, 0, 0, 0, 0];
    let mut r: usize = 0;
    while r < RESOURCE_COUNT
        invariant
            r <= RESOURCE_COUNT,
            forall|q: int| 0 <= q < r ==> available@[q] == cur@[q],
        decreases RESOURCE_COUNT - r,
    {
        available[r] = cur[r] as u128;
        r = r + 1;
    }
    let mut complete: usize = 0;

    sort_by_id(input);
    let ghost sorted = input@;
    let n = input.len();

    loop
        invariant
            n == input@.len(),
            complete <= n,
            input@.to_multiset() == old(input)@.to_multiset(),
            sorted.to_multiset() == old(input)@.to_multiset(),
            sorted_by_id(sorted),
            first_fit_arrangement(input@, cur@, complete as int) == first_fit_arrangement(
                sorted,
                cur@,
                0,
            ),
            forall|k: int|
                0 <= k < complete ==> #[trigger] can_finish(input@[k], cur@, input@.take(k)),
            forall|r: int|
                0 <= r < RESOURCE_COUNT ==> available@[r] == cur@[r] + held(
                    input@.take(complete as int),
                    r,
                ),
        ensures
            forall|k: int| complete <= k < n ==> !covered(#[trigger] input@[k].need@, available@),
        decreases n - complete,
    {
        match first_runnable(input, complete, &available) {
            None => {
                break ;
            },
            Some(j) => {
                let ghost before = input@;
                proof {
                    lemma_swap_multiset(input@, complete as int, j as int);
                    let c = complete as int;
                    assert forall|i: int| c <= i < j implies !can_finish(
                        #[trigger] before[i],
                        cur@,
                        before.take(c),
                    ) by {
                        assert(!covered(before[i].need@, available@));
                    }
                    assert(covered(before[j as int].need@, available@));
                    assert(is_first_fit(before, cur@, c, j as int));
                    lemma_first_fit_unique(before, cur@, c, j as int);
                }
                swap_entries(input, complete, j);
                let ghost after = input@;
                assert(after.take(complete as int) =~= before.take(complete as int));
                assert(after.take(complete + 1) =~= before.take(complete as int).push(before[j as int]));
                assert forall|k: int| 0 <= k <= complete implies #[trigger] after.take(k) =~= before.take(k) by {
                }
                let ghost avail0 = available@;
                let mut r: usize = 0;
                while r < RESOURCE_COUNT
                    invariant
                        r <= RESOURCE_COUNT,
                        n == input@.len(),
                        complete < n,
                        input@ == after,
                        after.to_multiset() == old(input)@.to_multiset(),
                        forall|q: int| 0 <= q < RESOURCE_COUNT ==> avail0[q] == cur@[q] + held(after.take(complete as int), q),
                        forall|q: int| 0 <= q < r ==> available@[q] == avail0[q] + after[complete as int].allocation@[q],
                        forall|q: int| r <= q < RESOURCE_COUNT ==> available@[q] == avail0[q],
                    decreases RESOURCE_COUNT - r,
                {
                    proof {
                        let ri = r as int;
                        assert(after.take(complete + 1).drop_last() =~= after.take(complete as int));
                        assert(after.take(complete + 1).last() == after[complete as int]);
                        lemma_held_bound(after, ri);
                        let len = after.len();
                        assert(len <= usize::MAX);
                        assert(cur@[ri] + held(after, ri) <= u128::MAX) by (nonlinear_arith)
                            requires
                                held(after, ri) <= len * usize::MAX,
                                len <= usize::MAX,
                                cur@[ri] <= usize::MAX,
                        ;
                        assert(held(after.take(complete + 1), ri) == held(after.take(complete as int), ri) + after[complete as int].allocation@[ri]);
                        assert(available@[ri] == avail0[ri]);
                        assert(avail0[ri] == cur@[ri] + held(after.take(complete as int), ri));
                        assert(input@[complete as int] == after[complete as int]);
                        lemma_held_prefix(after, complete + 1, ri);
                    }
                    available[r] = available[r] + input[complete].allocation[r] as u128;
                    r = r + 1;
                }
                assert forall|q: int| 0 <= q < RESOURCE_COUNT implies available@[q] == cur@[q] + held(after.take(complete + 1), q) by {
                    assert(after.take(complete + 1).drop_last() =~= after.take(complete as int));
                    assert(after.take(complete + 1).last() == after[complete as int]);
                }
                assert(can_finish(after[complete as int], cur@, after.take(complete as int)));
                complete = complete + 1;
            },
        }
    }

    proof {
        let s = input@;
        let done = s.take(complete as int);
        let c = complete as int;
        assert forall|k: int| c <= k < n implies !(#[trigger] is_first_fit(s, cur@, c, k)) by {
            assert(!covered(s[k].need@, available@));
        }
        assert(first_fit_arrangement(s, cur@, c) == s);
        assert(checked_order(old(input)@, cur@, s));
        if complete == n {
            assert(s.take(n as int) =~= s);
            assert(is_safe_order(s, cur@));
            assert(is_safe_state(s, cur@));
        } else {
            let rest = s.skip(complete as int);
            assert(s =~= done + rest);
            assert forall|j: int| 0 <= j < rest.len() implies !can_finish(#[trigger] rest[j], cur@, done) by {
                assert(!covered(s[complete + j].need@, available@));
            }
            lemma_stuck_is_unsafe(done, rest, cur@);
            assert forall|k: int| 0 <= k < c implies #[trigger] can_finish(done[k], cur@, done.take(k)) by {
                assert(done.take(k) =~= s.take(k));
                assert(can_finish(s[k], cur@, s.take(k)));
            }
            assert forall|j: int| c <= j < n implies !can_finish(#[trigger] s[j], cur@, done) by {
                assert(rest[j - c] == s[j]);
            }
        }
        lemma_safe_state_perm(s, old(input)@, cur@);
    }
    complete == n
}

} // verus!
