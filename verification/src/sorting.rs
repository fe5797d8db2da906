//! Sorting the rows of the table by one of its resource columns.

use vstd::prelude::*;

use crate::algo::{lemma_swap_multiset, swap_entries};
use crate::form::{is_digit, lemma_decimal_parses, parse_usize, spec_parse_usize, unsigned_digits};
use crate::table::{Data, RESOURCE_COUNT, Table, decimal};

verus! {

broadcast use vstd::seq_lib::group_to_multiset_ensures;

/// How the user asked a column to be sorted.
#[derive(Debug, Clone, Copy, PartialEq, Eq, Structural)]
pub enum ColumnSort {
    /// Back to the order of the ids.
    Default,
    Ascending,
    Descending,
}

/// The groups of resource columns.
#[derive(Debug, Clone, Copy, PartialEq, Eq, Structural)]
pub enum ResourceColumn {
    Allocation,
    Max,
    Need,
}

/// `s` starts with `p`.
pub open spec fn has_prefix(s: Seq<char>, p: Seq<char>) -> bool {
    p.len() <= s.len() && s.take(p.len() as int) == p
}

/// `s` with every leading repetition of `p` removed, as `str::trim_start_matches` does.
pub open spec fn strip_all(s: Seq<char>, p: Seq<char>) -> Seq<char>
    decreases s.len(),
{
    if p.len() > 0 && has_prefix(s, p) {
        strip_all(s.skip(p.len() as int), p)
    } else {
        s
    }
}

/// The column group that a column key names, and the resource index that
/// follows its prefix, if that parses.
pub open spec fn sort_target(key: Seq<char>) -> Option<(ResourceColumn, Option<usize>)> {
    if has_prefix(key, "allocation"@) {
        Some((ResourceColumn::Allocation, spec_parse_usize(strip_all(key, "allocation_"@))))
    } else if has_prefix(key, "max"@) {
        Some((ResourceColumn::Max, spec_parse_usize(strip_all(key, "max_"@))))
    } else if has_prefix(key, "need"@) {
        Some((ResourceColumn::Need, spec_parse_usize(strip_all(key, "need_"@))))
    } else {
        None
    }
}

/// The value that the column `(column, idx)` shows for `d`.
pub open spec fn column_value(d: Data, column: ResourceColumn, idx: int) -> int {
    match column {
        ResourceColumn::Allocation => d.allocation@[idx] as int,
        ResourceColumn::Max => d.max@[idx] as int,
        ResourceColumn::Need => d.need@[idx] as int,
    }
}

/// What the rows are ordered by: the id for the default order, the column's
/// value otherwise, negated when descending.
pub open spec fn sort_rank(d: Data, column: ResourceColumn, idx: int, sort: ColumnSort) -> int {
    match sort {
        ColumnSort::Default => d.id as int,
        ColumnSort::Ascending => column_value(d, column, idx),
        ColumnSort::Descending => -column_value(d, column, idx),
    }
}

/// `new` holds the rows of `old`, the `i`th being `old[perm[i]]`.
pub open spec fn rearranged(old: Seq<Data>, new: Seq<Data>, perm: Seq<int>) -> bool {
    &&& new.len() == old.len()
    &&& perm.len() == old.len()
    &&& forall|i: int| 0 <= i < perm.len() ==> 0 <= #[trigger] perm[i] < old.len()
    &&& forall|i: int, j: int| 0 <= i < j < perm.len() ==> perm[i] != perm[j]
    &&& forall|i: int| 0 <= i < new.len() ==> #[trigger] new[i] == old[perm[i]]
}

/// The rows of `new` are in the order of the ranks; among rows of equal
/// rank, `perm` keeps their former order when `stable` holds.
pub open spec fn sorted_rows(
    new: Seq<Data>,
    perm: Seq<int>,
    column: ResourceColumn,
    idx: int,
    sort: ColumnSort,
    stable: bool,
) -> bool {
    &&& forall|i: int, j: int|
        0 <= i < j < new.len() ==> sort_rank(new[i], column, idx, sort) <= sort_rank(
            new[j],
            column,
            idx,
            sort,
        )
    &&& stable ==> forall|i: int, j: int|
        0 <= i < j < new.len() && sort_rank(new[i], column, idx, sort) == sort_rank(
            new[j],
            column,
            idx,
            sort,
        ) ==> perm[i] < perm[j]
}

/// Whether `s` starts with `p`.
fn starts_with(s: &str, p: &str) -> (b: bool)
    ensures
        b == has_prefix(s@, p@),
{
    let n = s.unicode_len();
    let m = p.unicode_len();
    if m > n {
        return false;
    }
    let mut i: usize = 0;
    while i < m
        invariant
            m == p@.len(),
            n == s@.len(),
            m <= n,
            i <= m,
            forall|k: int| 0 <= k < i ==> s@[k] == p@[k],
        decreases m - i,
    {
        if s.get_char(i) != p.get_char(i) {
            assert(s@.take(m as int)[i as int] != p@[i as int]);
            return false;
        }
        i = i + 1;
    }
    assert(s@.take(m as int) =~= p@);
    true
}

/// `s` with every leading repetition of `p` removed.
fn trim_start<'a>(s: &'a str, p: &str) -> (r: &'a str)
    ensures
        r@ == strip_all(s@, p@),
{
    let m = p.unicode_len();
    let mut rest = s;
    while m > 0 && starts_with(rest, p)
        invariant
            m == p@.len(),
            strip_all(s@, p@) == strip_all(rest@, p@),
        decreases rest@.len(),
    {
        let n = rest.unicode_len();
        let next = rest.substring_char(m, n);
        assert(next@ =~= rest@.skip(m as int));
        rest = next;
    }
    rest
}

/// The value that the column `(column, idx)` shows for `d`.
fn value_of(d: &Data, column: ResourceColumn, idx: usize) -> (v: usize)
    requires
        idx < RESOURCE_COUNT,
    ensures
        v == column_value(*d, column, idx as int),
{
    match column {
        ResourceColumn::Allocation => d.allocation[idx],
        ResourceColumn::Max => d.max[idx],
        ResourceColumn::Need => d.need[idx],
    }
}

/// Whether `a` ranks after `b`.
fn ranks_after(a: &Data, b: &Data, column: ResourceColumn, idx: usize, sort: ColumnSort) -> (res:
    bool)
    requires
        idx < RESOURCE_COUNT || sort == ColumnSort::Default,
    ensures
        res == (sort_rank(*a, column, idx as int, sort) > sort_rank(*b, column, idx as int, sort)),
{
    match sort {
        ColumnSort::Default => a.id > b.id,
        ColumnSort::Ascending => value_of(a, column, idx) > value_of(b, column, idx),
        ColumnSort::Descending => value_of(a, column, idx) < value_of(b, column, idx),
    }
}

/// Insertion sort of the rows by rank; it keeps rows of equal rank in their order.
fn sort_rows(s: &mut [Data], column: ResourceColumn, idx: usize, sort: ColumnSort) -> (perm: Ghost<
    Seq<int>,
>)
    requires
        idx < RESOURCE_COUNT || sort == ColumnSort::Default || old(s)@.len() < 2,
    ensures
        rearranged(old(s)@, final(s)@, perm@),
        final(s)@.to_multiset() == old(s)@.to_multiset(),
        sorted_rows(final(s)@, perm@, column, idx as int, sort, true),
{
    let ghost orig = s@;
    let n = s.len();
    let ghost mut perm = Seq::new(n as nat, |i: int| i);
    let mut i: usize = 1;
    while i < n
        invariant
            n == s@.len(),
            n == orig.len(),
            1 <= i,
            idx < RESOURCE_COUNT || sort == ColumnSort::Default || n < 2,
            rearranged(orig, s@, perm),
            s@.to_multiset() == orig.to_multiset(),
            forall|a: int, b: int|
                0 <= a < b < i && b < n ==> sort_rank(s@[a], column, idx as int, sort) <= sort_rank(
                    s@[b],
                    column,
                    idx as int,
                    sort,
                ),
            forall|a: int, b: int|
                0 <= a < b < n && sort_rank(s@[a], column, idx as int, sort) == sort_rank(
                    s@[b],
                    column,
                    idx as int,
                    sort,
                ) ==> perm[a] < perm[b],
        decreases n - i,
    {
        let mut j = i;
        while j > 0 && ranks_after(&s[j - 1], &s[j], column, idx, sort)
            invariant
                n == s@.len(),
                n == orig.len(),
                0 <= j <= i < n,
                idx < RESOURCE_COUNT || sort == ColumnSort::Default,
                rearranged(orig, s@, perm),
                s@.to_multiset() == orig.to_multiset(),
                forall|a: int, b: int|
                    0 <= a < b <= i && a != j && b != j ==> sort_rank(
                        s@[a],
                        column,
                        idx as int,
                        sort,
                    ) <= sort_rank(s@[b], column, idx as int, sort),
                forall|b: int|
                    j < b <= i ==> sort_rank(s@[j as int], column, idx as int, sort) < sort_rank(
                        s@[b],
                        column,
                        idx as int,
                        sort,
                    ),
                forall|a: int, b: int|
                    0 <= a < b < n && sort_rank(s@[a], column, idx as int, sort) == sort_rank(
                        s@[b],
                        column,
                        idx as int,
                        sort,
                    ) ==> perm[a] < perm[b],
            decreases j,
        {
            let ghost before = s@;
            proof {
                lemma_swap_multiset(s@, (j - 1) as int, j as int);
            }
            swap_entries(s, j - 1, j);
            proof {
                let p0 = perm;
                perm = p0.update((j - 1) as int, p0[j as int]).update(j as int, p0[(j - 1) as int]);
                assert forall|a: int, b: int|
                    0 <= a < b < n && sort_rank(s@[a], column, idx as int, sort) == sort_rank(
                        s@[b],
                        column,
                        idx as int,
                        sort,
                    ) implies perm[a] < perm[b] by {
                    let fa = if a == j - 1 {
                        j as int
                    } else if a == j {
                        j - 1
                    } else {
                        a
                    };
                    let fb = if b == j - 1 {
                        j as int
                    } else if b == j {
                        j - 1
                    } else {
                        b
                    };
                    assert(s@[a] == before[fa]);
                    assert(s@[b] == before[fb]);
                    if fa < fb {
                        assert(p0[fa] < p0[fb]);
                    } else {
                        assert(fb < fa);
                        assert(a == j - 1 && b == j);
                    }
                }
            }
            j = j - 1;
        }
        i = i + 1;
    }
    Ghost(perm)
}

/// A column key made of a group's name, `_` and a resource index in decimal,
/// as the keys of the table's columns are, names that group and that index.
pub proof fn lemma_column_key_names_column(idx: usize)
    ensures
        sort_target("allocation_"@ + decimal(idx as nat)) == Some(
            (ResourceColumn::Allocation, Some(idx)),
        ),
        sort_target("max_"@ + decimal(idx as nat)) == Some((ResourceColumn::Max, Some(idx))),
        sort_target("need_"@ + decimal(idx as nat)) == Some((ResourceColumn::Need, Some(idx))),
{
    reveal_strlit("allocation");
    reveal_strlit("allocation_");
    reveal_strlit("max");
    reveal_strlit("max_");
    reveal_strlit("need");
    reveal_strlit("need_");
    let d = decimal(idx as nat);
    lemma_decimal_parses(idx as nat);
    assert(is_digit(d[0]));
    assert(unsigned_digits(d) == d);
    assert(spec_parse_usize(d) == Some(idx));
    let ka = "allocation_"@ + d;
    let km = "max_"@ + d;
    let kn = "need_"@ + d;
    assert(has_prefix(ka, "allocation"@)) by {
        assert(ka.take(10) =~= "allocation"@);
    }
    assert(ka.skip(11) =~= d);
    assert(has_prefix(ka, "allocation_"@)) by {
        assert(ka.take(11) =~= "allocation_"@);
    }
    assert(!has_prefix(d, "allocation_"@)) by {
        if has_prefix(d, "allocation_"@) {
            assert(d.take(11)[0] == 'a');
        }
    }
    assert(strip_all(d, "allocation_"@) == d);
    assert(strip_all(ka, "allocation_"@) == d);
    assert(!has_prefix(km, "allocation"@)) by {
        if has_prefix(km, "allocation"@) {
            assert(km.take(10)[0] == 'a');
        }
    }
    assert(has_prefix(km, "max"@)) by {
        assert(km.take(3) =~= "max"@);
    }
    assert(has_prefix(km, "max_"@)) by {
        assert(km.take(4) =~= "max_"@);
    }
    assert(km.skip(4) =~= d);
    assert(!has_prefix(d, "max_"@)) by {
        if has_prefix(d, "max_"@) {
            assert(d.take(4)[0] == 'm');
        }
    }
    assert(strip_all(d, "max_"@) == d);
    assert(strip_all(km, "max_"@) == d);
    assert(!has_prefix(kn, "allocation"@)) by {
        if has_prefix(kn, "allocation"@) {
            assert(kn.take(10)[0] == 'a');
        }
    }
    assert(!has_prefix(kn, "max"@)) by {
        if has_prefix(kn, "max"@) {
            assert(kn.take(3)[0] == 'm');
        }
    }
    assert(has_prefix(kn, "need"@)) by {
        assert(kn.take(4) =~= "need"@);
    }
    assert(has_prefix(kn, "need_"@)) by {
        assert(kn.take(5) =~= "need_"@);
    }
    assert(kn.skip(5) =~= d);
    assert(!has_prefix(d, "need_"@)) by {
        if has_prefix(d, "need_"@) {
            assert(d.take(5)[0] == 'n');
        }
    }
    assert(strip_all(d, "need_"@) == d);
    assert(strip_all(kn, "need_"@) == d);
}

/// Reads a column key: the column group it names, and the resource index
/// after its prefix if that parses.
pub fn parse_column_key(key: &str) -> (res: Option<(ResourceColumn, Option<usize>)>)
    ensures
        res == sort_target(key@),
{
    let column;
    let rest;
    if starts_with(key, "allocation") {
        column = ResourceColumn::Allocation;
        rest = trim_start(key, "allocation_");
    } else if starts_with(key, "max") {
        column = ResourceColumn::Max;
        rest = trim_start(key, "max_");
    } else if starts_with(key, "need") {
        column = ResourceColumn::Need;
        rest = trim_start(key, "need_");
    } else {
        return None;
    }
    Some((column, parse_usize(rest)))
}

/// Rows in rank order are in the order of the sorted field itself: by id for
/// the default order, and by the allocation, maximum claim or need of the
/// chosen resource, rising when ascending and falling when descending.
pub proof fn lemma_rank_order_is_field_order(
    rows: Seq<Data>,
    perm: Seq<int>,
    column: ResourceColumn,
    idx: int,
    sort: ColumnSort,
    stable: bool,
)
    requires
        sorted_rows(rows, perm, column, idx, sort, stable),
    ensures
        sort == ColumnSort::Default ==> forall|i: int, j: int|
            0 <= i < j < rows.len() ==> rows[i].id <= rows[j].id,
        column == ResourceColumn::Allocation && sort == ColumnSort::Ascending ==> forall|i: int, j: int|
            0 <= i < j < rows.len() ==> rows[i].allocation@[idx] <= rows[j].allocation@[idx],
        column == ResourceColumn::Allocation && sort == ColumnSort::Descending ==> forall|i: int, j: int|
            0 <= i < j < rows.len() ==> rows[i].allocation@[idx] >= rows[j].allocation@[idx],
        column == ResourceColumn::Max && sort == ColumnSort::Ascending ==> forall|i: int, j: int|
            0 <= i < j < rows.len() ==> rows[i].max@[idx] <= rows[j].max@[idx],
        column == ResourceColumn::Max && sort == ColumnSort::Descending ==> forall|i: int, j: int|
            0 <= i < j < rows.len() ==> rows[i].max@[idx] >= rows[j].max@[idx],
        column == ResourceColumn::Need && sort == ColumnSort::Ascending ==> forall|i: int, j: int|
            0 <= i < j < rows.len() ==> rows[i].need@[idx] <= rows[j].need@[idx],
        column == ResourceColumn::Need && sort == ColumnSort::Descending ==> forall|i: int, j: int|
            0 <= i < j < rows.len() ==> rows[i].need@[idx] >= rows[j].need@[idx],
{
    assert forall|i: int, j: int| 0 <= i < j < rows.len() implies sort_rank(
        rows[i],
        column,
        idx,
        sort,
    ) <= sort_rank(rows[j], column, idx, sort) by {}
}

impl Table {
    /// Sorts the rows by the column whose key is `key`: by the ids for the
    /// default order, by the column's values otherwise, keeping the order of
    /// equal rows. A key that names no resource column leaves the rows as they are.
    pub fn perform_sort(&mut self, key: &str, sort: ColumnSort)
        requires
            match sort_target(key@) {
                None => true,
                Some((_, None)) => false,
                Some((_, Some(idx))) => idx < RESOURCE_COUNT || sort == ColumnSort::Default
                    || old(self).data@.len() < 2,
            },
        ensures
            match sort_target(key@) {
                Some((column, Some(idx))) => {
                    &&& final(self).data@.to_multiset() == old(self).data@.to_multiset()
                    &&& exists|perm: Seq<int>|
                        rearranged(old(self).data@, final(self).data@, perm) && sorted_rows(
                            final(self).data@,
                            perm,
                            column,
                            idx as int,
                            sort,
                            sort != ColumnSort::Default,
                        )
                    &&& sort == ColumnSort::Default ==> forall|i: int, j: int|
                        0 <= i < j < final(self).data@.len() ==> final(self).data@[i].id
                            <= final(self).data@[j].id
                    &&& column == ResourceColumn::Allocation && sort == ColumnSort::Ascending
                        ==> forall|i: int, j: int|
                        0 <= i < j < final(self).data@.len() ==> final(self).data@[i].allocation@[idx as int]
                            <= final(self).data@[j].allocation@[idx as int]
                    &&& column == ResourceColumn::Allocation && sort == ColumnSort::Descending
                        ==> forall|i: int, j: int|
                        0 <= i < j < final(self).data@.len() ==> final(self).data@[i].allocation@[idx as int]
                            >= final(self).data@[j].allocation@[idx as int]
                    &&& column == ResourceColumn::Max && sort == ColumnSort::Ascending ==> forall|
                        i: int,
                        j: int,
                    |
                        0 <= i < j < final(self).data@.len() ==> final(self).data@[i].max@[idx as int]
                            <= final(self).data@[j].max@[idx as int]
                    &&& column == ResourceColumn::Max && sort == ColumnSort::Descending ==> forall|
                        i: int,
                        j: int,
                    |
                        0 <= i < j < final(self).data@.len() ==> final(self).data@[i].max@[idx as int]
                            >= final(self).data@[j].max@[idx as int]
                    &&& column == ResourceColumn::Need && sort == ColumnSort::Ascending ==> forall|
                        i: int,
                        j: int,
                    |
                        0 <= i < j < final(self).data@.len() ==> final(self).data@[i].need@[idx as int]
                            <= final(self).data@[j].need@[idx as int]
                    &&& column == ResourceColumn::Need && sort == ColumnSort::Descending ==> forall|
                        i: int,
                        j: int,
                    |
                        0 <= i < j < final(self).data@.len() ==> final(self).data@[i].need@[idx as int]
                            >= final(self).data@[j].need@[idx as int]
                    &&& final(self).global_available == old(self).global_available
                    &&& final(self).total_resources == old(self).total_resources
                    &&& final(self).finished_count == old(self).finished_count
                    &&& final(self).safe_sequence == old(self).safe_sequence
                },
                _ => *final(self) == *old(self),
            },
    {
        let (column, idx) = match parse_column_key(key) {
            Some((column, Some(idx))) => (column, idx),
            _ => {
                return ;
            },
        };
        let Ghost(perm) = sort_rows(self.data.as_mut_slice(), column, idx, sort);
        assert(rearranged(old(self).data@, self.data@, perm));
        proof {
            lemma_rank_order_is_field_order(self.data@, perm, column, idx as int, sort, true);
        }
    }
}

} // verus!
