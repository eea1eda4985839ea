//! The frequency tabulator: partition the physical codes into null-aware
//! groups of equal code in first-occurrence order, take each group's
//! representative code and population count, and sort descending by count
//! with a stable sort, so ties keep first-occurrence order.

use vstd::prelude::*;

use crate::column::CategoricalChunked;
use crate::CategoricalError;

verus! {

/// One representative per group of equal codes, in first-occurrence order.
pub open spec fn first_reps(s: Seq<Option<u32>>) -> Seq<Option<u32>>
    decreases s.len(),
{
    if s.len() == 0 {
        Seq::empty()
    } else {
        let pre = first_reps(s.drop_last());
        if pre.contains(s.last()) {
            pre
        } else {
            pre.push(s.last())
        }
    }
}

/// How often `x` occurs in `s`.
pub open spec fn count_of(s: Seq<Option<u32>>, x: Option<u32>) -> int {
    s.filter(|y: Option<u32>| y == x).len() as int
}

/// The groups of `s`: each first-occurrence representative paired with its
/// population count.
pub open spec fn grouped_pairs(s: Seq<Option<u32>>) -> Seq<(Option<u32>, usize)> {
    Seq::new(
        first_reps(s).len(),
        |i: int| (first_reps(s)[i], count_of(s, first_reps(s)[i]) as usize),
    )
}

/// Stable descending insertion by count: `x` goes after every entry whose
/// count is at least as large, before every entry whose count is smaller.
pub open spec fn insert_desc(
    s: Seq<(Option<u32>, usize)>,
    x: (Option<u32>, usize),
) -> Seq<(Option<u32>, usize)>
    decreases s.len(),
{
    if s.len() == 0 {
        seq![x]
    } else if x.1 > s.last().1 {
        insert_desc(s.drop_last(), x).push(s.last())
    } else {
        s.push(x)
    }
}

/// Stable descending insertion sort by count.
pub open spec fn sort_desc(s: Seq<(Option<u32>, usize)>) -> Seq<(Option<u32>, usize)>
    decreases s.len(),
{
    if s.len() == 0 {
        Seq::empty()
    } else {
        insert_desc(sort_desc(s.drop_last()), s.last())
    }
}

/// Counts never increase along the sequence.
pub open spec fn sorted_desc(s: Seq<(Option<u32>, usize)>) -> bool {
    forall|i: int, j: int| 0 <= i < j < s.len() ==> s[i].1 >= s[j].1
}

/// How one appended entry changes each occurrence count.
pub proof fn lemma_count_of_push(s: Seq<Option<u32>>, x: Option<u32>, y: Option<u32>)
    ensures
        count_of(s.push(x), y) == count_of(s, y) + if x == y {
            1int
        } else {
            0int
        },
{
    let pred = |z: Option<u32>| z == y;
    assert(s.push(x) == s + seq![x]);
    Seq::filter_distributes_over_add(s, seq![x], pred);
    reveal_with_fuel(Seq::filter, 2);
    assert(seq![x].drop_last() == Seq::<Option<u32>>::empty());
}

/// An entry that never occurs counts zero.
pub proof fn lemma_count_of_zero(s: Seq<Option<u32>>, x: Option<u32>)
    requires
        !s.contains(x),
    ensures
        count_of(s, x) == 0,
    decreases s.len(),
{
    if s.len() == 0 {
        reveal_with_fuel(Seq::filter, 1);
    } else {
        let pre = s.drop_last();
        assert(s =~= pre.push(s.last()));
        assert(!pre.contains(x)) by {
            if pre.contains(x) {
                let i = choose|i: int| 0 <= i < pre.len() && pre[i] == x;
                assert(s[i] == x);
            }
        }
        assert(s.last() != x) by {
            assert(s[s.len() - 1] == s.last());
        }
        lemma_count_of_zero(pre, x);
        lemma_count_of_push(pre, s.last(), x);
    }
}

/// A count is at most the sequence's length.
pub proof fn lemma_count_of_bound(s: Seq<Option<u32>>, y: Option<u32>)
    ensures
        0 <= count_of(s, y) <= s.len(),
{
    s.lemma_filter_len(|z: Option<u32>| z == y);
}

/// The representatives are exactly the occurring entries, each once.
pub proof fn lemma_first_reps_props(s: Seq<Option<u32>>)
    ensures
        forall|x: Option<u32>| first_reps(s).contains(x) <==> s.contains(x),
        first_reps(s).no_duplicates(),
    decreases s.len(),
{
    if s.len() == 0 {
    } else {
        let pre = s.drop_last();
        lemma_first_reps_props(pre);
        assert(s =~= pre.push(s.last()));
        assert forall|x: Option<u32>| first_reps(s).contains(x) implies s.contains(x) by {
            if first_reps(pre).contains(x) {
                crate::codes::lemma_push_contains(pre, s.last(), x);
            } else {
                crate::codes::lemma_push_contains(first_reps(pre), s.last(), x);
                crate::codes::lemma_push_contains(pre, s.last(), x);
            }
        }
        assert forall|x: Option<u32>| s.contains(x) implies first_reps(s).contains(x) by {
            crate::codes::lemma_push_contains(pre, s.last(), x);
            crate::codes::lemma_push_contains(first_reps(pre), s.last(), x);
            if pre.contains(x) {
                assert(first_reps(pre).contains(x));
                if first_reps(pre).contains(s.last()) {
                    assert(first_reps(s) == first_reps(pre));
                } else {
                    assert(first_reps(s) == first_reps(pre).push(s.last()));
                }
            } else {
                assert(x == s.last());
                if first_reps(pre).contains(x) {
                    assert(first_reps(s) == first_reps(pre));
                } else {
                    assert(first_reps(s) == first_reps(pre).push(s.last()));
                }
            }
        }
        if !first_reps(pre).contains(s.last()) {
            assert(first_reps(s) == first_reps(pre).push(s.last()));
            assert forall|i: int, j: int|
                0 <= i < j < first_reps(s).len() implies first_reps(s)[i] != first_reps(s)[j] by {
                if j == first_reps(s).len() - 1 {
                    assert(first_reps(s)[i] == first_reps(pre)[i]);
                    assert(first_reps(pre).contains(first_reps(pre)[i]));
                }
            }
        }
    }
}

/// Stable insertion keeps the entries (one more `x`), keeps descending
/// order, and grows the length by one.
pub proof fn lemma_insert_desc_props(s: Seq<(Option<u32>, usize)>, x: (Option<u32>, usize))
    ensures
        insert_desc(s, x).len() == s.len() + 1,
        insert_desc(s, x).to_multiset() == s.to_multiset().insert(x),
        sorted_desc(s) ==> sorted_desc(insert_desc(s, x)),
    decreases s.len(),
{
    broadcast use vstd::seq_lib::group_to_multiset_ensures;

    if s.len() == 0 {
        assert(seq![x].drop_last() == Seq::<(Option<u32>, usize)>::empty());
        assert(seq![x] == Seq::<(Option<u32>, usize)>::empty().push(x));
        assert(insert_desc(s, x).to_multiset() =~= s.to_multiset().insert(x));
    } else if x.1 > s.last().1 {
        let pre = s.drop_last();
        lemma_insert_desc_props(pre, x);
        assert(s == pre.push(s.last()));
        assert(insert_desc(s, x) == insert_desc(pre, x).push(s.last()));
        assert(insert_desc(s, x).to_multiset() =~= s.to_multiset().insert(x)) by {
            assert(insert_desc(pre, x).push(s.last()).to_multiset() == insert_desc(
                pre,
                x,
            ).to_multiset().insert(s.last()));
            assert(pre.push(s.last()).to_multiset() == pre.to_multiset().insert(s.last()));
            assert(insert_desc(pre, x).to_multiset() == pre.to_multiset().insert(x));
            assert(pre.to_multiset().insert(x).insert(s.last()) =~= pre.to_multiset().insert(
                s.last(),
            ).insert(x));
        }
        if sorted_desc(s) {
            assert(sorted_desc(pre)) by {
                assert(forall|i: int, j: int|
                    0 <= i < j < pre.len() ==> s[i] == pre[i] && s[j] == pre[j]);
            }
            assert(sorted_desc(insert_desc(s, x))) by {
                let t = insert_desc(pre, x);
                let r = t.push(s.last());
                assert forall|i: int, j: int| 0 <= i < j < r.len() implies r[i].1 >= r[j].1 by {
                    if j < t.len() {
                        assert(r[i] == t[i] && r[j] == t[j]);
                    } else {
                        // every entry of t is an entry of s or x, all >= s.last()
                        assert(r[j] == s.last());
                        assert(t.contains(t[i]));
                        assert(t.to_multiset().contains(t[i]));
                        if t[i] == x {
                        } else {
                            assert(s.to_multiset().contains(t[i]));
                            assert(s.contains(t[i]));
                            let k = choose|k: int| 0 <= k < s.len() && s[k] == t[i];
                            if k < s.len() - 1 {
                                assert(s[k].1 >= s[s.len() - 1].1);
                            }
                        }
                    }
                }
            }
        }
    } else {
        assert(insert_desc(s, x) == s.push(x));
        assert(s.push(x).to_multiset() == s.to_multiset().insert(x));
        if sorted_desc(s) {
            let r = s.push(x);
            assert forall|i: int, j: int| 0 <= i < j < r.len() implies r[i].1 >= r[j].1 by {
                if j == r.len() - 1 {
                    assert(r[j] == x);
                    if i < s.len() - 1 {
                        assert(s[i].1 >= s[s.len() - 1].1);
                    }
                }
            }
        }
    }
}

/// The sort keeps the entries and the length, and orders counts descending.
pub proof fn lemma_sort_desc_props(s: Seq<(Option<u32>, usize)>)
    ensures
        sort_desc(s).len() == s.len(),
        sort_desc(s).to_multiset() == s.to_multiset(),
        sorted_desc(sort_desc(s)),
    decreases s.len(),
{
    broadcast use vstd::seq_lib::group_to_multiset_ensures;

    if s.len() == 0 {
        assert(sort_desc(s).to_multiset() =~= s.to_multiset());
    } else {
        let pre = s.drop_last();
        lemma_sort_desc_props(pre);
        lemma_insert_desc_props(sort_desc(pre), s.last());
        assert(s == pre.push(s.last()));
        assert(s.to_multiset() == pre.to_multiset().insert(s.last()));
    }
}

/// Where the exec scan inserts is where `insert_desc` inserts: past every
/// entry with a count at least `x`'s, before the rest.
pub proof fn lemma_insert_desc_split(s: Seq<(Option<u32>, usize)>, x: (Option<u32>, usize), j: int)
    requires
        0 <= j <= s.len(),
        forall|k: int| j <= k < s.len() ==> s[k].1 < x.1,
        forall|k: int| 0 <= k < j ==> s[k].1 >= x.1,
    ensures
        insert_desc(s, x) == s.take(j) + seq![x] + s.skip(j),
    decreases s.len(),
{
    if s.len() == 0 {
        assert(insert_desc(s, x) =~= s.take(j) + seq![x] + s.skip(j));
    } else if x.1 > s.last().1 {
        let pre = s.drop_last();
        assert(j <= pre.len());
        lemma_insert_desc_split(pre, x, j);
        assert(insert_desc(s, x) =~= s.take(j) + seq![x] + s.skip(j)) by {
            assert(insert_desc(s, x) == (pre.take(j) + seq![x] + pre.skip(j)).push(s.last()));
            assert(forall|k: int| 0 <= k < j ==> s.take(j)[k] == pre.take(j)[k]);
        }
    } else {
        assert(s[s.len() - 1].1 >= x.1);
        assert(j == s.len());
        assert(insert_desc(s, x) =~= s.take(j) + seq![x] + s.skip(j));
    }
}

/// The two-column result of `value_counts`: one representative value per
/// group (a categorical column sharing the input's dictionary store) and
/// that group's population count.
pub struct Table {
    /// The representative codes, as a categorical column.
    pub values: CategoricalChunked,
    /// The matching population counts.
    pub counts: Vec<usize>,
}

/// Whether two nullable codes are the same group key.
fn opt_eq(a: Option<u32>, b: Option<u32>) -> (r: bool)
    ensures
        r == (a == b),
{
    match (a, b) {
        (None, None) => true,
        (Some(x), Some(y)) => x == y,
        _ => false,
    }
}

/// Stable insertion sort, descending by count.
fn sort_pairs_desc(v: Vec<(Option<u32>, usize)>) -> (out: Vec<(Option<u32>, usize)>)
    ensures
        out@ == sort_desc(v@),
{
    let mut out: Vec<(Option<u32>, usize)> = Vec::new();
    let n = v.len();
    let mut i: usize = 0;
    proof {
        assert(v@.take(0) == Seq::<(Option<u32>, usize)>::empty());
    }
    while i < n
        invariant
            n == v@.len(),
            i <= n,
            out@ == sort_desc(v@.take(i as int)),
        decreases n - i,
    {
        let x = v[i];
        proof {
            lemma_sort_desc_props(v@.take(i as int));
        }
        let mut j: usize = out.len();
        while j > 0 && out[j - 1].1 < x.1
            invariant
                j <= out@.len(),
                sorted_desc(out@),
                forall|k: int| j <= k < out@.len() ==> out@[k].1 < x.1,
            decreases j,
        {
            j -= 1;
        }
        proof {
            assert forall|k: int| 0 <= k < j implies out@[k].1 >= x.1 by {
                if k < j - 1 {
                    assert(out@[k].1 >= out@[j - 1].1);
                }
            }
            lemma_insert_desc_split(out@, x, j as int);
            assert(v@.take(i + 1) == v@.take(i as int).push(x));
            assert(v@.take(i + 1).drop_last() == v@.take(i as int));
        }
        out.insert(j, x);
        proof {
            assert(out@ =~= sort_desc(v@.take(i as int)).take(j as int) + seq![x] + sort_desc(
                v@.take(i as int),
            ).skip(j as int));
        }
        i += 1;
    }
    proof {
        assert(v@.take(n as int) == v@);
    }
    out
}

impl CategoricalChunked {
    /// The rows of `value_counts`, as (representative code, count) pairs:
    /// the groups in first-occurrence order, stably sorted descending by
    /// count.
    pub open spec fn value_counts_pairs_spec(&self) -> Seq<(Option<u32>, usize)> {
        sort_desc(grouped_pairs(self.physical@))
    }

    /// Tabulates the frequency of each distinct code (nulls form their own
    /// group), returning one row per group, sorted descending by count;
    /// ties keep first-occurrence order.  The values column shares this
    /// column's dictionary store and flags.
    pub fn value_counts(&self) -> (r: Result<Table, CategoricalError>)
        requires
            self.wf(),
        ensures
            r is Ok,
            r matches Ok(t) ==> t.values.wf(),
            r matches Ok(t) ==> t.values.rev_map == self.rev_map,
            r matches Ok(t) ==> t.values.is_enum == self.is_enum,
            r matches Ok(t) ==> t.values.ordering == self.ordering,
            r matches Ok(t) ==> t.counts@.len() == t.values.physical@.len(),
            r matches Ok(t) ==> t.values.physical@.len() == self.value_counts_pairs_spec().len(),
            r matches Ok(t) ==> forall|i: int|
                0 <= i < t.counts@.len() ==> (t.values.physical@[i], t.counts@[i])
                    == #[trigger] self.value_counts_pairs_spec()[i],
    {
        let s = self.physical();
        let n = s.len();
        let mut reps: Vec<Option<u32>> = Vec::new();
        let mut counts: Vec<usize> = Vec::new();
        let mut i: usize = 0;
        proof {
            assert(s@.take(0) == Seq::<Option<u32>>::empty());
        }
        while i < n
            invariant
                s@ == self.physical@,
                n == s@.len(),
                i <= n,
                reps@ == first_reps(s@.take(i as int)),
                counts@.len() == reps@.len(),
                forall|k: int|
                    0 <= k < reps@.len() ==> counts@[k] as int == count_of(
                        s@.take(i as int),
                        #[trigger] reps@[k],
                    ),
                forall|k: int| 0 <= k < counts@.len() ==> #[trigger] counts@[k] <= i,
            decreases n - i,
        {
            let x = s[i];
            proof {
                assert(s@.take(i + 1) == s@.take(i as int).push(x));
                assert(s@.take(i + 1).drop_last() == s@.take(i as int));
                assert(s@.take(i + 1).last() == x);
                assert forall|y: Option<u32>| true implies count_of(s@.take(i + 1), y) == count_of(
                    s@.take(i as int),
                    y,
                ) + (if x == y {
                    1int
                } else {
                    0int
                }) by {
                    lemma_count_of_push(s@.take(i as int), x, y);
                }
            }
            let m = reps.len();
            let mut found = false;
            let mut idx: usize = 0;
            while idx < m && !found
                invariant
                    m == reps@.len(),
                    idx <= m,
                    found ==> idx < m && reps@[idx as int] == x,
                    !found ==> forall|k: int| 0 <= k < idx ==> reps@[k] != x,
                decreases m - idx + if found {
                    0int
                } else {
                    1int
                },
            {
                if opt_eq(reps[idx], x) {
                    found = true;
                } else {
                    idx += 1;
                }
            }
            proof {
                if found {
                    assert(reps@.contains(x));
                } else {
                    if reps@.contains(x) {
                        let k = choose|k: int| 0 <= k < reps@.len() && reps@[k] == x;
                    }
                    assert(!reps@.contains(x));
                }
            }
            if found {
                let c = counts[idx];
                counts.set(idx, c + 1);
                proof {
                    lemma_first_reps_props(s@.take(i as int));
                    assert(first_reps(s@.take(i + 1)) == first_reps(s@.take(i as int)));
                }
            } else {
                reps.push(x);
                counts.push(1);
                proof {
                    assert(first_reps(s@.take(i + 1)) == first_reps(s@.take(i as int)).push(x));
                    assert(count_of(s@.take(i as int), x) == 0) by {
                        lemma_first_reps_props(s@.take(i as int));
                        assert(!s@.take(i as int).contains(x));
                        lemma_count_of_zero(s@.take(i as int), x);
                    }
                }
            }
            i += 1;
        }
        proof {
            assert(s@.take(n as int) == s@);
        }
        // Pair each representative with its count.
        let mut pairs: Vec<(Option<u32>, usize)> = Vec::new();
        let g = reps.len();
        let mut k: usize = 0;
        while k < g
            invariant
                g == reps@.len(),
                g == counts@.len(),
                k <= g,
                pairs@.len() == k,
                reps@ == first_reps(self.physical@),
                forall|t: int|
                    0 <= t < reps@.len() ==> counts@[t] as int == count_of(
                        self.physical@,
                        #[trigger] reps@[t],
                    ),
                forall|t: int|
                    0 <= t < k ==> #[trigger] pairs@[t] == (reps@[t], counts@[t]),
            decreases g - k,
        {
            pairs.push((reps[k], counts[k]));
            k += 1;
        }
        proof {
            assert(pairs@ =~= grouped_pairs(self.physical@));
        }
        let sorted = sort_pairs_desc(pairs);
        proof {
            lemma_sort_desc_props(grouped_pairs(self.physical@));
        }
        // Split the sorted rows into the two columns.
        let h = sorted.len();
        let mut vals: Vec<Option<u32>> = Vec::new();
        let mut cnts: Vec<usize> = Vec::new();
        let mut t: usize = 0;
        while t < h
            invariant
                h == sorted@.len(),
                t <= h,
                vals@.len() == t,
                cnts@.len() == t,
                forall|u: int|
                    0 <= u < t ==> (vals@[u], cnts@[u]) == #[trigger] sorted@[u],
            decreases h - t,
        {
            let p = sorted[t];
            vals.push(p.0);
            cnts.push(p.1);
            t += 1;
        }
        proof {
            broadcast use vstd::seq_lib::group_to_multiset_ensures;

            lemma_first_reps_props(self.physical@);
            assert forall|u: int|
                0 <= u < vals@.len() implies (#[trigger] vals@[u] matches Some(c)
                ==> self.rm().valid_code(c)) by {
                assert(sorted@.contains(sorted@[u]));
                assert(sorted@.to_multiset().contains(sorted@[u]));
                assert(grouped_pairs(self.physical@).to_multiset().contains(sorted@[u]));
                assert(grouped_pairs(self.physical@).contains(sorted@[u]));
                let w = choose|w: int|
                    0 <= w < grouped_pairs(self.physical@).len() && grouped_pairs(self.physical@)[w]
                        == sorted@[u];
                assert(vals@[u] == first_reps(self.physical@)[w]);
                assert(first_reps(self.physical@).contains(vals@[u]));
                assert(self.physical@.contains(vals@[u]));
                match vals@[u] {
                    Some(c) => {
                        let q = choose|q: int|
                            0 <= q < self.physical@.len() && self.physical@[q] == Some(c);
                        assert(self.physical@[q] matches Some(d) && self.rm().valid_code(d));
                    },
                    None => {},
                }
            }
        }
        let values = CategoricalChunked::from_parts_unchecked(
            vals,
            self.get_rev_map().clone(),
            self.is_enum(),
            self.get_ordering(),
            false,
        );
        Ok(Table { values, counts: cnts })
    }
}

} // verus!
