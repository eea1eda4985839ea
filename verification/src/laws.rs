//! The library's laws: what the three operations guarantee across calls,
//! proved from the public contracts' spec functions.

use vstd::prelude::*;

use crate::codes::{
    code_set, has_null, lemma_ascending_codes_len, lemma_codes_below_props,
    lemma_unique_code_seq_set,
};
use crate::column::CategoricalChunked;
use crate::rev_map::RevMapping;
use crate::value_counts::{
    count_of, first_reps, grouped_pairs, insert_desc, lemma_count_of_push, lemma_count_of_zero,
    lemma_first_reps_props, lemma_insert_desc_props, lemma_sort_desc_props, sort_desc,
};

verus! {

/// The total of the count column: the counts of a row sequence, summed.
pub open spec fn sum_counts(s: Seq<(Option<u32>, usize)>) -> int
    decreases s.len(),
{
    if s.len() == 0 {
        0int
    } else {
        sum_counts(s.drop_last()) + s.last().1
    }
}

/// Completeness: for any non-enum column, `unique` returns each distinct
/// observed code exactly once — its codes, as a multiset, are the set a
/// brute-force scan of the physical codes finds — plus one null marker iff
/// the column holds at least one null.  (An enum column instead returns its
/// whole domain: see `lemma_unique_enum_domain`.)
pub proof fn lemma_unique_completeness(c: CategoricalChunked)
    requires
        c.wf(),
        !c.is_enum,
    ensures
        c.unique_codes_spec().no_duplicates(),
        forall|code: u32|
            c.unique_codes_spec().contains(Some(code)) <==> code_set(c.physical@).contains(code),
        c.unique_codes_spec().contains(None::<u32>) <==> has_null(c.physical@),
{
    if c.physical@.len() == 0 {
        assert(!has_null(c.physical@));
        assert(forall|code: u32| !code_set(c.physical@).contains(code));
    } else if c.fast_unique {
        assert(c.unique_codes_spec() == c.physical@);
    } else {
        lemma_unique_code_seq_set(code_set(c.physical@), has_null(c.physical@));
        assert(forall|code: u32|
            c.unique_codes_spec().contains(Some(code)) == code_set(
                c.unique_codes_spec(),
            ).contains(code));
    }
}

/// Idempotence: `unique` of a `unique` result returns identical codes, and
/// the second call is served without a kernel re-scan — the result carries
/// the fast-unique flag, so the detector fires on it.
pub proof fn lemma_unique_idempotent(c: CategoricalChunked, u: CategoricalChunked)
    requires
        c.wf(),
        u.wf(),
        u.physical@ == c.unique_codes_spec(),
        u.rev_map == c.rev_map,
        u.is_enum == c.is_enum,
        u.fast_unique,
    ensures
        u.can_fast_unique_spec(),
        u.unique_codes_spec() == c.unique_codes_spec(),
{
    let s = code_set(c.physical@);
    if c.physical@.len() == 0 {
        assert(u.unique_codes_spec() =~= c.unique_codes_spec());
    } else if c.is_enum {
        let d = c.rm().domain_codes();
        let m = d.map_values(|code: u32| Some(code));
        if has_null(c.physical@) {
            assert(u.physical@.len() == m.len() + 1);
            assert(u.physical@[u.physical@.len() - 1] == None::<u32>);
            assert(u.physical@.contains(None::<u32>));
            assert(has_null(u.physical@));
            assert(u.unique_codes_spec() == c.unique_codes_spec());
        } else {
            assert(u.physical@.len() == m.len());
            if u.physical@.len() == 0 {
                assert(u.unique_codes_spec() =~= c.unique_codes_spec());
            } else {
                assert(!has_null(u.physical@)) by {
                    if has_null(u.physical@) {
                        let i = choose|i: int|
                            0 <= i < u.physical@.len() && u.physical@[i] == None::<u32>;
                        assert(u.physical@[i] == m[i]);
                        assert(m[i] == Some(d[i]));
                    }
                }
                assert(u.unique_codes_spec() == c.unique_codes_spec());
            }
        }
    } else {
        if u.physical@.len() == 0 {
            if c.fast_unique {
                assert(false);
            } else {
                if has_null(c.physical@) {
                    assert(c.unique_codes_spec().len() > 0);
                } else {
                    assert(c.physical@.contains(c.physical@[0]));
                    match c.physical@[0] {
                        Some(cc) => {
                            assert(s.contains(cc));
                            lemma_codes_below_props(s, 0x1_0000_0000);
                            assert(crate::codes::ascending_codes(s).contains(cc));
                            assert(c.unique_codes_spec().len() > 0);
                        },
                        None => {
                            assert(has_null(c.physical@));
                        },
                    }
                }
                assert(false);
            }
        }
        assert(u.unique_codes_spec() == u.physical@);
    }
}

/// Enum domain invariant: an enum column's `unique` is exactly the codes
/// `0..category_count` ascending, regardless of which codes occur in the
/// physical data, with one trailing null marker iff the column holds a
/// null.
pub proof fn lemma_unique_enum_domain(c: CategoricalChunked)
    requires
        c.wf(),
        c.is_enum,
        c.physical@.len() > 0,
    ensures
        c.unique_codes_spec() == Seq::new(c.rm().spec_len() as nat, |i: int| Some(i as u32))
            + if has_null(c.physical@) {
            seq![None::<u32>]
        } else {
            Seq::<Option<u32>>::empty()
        },
{
    let d = c.rm().domain_codes();
    assert(d.map_values(|code: u32| Some(code)) =~= Seq::new(
        c.rm().spec_len() as nat,
        |i: int| Some(i as u32),
    )) by {
        match c.rm() {
            RevMapping::Local { .. } => {},
            RevMapping::Global { .. } => {},
        }
    }
}

/// Aliasing correctness: off the fast path, when every observed code of a
/// null-free, non-empty column denotes one and the same category string,
/// `n_unique` counts exactly one value — however many distinct codes alias
/// it.  (`unique` still keeps every distinct code: see
/// `lemma_unique_completeness`.)
pub proof fn lemma_n_unique_aliasing(c: CategoricalChunked, v: Seq<char>)
    requires
        c.wf(),
        !c.is_enum,
        !has_null(c.physical@),
        exists|i: int| 0 <= i < c.physical@.len() && c.physical@[i] is Some,
        forall|code: u32|
            code_set(c.physical@).contains(code) ==> c.rm().value_of(code) == v,
    ensures
        c.n_unique_spec() == 1,
{
    let vs = c.rm().value_set_of(code_set(c.physical@));
    let i = choose|i: int| 0 <= i < c.physical@.len() && c.physical@[i] is Some;
    let w = c.physical@[i]->0;
    assert(c.physical@.contains(Some(w)));
    assert(code_set(c.physical@).contains(w));
    assert(vs =~= Set::<Seq<char>>::empty().insert(v)) by {
        assert forall|x: Seq<char>| vs.contains(x) implies x == v by {
            let code = choose|code: u32|
                #[trigger] code_set(c.physical@).contains(code) && c.rm().value_of(code) == x;
        }
        assert(c.rm().value_of(w) == v);
        assert(vs.contains(v));
    }
    vstd::set::axiom_set_insert_len(Set::<Seq<char>>::empty(), v);
}

/// Empty input: `unique` on a zero-length column returns a zero-length
/// column (sharing the dictionary store, as `unique`'s contract states).
pub proof fn lemma_unique_empty(c: CategoricalChunked)
    requires
        c.wf(),
        c.physical@.len() == 0,
    ensures
        c.unique_codes_spec() == Seq::<Option<u32>>::empty(),
{
}

/// Value-level deduplication can only merge code-level groups: off the
/// fast paths, `n_unique` is at most the length of `unique`'s code
/// sequence — and exactly that length under a local dictionary, whose
/// pairwise distinct categories leave no room for aliasing.
pub proof fn lemma_n_unique_within_unique(c: CategoricalChunked)
    requires
        c.wf(),
        !c.is_enum,
        !c.fast_unique,
    ensures
        c.n_unique_spec() <= c.unique_codes_spec().len(),
        c.rm() is Local ==> c.n_unique_spec() == c.unique_codes_spec().len(),
{
    let s = code_set(c.physical@);
    lemma_ascending_codes_len(s);
    if c.physical@.len() == 0 {
        assert(s =~= Set::<u32>::empty());
        assert(!has_null(c.physical@));
        c.rm().lemma_value_set_card(s);
    } else {
        c.rm().lemma_value_set_card(s);
        if c.rm() is Local {
            assert forall|cc: u32| s.contains(cc) implies c.rm().valid_code(cc) by {
                let i = choose|i: int|
                    0 <= i < c.physical@.len() && c.physical@[i] == Some(cc);
                assert(c.physical@[i] matches Some(d) && c.rm().valid_code(d));
            }
            c.rm().lemma_value_set_card_local(s);
        }
    }
}

/// One group per distinct entry: the groups' counts sum to the total
/// number of entries.
proof fn lemma_grouped_sum(s: Seq<Option<u32>>)
    requires
        s.len() <= usize::MAX,
    ensures
        sum_counts(grouped_pairs(s)) == s.len(),
    decreases s.len(),
{
    if s.len() == 0 {
        assert(grouped_pairs(s) =~= Seq::<(Option<u32>, usize)>::empty());
    } else {
        let pre = s.drop_last();
        let x = s.last();
        lemma_grouped_sum(pre);
        lemma_first_reps_props(pre);
        assert(s =~= pre.push(x));
        assert forall|y: Option<u32>| true implies count_of(s, y) == count_of(pre, y) + (if y == x {
            1int
        } else {
            0int
        }) by {
            lemma_count_of_push(pre, x, y);
        }
        crate::value_counts::lemma_count_of_bound(pre, x);
        crate::value_counts::lemma_count_of_bound(s, x);
        let gp = grouped_pairs(pre);
        let gs = grouped_pairs(s);
        if first_reps(pre).contains(x) {
            assert(first_reps(s) == first_reps(pre));
            let t = choose|t: int| 0 <= t < first_reps(pre).len() && first_reps(pre)[t] == x;
            let p = (x, count_of(s, x) as usize);
            assert(gs =~= gp.update(t, p)) by {
                assert forall|j: int| 0 <= j < gs.len() implies gs[j] == gp.update(t, p)[j] by {
                    if j != t {
                        assert(first_reps(pre)[j] != x);
                    }
                }
            }
            lemma_sum_update(gp, t, p);
            assert(gp[t].1 as int == count_of(pre, x));
        } else {
            assert(!pre.contains(x));
            lemma_count_of_zero(pre, x);
            assert(first_reps(s) == first_reps(pre).push(x));
            assert(gs =~= gp.push((x, 1usize))) by {
                assert forall|j: int| 0 <= j < gs.len() implies gs[j] == gp.push((x, 1usize))[j] by {
                    if j < gp.len() {
                        assert(first_reps(pre).contains(first_reps(pre)[j]));
                        assert(first_reps(pre)[j] != x);
                    } else {
                        assert(first_reps(s)[j] == x);
                    }
                }
            }
            assert(gp.push((x, 1usize)).drop_last() == gp);
        }
    }
}

/// Replacing one row changes the sum by the difference of its count.
proof fn lemma_sum_update(s: Seq<(Option<u32>, usize)>, t: int, p: (Option<u32>, usize))
    requires
        0 <= t < s.len(),
    ensures
        sum_counts(s.update(t, p)) == sum_counts(s) - s[t].1 + p.1,
    decreases s.len(),
{
    let r = s.update(t, p);
    if t == s.len() - 1 {
        assert(r.drop_last() =~= s.drop_last());
        assert(r.last() == p);
    } else {
        assert(r.drop_last() =~= s.drop_last().update(t, p));
        assert(r.last() == s.last());
        lemma_sum_update(s.drop_last(), t, p);
    }
}

/// Stable insertion adds the inserted row's count to the sum.
proof fn lemma_insert_desc_sum(s: Seq<(Option<u32>, usize)>, x: (Option<u32>, usize))
    ensures
        sum_counts(insert_desc(s, x)) == sum_counts(s) + x.1,
    decreases s.len(),
{
    if s.len() == 0 {
        let r = insert_desc(s, x);
        assert(r == seq![x]);
        assert(r.len() == 1);
        assert(r.drop_last() =~= Seq::<(Option<u32>, usize)>::empty());
        assert(sum_counts(r.drop_last()) == 0);
        assert(r.last() == x);
        assert(sum_counts(r) == sum_counts(r.drop_last()) + r.last().1);
    } else if x.1 > s.last().1 {
        lemma_insert_desc_sum(s.drop_last(), x);
        lemma_insert_desc_props(s.drop_last(), x);
        let r = insert_desc(s.drop_last(), x).push(s.last());
        assert(insert_desc(s, x) == r);
        assert(r.len() > 0);
        assert(r.drop_last() =~= insert_desc(s.drop_last(), x));
        assert(r.last() == s.last());
        assert(sum_counts(r) == sum_counts(insert_desc(s.drop_last(), x)) + s.last().1);
        assert(sum_counts(s) == sum_counts(s.drop_last()) + s.last().1);
    } else {
        let r = s.push(x);
        assert(insert_desc(s, x) == r);
        assert(r.len() > 0);
        assert(r.drop_last() =~= s);
        assert(r.last() == x);
        assert(sum_counts(r) == sum_counts(r.drop_last()) + r.last().1);
        assert(sum_counts(r.drop_last()) == sum_counts(s));
    }
}

/// The stable sort leaves the sum of the counts unchanged.
proof fn lemma_sort_desc_sum(s: Seq<(Option<u32>, usize)>)
    ensures
        sum_counts(sort_desc(s)) == sum_counts(s),
    decreases s.len(),
{
    if s.len() > 0 {
        lemma_sort_desc_sum(s.drop_last());
        lemma_insert_desc_sum(sort_desc(s.drop_last()), s.last());
    }
}

/// Value-counts totals: the count column of `value_counts` sums to the
/// column's length, and the result's height is the number of distinct
/// groups — one row per distinct entry of the physical codes, the null
/// group included.
pub proof fn lemma_value_counts_totals(c: CategoricalChunked)
    requires
        c.wf(),
        c.physical@.len() <= usize::MAX,
    ensures
        sum_counts(c.value_counts_pairs_spec()) == c.physical@.len(),
        c.value_counts_pairs_spec().len() == first_reps(c.physical@).len(),
        first_reps(c.physical@).no_duplicates(),
        forall|x: Option<u32>| first_reps(c.physical@).contains(x) <==> c.physical@.contains(x),
{
    lemma_grouped_sum(c.physical@);
    lemma_sort_desc_sum(grouped_pairs(c.physical@));
    lemma_sort_desc_props(grouped_pairs(c.physical@));
    lemma_first_reps_props(c.physical@);
}

} // verus!
