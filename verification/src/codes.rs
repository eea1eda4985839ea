//! Mathematical model of nullable code sequences: the set of codes that
//! occur, the null marker, and the ascending enumeration of a code set that
//! the deduplication kernel produces.

use vstd::prelude::*;

verus! {

/// The set of non-null codes occurring in a code sequence.
pub open spec fn code_set(s: Seq<Option<u32>>) -> Set<u32> {
    Set::new(|c: u32| s.contains(Some(c)))
}

/// Whether the sequence holds at least one null entry.
pub open spec fn has_null(s: Seq<Option<u32>>) -> bool {
    s.contains(None::<u32>)
}

/// The number of null entries of a code sequence.
pub open spec fn null_count_spec(s: Seq<Option<u32>>) -> int {
    s.filter(|x: Option<u32>| x is None).len() as int
}

/// How one appended entry changes the null count.
pub proof fn lemma_null_count_push(s: Seq<Option<u32>>, x: Option<u32>)
    ensures
        null_count_spec(s.push(x)) == null_count_spec(s) + if x is None {
            1int
        } else {
            0int
        },
{
    let pred = |y: Option<u32>| y is None;
    assert(s.push(x) == s + seq![x]);
    Seq::filter_distributes_over_add(s, seq![x], pred);
    reveal_with_fuel(Seq::filter, 2);
    assert(seq![x].drop_last() == Seq::<Option<u32>>::empty());
}

/// The members of `s` that are strictly below `bound`, in ascending order.
pub open spec fn codes_below(s: Set<u32>, bound: int) -> Seq<u32>
    decreases bound,
{
    if bound <= 0 {
        Seq::empty()
    } else if s.contains((bound - 1) as u32) {
        codes_below(s, bound - 1).push((bound - 1) as u32)
    } else {
        codes_below(s, bound - 1)
    }
}

/// All members of `s`, in ascending order.
pub open spec fn ascending_codes(s: Set<u32>) -> Seq<u32> {
    codes_below(s, 0x1_0000_0000)
}

/// The code sequence the kernel finalizes into: the ascending members of
/// `s`, with one trailing null marker iff `with_null`.
pub open spec fn unique_code_seq(s: Set<u32>, with_null: bool) -> Seq<Option<u32>> {
    ascending_codes(s).map_values(|c: u32| Some(c))
        + if with_null {
            seq![None::<u32>]
        } else {
            Seq::<Option<u32>>::empty()
        }
}

/// Membership in a sequence extended by one element.
pub proof fn lemma_push_contains<A>(s: Seq<A>, x: A, y: A)
    ensures
        s.push(x).contains(y) <==> (s.contains(y) || y == x),
{
    if s.push(x).contains(y) {
        let i = choose|i: int| 0 <= i < s.push(x).len() && s.push(x)[i] == y;
        if i < s.len() {
            assert(s[i] == y);
        }
    }
    if s.contains(y) {
        let i = choose|i: int| 0 <= i < s.len() && s[i] == y;
        assert(s.push(x)[i] == y);
    }
    assert(s.push(x)[s.len() as int] == x);
}

/// How one appended entry changes the code set and the null marker.
pub proof fn lemma_code_set_push(s: Seq<Option<u32>>, x: Option<u32>)
    ensures
        x matches Some(c) ==> code_set(s.push(x)) == code_set(s).insert(c),
        x is None ==> code_set(s.push(x)) == code_set(s),
        has_null(s.push(x)) == (has_null(s) || x is None),
{
    assert forall|d: u32| true implies #[trigger] code_set(s.push(x)).contains(d) == (code_set(
        s,
    ).contains(d) || x == Some(d)) by {
        lemma_push_contains(s, x, Some(d));
    }
    lemma_push_contains(s, x, None::<u32>);
    match x {
        Some(c) => {
            assert(code_set(s.push(x)) =~= code_set(s).insert(c));
        },
        None => {
            assert(code_set(s.push(x)) =~= code_set(s));
        },
    }
}

/// The kernel's output sequence holds exactly the codes of `s`, each once,
/// a null marker iff `with_null`, and no other entry.
pub proof fn lemma_unique_code_seq_set(s: Set<u32>, with_null: bool)
    ensures
        code_set(unique_code_seq(s, with_null)) == s,
        has_null(unique_code_seq(s, with_null)) == with_null,
        unique_code_seq(s, with_null).no_duplicates(),
{
    lemma_codes_below_props(s, 0x1_0000_0000);
    let a = ascending_codes(s);
    let u = unique_code_seq(s, with_null);
    let m = a.map_values(|c: u32| Some(c));
    assert(code_set(u) =~= s) by {
        assert forall|d: u32| code_set(u).contains(d) implies s.contains(d) by {
            let i = choose|i: int| 0 <= i < u.len() && u[i] == Some(d);
            assert(i < m.len());
            assert(a[i] == d);
        }
        assert forall|d: u32| s.contains(d) implies code_set(u).contains(d) by {
            assert((d as int) < 0x1_0000_0000);
            assert(a.contains(d));
            let i = choose|i: int| 0 <= i < a.len() && a[i] == d;
            assert(u[i] == Some(d));
            assert(u.contains(Some(d)));
        }
    }
    assert(has_null(u) == with_null) by {
        if with_null {
            assert(u[u.len() - 1] == None::<u32>);
            assert(u.contains(None::<u32>));
        } else {
            if has_null(u) {
                let i = choose|i: int| 0 <= i < u.len() && u[i] == None::<u32>;
                assert(u[i] == Some(a[i]));
            }
        }
    }
    assert(u.no_duplicates()) by {
        assert forall|i: int, j: int| 0 <= i < j < u.len() implies u[i] != u[j] by {
            if j < m.len() {
                assert(a[i] < a[j]);
            } else {
                assert(u[j] == None::<u32>);
                assert(u[i] == Some(a[i]));
            }
        }
    }
}

/// `codes_below(s, bound)` enumerates exactly the members of `s` below
/// `bound`, each once, in strictly ascending order.
pub proof fn lemma_codes_below_props(s: Set<u32>, bound: int)
    requires
        bound <= 0x1_0000_0000,
    ensures
        forall|i: int|
            0 <= i < codes_below(s, bound).len() ==> s.contains(#[trigger] codes_below(s, bound)[i])
                && (codes_below(s, bound)[i] as int) < bound,
        forall|i: int, j: int|
            0 <= i < j < codes_below(s, bound).len() ==> codes_below(s, bound)[i] < codes_below(
                s,
                bound,
            )[j],
        forall|c: u32| s.contains(c) && (c as int) < bound ==> codes_below(s, bound).contains(c),
    decreases (if bound <= 0 {
        0int
    } else {
        bound
    }),
{
    if bound <= 0 {
    } else {
        lemma_codes_below_props(s, bound - 1);
        let pre = codes_below(s, bound - 1);
        let cur = codes_below(s, bound);
        if s.contains((bound - 1) as u32) {
            assert(cur == pre.push((bound - 1) as u32));
            assert forall|c: u32| s.contains(c) && (c as int) < bound implies cur.contains(c) by {
                if (c as int) < bound - 1 {
                    assert(pre.contains(c));
                    let k = choose|k: int| 0 <= k < pre.len() && pre[k] == c;
                    assert(cur[k] == c);
                } else {
                    assert(c == (bound - 1) as u32);
                    assert(cur[cur.len() - 1] == c);
                }
            }
        } else {
            assert(cur == pre);
            assert forall|c: u32| s.contains(c) && (c as int) < bound implies cur.contains(c) by {
                assert((c as int) != bound - 1);
                assert(pre.contains(c));
            }
        }
    }
}

/// A set of codes is finite, and its ascending enumeration has exactly one
/// entry per member.
pub proof fn lemma_ascending_codes_len(s: Set<u32>)
    ensures
        s.finite(),
        ascending_codes(s).len() == s.len(),
{
    broadcast use vstd::seq_lib::seq_to_set_is_finite;

    lemma_codes_below_props(s, 0x1_0000_0000);
    let a = ascending_codes(s);
    assert(a.no_duplicates()) by {
        assert forall|i: int, j: int| 0 <= i < j < a.len() implies a[i] != a[j] by {
            assert(a[i] < a[j]);
        }
    }
    assert(a.to_set() =~= s) by {
        assert forall|c: u32| a.to_set().contains(c) implies s.contains(c) by {
            let i = choose|i: int| 0 <= i < a.len() && a[i] == c;
            assert(s.contains(a[i]));
        }
        assert forall|c: u32| s.contains(c) implies a.to_set().contains(c) by {
            assert((c as int) < 0x1_0000_0000);
            assert(a.contains(c));
        }
    }
    a.unique_seq_to_set();
}

/// Raising the bound past every member of `s` leaves the enumeration
/// unchanged.
pub proof fn lemma_codes_below_stable(s: Set<u32>, bound: int, higher: int)
    requires
        0 <= bound <= higher <= 0x1_0000_0000,
        forall|c: u32| s.contains(c) ==> (c as int) < bound,
    ensures
        codes_below(s, higher) == codes_below(s, bound),
    decreases higher - bound,
{
    if higher > bound {
        assert(!s.contains((higher - 1) as u32)) by {
            if s.contains((higher - 1) as u32) {
                assert(((higher - 1) as u32) as int == higher - 1);
            }
        }
        lemma_codes_below_stable(s, bound, higher - 1);
    }
}

} // verus!
