//! The ranged unique kernel: a stateful accumulator consuming one chunk of
//! nullable codes at a time, finalized into the ascending distinct codes or
//! a distinct count.
//!
//! Two strategies share the append/finalize contract: the domain-bitset
//! strategy deduplicates at code granularity over a bounded inclusive range,
//! and the dictionary-level strategy reduces the surviving codes a second
//! time at value granularity, collapsing codes that alias the same category
//! string.

use std::sync::Arc;

use vstd::prelude::*;

use crate::codes::{
    code_set, codes_below, has_null, lemma_code_set_push, lemma_codes_below_props,
    lemma_codes_below_stable, lemma_unique_code_seq_set, unique_code_seq,
};
use crate::rev_map::RevMapping;

verus! {

/// Domain-bitset strategy: one flag per code of the inclusive range
/// `[min, min + seen.len())`, plus one reserved flag for null entries.
pub struct PrimitiveRangedUniqueState {
    /// Lowest code of the covered range.
    pub min: u32,
    /// `seen[i]` records that code `min + i` occurred.
    pub seen: Vec<bool>,
    /// Records that a null entry occurred.
    pub seen_null: bool,
}

impl PrimitiveRangedUniqueState {
    /// The range is non-empty, its codes fit `u32`, and its size leaves
    /// room for the count of distinct codes plus a null.
    pub open spec fn wf(&self) -> bool {
        &&& 1 <= self.seen@.len()
        &&& self.seen@.len() < u32::MAX as int
        &&& self.min as int + self.seen@.len() <= 0x1_0000_0000
    }

    /// Whether code `c` lies in the covered range.
    pub open spec fn covers(&self, c: u32) -> bool {
        self.min <= c && (c as int) < self.min as int + self.seen@.len()
    }

    /// The set of codes recorded so far.
    pub open spec fn seen_set(&self) -> Set<u32> {
        Set::new(|c: u32| self.covers(c) && self.seen@[c as int - self.min as int])
    }

    /// A fresh accumulator over the inclusive code range `[min, max]`.
    pub fn new(min: u32, max: u32) -> (s: Self)
        requires
            min <= max,
            max as int - min as int + 1 < u32::MAX as int,
        ensures
            s.wf(),
            s.min == min,
            s.seen@.len() == max as int - min as int + 1,
            s.seen_set() == Set::<u32>::empty(),
            !s.seen_null,
    {
        let len: usize = (max - min) as usize + 1;
        let mut seen: Vec<bool> = Vec::new();
        while seen.len() < len
            invariant
                seen@.len() <= len,
                forall|i: int| 0 <= i < seen@.len() ==> !seen@[i],
            decreases len - seen@.len(),
        {
            seen.push(false);
        }
        let s = PrimitiveRangedUniqueState { min, seen, seen_null: false };
        proof {
            assert(s.seen_set() =~= Set::<u32>::empty());
        }
        s
    }

    /// Records one chunk: sets the flag of every non-null code, the null
    /// flag if a null occurs.  Duplicates cost nothing beyond the scan.
    pub fn append(&mut self, chunk: &Vec<Option<u32>>)
        requires
            old(self).wf(),
            forall|i: int|
                0 <= i < chunk@.len() ==> (#[trigger] chunk@[i] matches Some(c) ==> old(
                self).covers(c)),
        ensures
            final(self).wf(),
            final(self).min == old(self).min,
            final(self).seen@.len() == old(self).seen@.len(),
            final(self).seen_set() == old(self).seen_set() + code_set(chunk@),
            final(self).seen_null == (old(self).seen_null || has_null(chunk@)),
    {
        let n = chunk.len();
        let mut i: usize = 0;
        while i < n
            invariant
                self.wf(),
                self.min == old(self).min,
                self.seen@.len() == old(self).seen@.len(),
                n == chunk@.len(),
                i <= n,
                forall|j: int|
                    0 <= j < chunk@.len() ==> (#[trigger] chunk@[j] matches Some(c) ==> old(
                    self).covers(c)),
                self.seen_set() == old(self).seen_set() + code_set(chunk@.take(i as int)),
                self.seen_null == (old(self).seen_null || has_null(chunk@.take(i as int))),
            decreases n - i,
        {
            proof {
                assert(chunk@.take(i + 1) == chunk@.take(i as int).push(chunk@[i as int]));
                lemma_code_set_push(chunk@.take(i as int), chunk@[i as int]);
            }
            let ghost pre = *self;
            match chunk[i] {
                Some(c) => {
                    let idx = (c - self.min) as usize;
                    self.seen.set(idx, true);
                    proof {
                        assert(self.seen_set() =~= pre.seen_set().insert(c));
                        assert(pre.seen_set().insert(c) =~= old(self).seen_set() + code_set(
                            chunk@.take(i + 1),
                        ));
                    }
                },
                None => {},
            }
            if chunk[i].is_none() {
                self.seen_null = true;
            }
            i += 1;
        }
        proof {
            assert(chunk@.take(n as int) == chunk@);
        }
    }

    /// Walks the flags once and emits the ascending distinct codes, with a
    /// trailing null marker if a null was recorded.
    pub fn finalize_unique(self) -> (out: Vec<Option<u32>>)
        requires
            self.wf(),
        ensures
            out@ == unique_code_seq(self.seen_set(), self.seen_null),
    {
        let ghost s = self.seen_set();
        let mut out: Vec<Option<u32>> = Vec::new();
        let n = self.seen.len();
        let mut i: usize = 0;
        proof {
            lemma_codes_below_props(s, self.min as int);
            if codes_below(s, self.min as int).len() > 0 {
                assert(s.contains(codes_below(s, self.min as int)[0]));
            }
            assert(codes_below(s, self.min as int) =~= Seq::<u32>::empty());
            assert(out@ =~= codes_below(s, self.min as int).map_values(|c: u32| Some(c)));
        }
        while i < n
            invariant
                self.wf(),
                s == self.seen_set(),
                n == self.seen@.len(),
                i <= n,
                out@ == codes_below(s, self.min as int + i as int).map_values(
                    |c: u32| Some(c),
                ),
            decreases n - i,
        {
            let b = self.seen[i];
            proof {
                let c = (self.min + i) as u32;
                assert(s.contains(c) == self.seen@[i as int]);
                if self.seen@[i as int] {
                    assert(codes_below(s, self.min as int + i as int + 1) == codes_below(
                        s,
                        self.min as int + i as int,
                    ).push(c));
                    assert(codes_below(s, self.min as int + i as int + 1).map_values(
                        |d: u32| Some(d),
                    ) =~= codes_below(s, self.min as int + i as int).map_values(
                        |d: u32| Some(d),
                    ).push(Some(c)));
                } else {
                    assert(codes_below(s, self.min as int + i as int + 1) == codes_below(
                        s,
                        self.min as int + i as int,
                    ));
                }
            }
            if b {
                out.push(Some(self.min + i as u32));
            }
            i += 1;
        }
        proof {
            assert forall|c: u32| s.contains(c) implies (c as int) < self.min as int
                + n as int by {}
            lemma_codes_below_stable(s, self.min as int + n as int, 0x1_0000_0000);
        }
        if self.seen_null {
            out.push(None);
            proof {
                assert(out@ =~= unique_code_seq(s, true));
            }
        } else {
            proof {
                assert(out@ =~= unique_code_seq(s, false));
            }
        }
        out
    }

    /// The recorded distinct count: the number of set flags, plus one if a
    /// null was recorded.
    pub fn finalize_n_unique(&self) -> (n: usize)
        requires
            self.wf(),
        ensures
            n as int == self.seen_set().len() + if self.seen_null {
                1int
            } else {
                0int
            },
    {
        let ghost s = self.seen_set();
        let mut count: usize = 0;
        let ghost mut g: Set<u32> = Set::empty();
        let len = self.seen.len();
        let mut i: usize = 0;
        while i < len
            invariant
                self.wf(),
                s == self.seen_set(),
                len == self.seen@.len(),
                i <= len,
                g.finite(),
                count == g.len(),
                count <= i,
                g == Set::new(
                    |c: u32| self.covers(c) && (c as int) < self.min as int + i as int
                        && self.seen@[c as int - self.min as int],
                ),
            decreases len - i,
        {
            let ghost pre = g;
            if self.seen[i] {
                proof {
                    let c = (self.min + i) as u32;
                    assert(!pre.contains(c));
                    vstd::set::axiom_set_insert_len(pre, c);
                    g = pre.insert(c);
                }
                count += 1;
            }
            proof {
                assert(g =~= Set::new(
                    |c: u32| self.covers(c) && (c as int) < self.min as int + i as int + 1
                        && self.seen@[c as int - self.min as int],
                ));
            }
            i += 1;
        }
        proof {
            assert(g =~= s);
        }
        if self.seen_null {
            count + 1
        } else {
            count
        }
    }
}

/// Dictionary-level strategy: accumulates codes exactly as the bitset does,
/// but finalization re-maps each surviving code to its category string and
/// deduplicates again at value level, so that aliasing codes count once.
pub struct DictionaryRangedUniqueState {
    /// Shared handle to the dictionary whose values are counted.
    pub rev_map: Arc<RevMapping>,
    /// The code-level accumulator, covering every valid code.
    pub keys: PrimitiveRangedUniqueState,
}

impl DictionaryRangedUniqueState {
    /// The dictionary store this state resolves codes against.
    pub open spec fn rm(&self) -> RevMapping {
        *self.rev_map
    }

    pub open spec fn wf(&self) -> bool {
        &&& self.rm().wf()
        &&& self.keys.wf()
        &&& forall|c: u32| self.rm().valid_code(c) ==> self.keys.covers(c)
        &&& forall|c: u32| self.keys.seen_set().contains(c) ==> self.rm().valid_code(c)
    }

    /// A fresh accumulator whose code range covers every valid code of the
    /// dictionary.
    pub fn new(rev_map: Arc<RevMapping>) -> (s: Self)
        requires
            (*rev_map).wf(),
        ensures
            s.wf(),
            s.rm() == *rev_map,
            s.keys.seen_set() == Set::<u32>::empty(),
            !s.keys.seen_null,
    {
        let (min, max) = code_bounds(&rev_map);
        let keys = PrimitiveRangedUniqueState::new(min, max);
        DictionaryRangedUniqueState { rev_map, keys }
    }

    /// Records one chunk of codes at code granularity.
    pub fn append(&mut self, chunk: &Vec<Option<u32>>)
        requires
            old(self).wf(),
            forall|i: int|
                0 <= i < chunk@.len() ==> (#[trigger] chunk@[i] matches Some(c) ==> old(
                self).rm().valid_code(c)),
        ensures
            final(self).wf(),
            final(self).rm() == old(self).rm(),
            final(self).keys.seen_set() == old(self).keys.seen_set() + code_set(chunk@),
            final(self).keys.seen_null == (old(self).keys.seen_null || has_null(chunk@)),
    {
        self.keys.append(chunk);
        proof {
            assert forall|c: u32| self.keys.seen_set().contains(c) implies self.rm().valid_code(
                c,
            ) by {
                if !old(self).keys.seen_set().contains(c) {
                    assert(code_set(chunk@).contains(c));
                    let i = choose|i: int| 0 <= i < chunk@.len() && chunk@[i] == Some(c);
                    assert(chunk@[i] matches Some(d) && old(self).rm().valid_code(d));
                }
            }
        }
    }

    /// Reduces the recorded codes to distinct codes, re-maps each surviving
    /// code to its category string, deduplicates at value level, and counts;
    /// a recorded null counts as one more.
    pub fn finalize_n_unique(self) -> (n: usize)
        requires
            self.wf(),
        ensures
            n as int == self.rm().value_set_of(self.keys.seen_set()).len() + if self
                .keys.seen_null {
                1int
            } else {
                0int
            },
    {
        let ghost rm = self.rm();
        let ghost s = self.keys.seen_set();
        let DictionaryRangedUniqueState { rev_map, keys } = self;
        let with_null = keys.seen_null;
        let uniq = keys.finalize_unique();
        proof {
            lemma_unique_code_seq_set(s, with_null);
            assert forall|i: int|
                0 <= i < uniq@.len() implies (#[trigger] uniq@[i] matches Some(c)
                ==> rm.valid_code(c)) by {
                match uniq@[i] {
                    Some(c) => {
                        assert(uniq@.contains(Some(c)));
                        assert(code_set(uniq@).contains(c));
                    },
                    None => {},
                }
            }
        }
        let mut reps: Vec<u32> = Vec::new();
        let mut count: usize = 0;
        let ghost mut vset: Set<Seq<char>> = Set::empty();
        let n = uniq.len();
        let mut i: usize = 0;
        proof {
            if with_null {
                assert(uniq@[n - 1] is None);
            }
        }
        while i < n
            invariant
                rm == *rev_map,
                rm.wf(),
                n == uniq@.len(),
                i <= n,
                forall|j: int|
                    0 <= j < uniq@.len() ==> (#[trigger] uniq@[j] matches Some(c)
                        ==> rm.valid_code(c)),
                forall|j: int| 0 <= j < reps@.len() ==> rm.valid_code(#[trigger] reps@[j]),
                vset.finite(),
                count == vset.len(),
                count <= i,
                vset == rm.value_set_of(code_set(uniq@.take(i as int))),
                with_null ==> n > 0 && uniq@[n - 1] is None,
                with_null && i == n ==> count < n,
                forall|v: Seq<char>|
                    #[trigger] vset.contains(v) ==> exists|j: int|
                        0 <= j < reps@.len() && rm.value_of(reps@[j]) == v,
                forall|j: int| 0 <= j < reps@.len() ==> vset.contains(rm.value_of(#[trigger] reps@[j])),
            decreases n - i,
        {
            proof {
                assert(uniq@.take(i + 1) == uniq@.take(i as int).push(uniq@[i as int]));
                lemma_code_set_push(uniq@.take(i as int), uniq@[i as int]);
            }
            match uniq[i] {
                Some(c) => {
                    proof {
                        rm.lemma_value_set_insert(code_set(uniq@.take(i as int)), c);
                    }
                    let cv = rev_map.value_of_code(c);
                    let mut found = false;
                    let m = reps.len();
                    let mut j: usize = 0;
                    while j < m && !found
                        invariant
                            rm == *rev_map,
                            rm.wf(),
                            rm.valid_code(c),
                            cv@ == rm.value_of(c),
                            m == reps@.len(),
                            j <= m,
                            forall|k: int|
                                0 <= k < reps@.len() ==> rm.valid_code(#[trigger] reps@[k]),
                            found ==> exists|k: int|
                                0 <= k < reps@.len() && rm.value_of(#[trigger] reps@[k]) == cv@,
                            !found ==> forall|k: int|
                                0 <= k < j ==> rm.value_of(#[trigger] reps@[k]) != cv@,
                        decreases m - j + if found {
                            0int
                        } else {
                            1int
                        },
                    {
                        let rv = rev_map.value_of_code(reps[j]);
                        if *rv == *cv {
                            found = true;
                            proof {
                                assert(rm.value_of(reps@[j as int]) == cv@);
                            }
                        } else {
                            j += 1;
                        }
                    }
                    let ghost pre = vset;
                    let ghost old_reps = reps@;
                    if !found {
                        proof {
                            assert(!pre.contains(rm.value_of(c))) by {
                                if pre.contains(rm.value_of(c)) {
                                    let k = choose|k: int|
                                        0 <= k < reps@.len() && rm.value_of(
                                            #[trigger] reps@[k],
                                        ) == rm.value_of(c);
                                }
                            }
                            vstd::set::axiom_set_insert_len(pre, rm.value_of(c));
                            vset = pre.insert(rm.value_of(c));
                        }
                        reps.push(c);
                        count += 1;
                        proof {
                            assert(reps@ == old_reps.push(c));
                            assert forall|v: Seq<char>| #[trigger] vset.contains(v) implies exists|
                                k: int,
                            | 0 <= k < reps@.len() && rm.value_of(reps@[k]) == v by {
                                if v == rm.value_of(c) {
                                    assert(reps@[reps@.len() - 1] == c);
                                    assert(rm.value_of(reps@[reps@.len() - 1]) == v);
                                } else {
                                    let k = choose|k: int|
                                        0 <= k < old_reps.len() && rm.value_of(
                                            #[trigger] old_reps[k],
                                        ) == v;
                                    assert(reps@[k] == old_reps[k]);
                                    assert(rm.value_of(reps@[k]) == v);
                                }
                            }
                        }
                    } else {
                        proof {
                            assert(pre.contains(rm.value_of(c))) by {
                                let k = choose|k: int|
                                    0 <= k < reps@.len() && rm.value_of(#[trigger] reps@[k]) == cv@;
                                assert(pre.contains(rm.value_of(reps@[k])));
                            }
                            vstd::set::axiom_set_insert_len(pre, rm.value_of(c));
                            vset = pre.insert(rm.value_of(c));
                            assert(vset =~= pre);
                        }
                    }
                },
                None => {},
            }
            i += 1;
        }
        proof {
            assert(uniq@.take(n as int) == uniq@);
            assert(code_set(uniq@) == s);
        }
        if with_null {
            count + 1
        } else {
            count
        }
    }
}

/// An inclusive code range covering every valid code of the dictionary:
/// `[0, len]` for a local dictionary, the observed key span for a global
/// one (whose live keys need not be contiguous or start at zero).
fn code_bounds(rev_map: &RevMapping) -> (b: (u32, u32))
    requires
        rev_map.wf(),
    ensures
        b.0 <= b.1,
        b.1 as int - b.0 as int + 1 < u32::MAX as int,
        forall|c: u32| rev_map.valid_code(c) ==> b.0 <= c <= b.1,
{
    match rev_map {
        RevMapping::Local { categories } => (0u32, categories.len() as u32),
        RevMapping::Global { keys, .. } => {
            if keys.len() == 0 {
                (0u32, 0u32)
            } else {
                let b = (keys[0], keys[keys.len() - 1]);
                proof {
                    assert forall|c: u32| rev_map.valid_code(c) implies b.0 <= c <= b.1 by {
                        let i = choose|i: int| 0 <= i < keys@.len() && keys@[i] == c;
                        if i > 0 {
                            assert(keys@[0] < keys@[i]);
                        }
                        if i < keys@.len() - 1 {
                            assert(keys@[i] < keys@[keys@.len() - 1]);
                        }
                    }
                }
                b
            }
        },
    }
}

} // verus!
