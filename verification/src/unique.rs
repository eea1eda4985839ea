//! `unique` and `n_unique`: consult the fast-unique detector first; on a
//! miss, drive the ranged unique kernel over the column's physical codes and
//! reconstruct a result column sharing the same dictionary store.

use std::sync::Arc;

use vstd::prelude::*;

use crate::codes::{code_set, has_null, lemma_unique_code_seq_set, unique_code_seq};
use crate::column::CategoricalChunked;
use crate::kernel::{DictionaryRangedUniqueState, PrimitiveRangedUniqueState};
use crate::rev_map::RevMapping;
use crate::CategoricalError;

verus! {

impl CategoricalChunked {
    /// The codes `unique` returns: nothing for an empty column; for an enum
    /// domain, the full domain index sequence with a trailing null marker
    /// iff the column holds a null; for codes the cache already certifies
    /// duplicate-free, the codes themselves; else the ascending distinct
    /// observed codes with a trailing null marker iff the column holds a
    /// null.
    pub open spec fn unique_codes_spec(&self) -> Seq<Option<u32>> {
        if self.physical@.len() == 0 {
            Seq::empty()
        } else if self.is_enum {
            self.rm().domain_codes().map_values(|c: u32| Some(c)) + if has_null(self.physical@) {
                seq![None::<u32>]
            } else {
                Seq::<Option<u32>>::empty()
            }
        } else if self.fast_unique {
            self.physical@
        } else {
            unique_code_seq(code_set(self.physical@), has_null(self.physical@))
        }
    }

    /// What `n_unique` returns: the dictionary's category count for an enum
    /// domain; else the number of distinct category strings denoted by the
    /// observed codes, plus one if a null occurs.  The cached
    /// duplicate-freedom flag does not short-circuit here: it certifies
    /// code-level distinctness only, which says nothing about value-level
    /// aliasing.
    pub open spec fn n_unique_spec(&self) -> int {
        if self.is_enum {
            self.rm().spec_len()
        } else {
            self.rm().value_set_of(code_set(self.physical@)).len() + if has_null(
                self.physical@,
            ) {
                1int
            } else {
                0int
            }
        }
    }

    /// The distinct codes of this column, as a new column sharing the same
    /// dictionary store and flags, marked fast-unique.  Deduplication is at
    /// code granularity; aliasing codes may both survive.  An enum column
    /// canonically returns its whole domain; a column whose codes the cache
    /// certifies duplicate-free keeps them as they are.
    pub fn unique(&self) -> (r: Result<Self, CategoricalError>)
        requires
            self.wf(),
        ensures
            r is Ok,
            r matches Ok(u) ==> u.wf(),
            r matches Ok(u) ==> u.physical@ == self.unique_codes_spec(),
            r matches Ok(u) ==> u.rev_map == self.rev_map,
            r matches Ok(u) ==> u.is_enum == self.is_enum,
            r matches Ok(u) ==> u.ordering == self.ordering,
            r matches Ok(u) ==> u.fast_unique,
    {
        let cat_map = self.get_rev_map();
        if self.is_empty() {
            let out = CategoricalChunked::from_parts_unchecked(
                Vec::new(),
                cat_map.clone(),
                self.is_enum(),
                self.get_ordering(),
                true,
            );
            return Ok(out);
        }
        if self.is_enum() {
            // The canonical unique representation of the domain itself.
            let mut ca: Vec<Option<u32>> = match &**cat_map {
                RevMapping::Local { categories } => {
                    let n = categories.len();
                    let mut ca: Vec<Option<u32>> = Vec::new();
                    let mut i: usize = 0;
                    while i < n
                        invariant
                            n < u32::MAX,
                            i <= n,
                            ca@.len() == i,
                            forall|j: int| 0 <= j < i ==> ca@[j] == Some(j as u32),
                        decreases n - i,
                    {
                        ca.push(Some(i as u32));
                        i += 1;
                    }
                    ca
                },
                RevMapping::Global { keys, .. } => {
                    let n = keys.len();
                    let mut ca: Vec<Option<u32>> = Vec::new();
                    let mut i: usize = 0;
                    while i < n
                        invariant
                            n == keys@.len(),
                            i <= n,
                            ca@.len() == i,
                            forall|j: int| 0 <= j < i ==> ca@[j] == Some(keys@[j]),
                        decreases n - i,
                    {
                        ca.push(Some(keys[i]));
                        i += 1;
                    }
                    ca
                },
            };
            let ghost base = ca@;
            proof {
                assert(base =~= self.rm().domain_codes().map_values(|c: u32| Some(c)));
                assert forall|i: int, j: int| 0 <= i < j < base.len() implies base[i]
                    != base[j] by {
                    let d = self.rm().domain_codes();
                    if self.rm() is Global {
                        assert(d[i] < d[j]);
                    } else {
                        assert(d[i] == i as u32 && d[j] == j as u32);
                    }
                }
                assert forall|i: int|
                    0 <= i < base.len() implies (#[trigger] base[i] matches Some(c)
                    ==> self.rm().valid_code(c)) by {
                    match self.rm() {
                        RevMapping::Local { .. } => {},
                        RevMapping::Global { .. } => {
                            assert(self.rm().keys_view().contains(self.rm().keys_view()[i]));
                        },
                    }
                }
            }
            if self.has_null_entry() {
                ca.push(None);
            }
            proof {
                assert(ca@ =~= self.unique_codes_spec());
                assert forall|i: int, j: int| 0 <= i < j < ca@.len() implies ca@[i] != ca@[j] by {
                    if j >= base.len() {
                        assert(ca@[j] == None::<u32>);
                        assert(base[i] matches Some(c) ==> base[i] != None::<u32>);
                        let d = self.rm().domain_codes();
                        assert(base[i] == Some(d[i]));
                    }
                }
                assert forall|i: int|
                    0 <= i < ca@.len() implies (#[trigger] ca@[i] matches Some(c)
                    ==> self.rm().valid_code(c)) by {
                    if i < base.len() {
                        assert(base[i] matches Some(c) ==> self.rm().valid_code(c));
                    } else {
                        assert(ca@[i] == None::<u32>);
                    }
                }
            }
            let mut out = CategoricalChunked::from_parts_unchecked(
                ca,
                cat_map.clone(),
                self.is_enum(),
                self.get_ordering(),
                false,
            );
            out.mark_fast_unique();
            Ok(out)
        } else if self.can_fast_unique() {
            // The cached flag certifies the codes duplicate-free already:
            // keep them exactly as they are.
            let n = self.physical.len();
            let mut ca: Vec<Option<u32>> = Vec::new();
            let mut i: usize = 0;
            while i < n
                invariant
                    n == self.physical@.len(),
                    i <= n,
                    ca@ == self.physical@.take(i as int),
                decreases n - i,
            {
                let x = self.physical[i];
                proof {
                    assert(self.physical@.take(i + 1) == self.physical@.take(i as int).push(x));
                }
                ca.push(x);
                i += 1;
            }
            proof {
                assert(self.physical@.take(n as int) == self.physical@);
            }
            let mut out = CategoricalChunked::from_parts_unchecked(
                ca,
                cat_map.clone(),
                self.is_enum(),
                self.get_ordering(),
                false,
            );
            out.mark_fast_unique();
            Ok(out)
        } else {
            let mut state = match &**cat_map {
                RevMapping::Global { keys, .. } => {
                    if keys.len() == 0 {
                        PrimitiveRangedUniqueState::new(0, 0)
                    } else {
                        PrimitiveRangedUniqueState::new(keys[0], keys[keys.len() - 1])
                    }
                },
                RevMapping::Local { categories } => {
                    PrimitiveRangedUniqueState::new(0, categories.len() as u32)
                },
            };
            proof {
                assert forall|c: u32| self.rm().valid_code(c) implies state.covers(c) by {
                    match self.rm() {
                        RevMapping::Local { .. } => {},
                        RevMapping::Global { .. } => {
                            let k = self.rm().keys_view();
                            let i = choose|i: int| 0 <= i < k.len() && k[i] == c;
                            if i > 0 {
                                assert(k[0] < k[i]);
                            }
                            if i < k.len() - 1 {
                                assert(k[i] < k[k.len() - 1]);
                            }
                        },
                    }
                }
            }
            state.append(self.physical());
            proof {
                assert(state.seen_set() =~= code_set(self.physical@));
            }
            let uniq = state.finalize_unique();
            proof {
                assert(uniq@ == unique_code_seq(code_set(self.physical@), has_null(
                    self.physical@,
                )));
                lemma_unique_code_seq_set(code_set(self.physical@), has_null(self.physical@));
                assert forall|i: int|
                    0 <= i < uniq@.len() implies (#[trigger] uniq@[i] matches Some(c)
                    ==> self.rm().valid_code(c)) by {
                    match uniq@[i] {
                        Some(c) => {
                            assert(uniq@.contains(Some(c)));
                            assert(code_set(uniq@).contains(c));
                            assert(code_set(self.physical@).contains(c));
                            let j = choose|j: int|
                                0 <= j < self.physical@.len() && self.physical@[j] == Some(c);
                            assert(self.physical@[j] matches Some(d) && self.rm().valid_code(d));
                        },
                        None => {},
                    }
                }
            }
            let mut out = CategoricalChunked::from_parts_unchecked(
                uniq,
                cat_map.clone(),
                self.is_enum(),
                self.get_ordering(),
                false,
            );
            out.mark_fast_unique();
            Ok(out)
        }
    }

    /// The number of distinct values of this column.  Only the enum domain
    /// short-circuits (to the dictionary's category count); any other
    /// column is deduplicated at value granularity, so two codes aliasing
    /// the same category string count once, and a null counts once.
    pub fn n_unique(&self) -> (r: Result<usize, CategoricalError>)
        requires
            self.wf(),
        ensures
            r is Ok,
            r matches Ok(n) ==> n as int == self.n_unique_spec(),
    {
        if self.is_enum() {
            Ok(self.get_rev_map().len())
        } else {
            let cat_map = self.get_rev_map();
            let mut state = DictionaryRangedUniqueState::new(cat_map.clone());
            state.append(self.physical());
            proof {
                assert(state.keys.seen_set() =~= code_set(self.physical@));
            }
            Ok(state.finalize_n_unique())
        }
    }
}

} // verus!
