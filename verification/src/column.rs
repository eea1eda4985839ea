//! The categorical column: nullable physical codes, a shared handle to a
//! dictionary store, the enum-domain flag, the ordering tag, and the cached
//! fast-unique flag.

use std::sync::Arc;

use vstd::prelude::*;

use crate::rev_map::RevMapping;
use crate::CategoricalError;

verus! {

/// How a categorical column compares: by physical code or by lexical value.
/// Consumed by sorting, carried through unchanged here.
#[derive(Clone, Copy, Debug, PartialEq, Eq, Structural)]
pub enum CategoricalOrdering {
    Physical,
    Lexical,
}

/// A dictionary-encoded column: nullable unsigned 32-bit codes referencing a
/// shared, immutable dictionary store.
pub struct CategoricalChunked {
    /// The physical codes; `None` is a null entry.
    pub physical: Vec<Option<u32>>,
    /// Shared handle to the dictionary store.
    pub rev_map: Arc<RevMapping>,
    /// Whether the dictionary defines a fixed, exhaustive domain.
    pub is_enum: bool,
    /// Comparison mode tag, preserved by every operation here.
    pub ordering: CategoricalOrdering,
    /// Cached guarantee that the codes hold no duplicate entry.  A stale
    /// `false` merely forces a recompute; `true` is load-bearing and is only
    /// set once duplicate-freedom is established.
    pub fast_unique: bool,
}

impl CategoricalChunked {
    /// The dictionary store this column references.
    pub open spec fn rm(&self) -> RevMapping {
        *self.rev_map
    }

    /// Every non-null code indexes the dictionary; an enum column's
    /// dictionary is enum-shaped; the fast-unique flag is never set over
    /// duplicated codes.
    pub open spec fn wf(&self) -> bool {
        &&& self.rm().wf()
        &&& forall|i: int|
            0 <= i < self.physical@.len() ==> (#[trigger] self.physical@[i] matches Some(c)
                ==> self.rm().valid_code(c))
        &&& self.is_enum ==> self.rm().enum_shaped()
        &&& self.fast_unique ==> self.physical@.no_duplicates()
    }

    /// The fast-unique detector: the codes are known duplicate-free when the
    /// cached flag says so, or when the domain is a fixed enum whose
    /// canonical unique representation is the domain index sequence.
    pub open spec fn can_fast_unique_spec(&self) -> bool {
        self.fast_unique || self.is_enum
    }

    /// Builds a column after validating every non-null code against the
    /// dictionary, and, for an enum column, the dictionary's shape.
    /// Succeeds exactly on valid input.
    pub fn from_cats_and_rev_map(
        physical: Vec<Option<u32>>,
        rev_map: Arc<RevMapping>,
        is_enum: bool,
        ordering: CategoricalOrdering,
    ) -> (r: Result<Self, CategoricalError>)
        requires
            (*rev_map).wf(),
        ensures
            r matches Ok(c) ==> c.wf() && c.physical@ == physical@ && c.rev_map == rev_map
                && c.is_enum == is_enum && c.ordering == ordering && !c.fast_unique,
            r is Ok <==> (is_enum ==> (*rev_map).enum_shaped()) && (forall|i: int|
                0 <= i < physical@.len() ==> (#[trigger] physical@[i] matches Some(c)
                    ==> (*rev_map).valid_code(c))),
            r matches Err(e) ==> ((e == CategoricalError::InvalidEnumDictionary && !(is_enum
                ==> (*rev_map).enum_shaped())) || (e == CategoricalError::OutOfRangeCode && (
            is_enum ==> (*rev_map).enum_shaped()))),
    {
        if is_enum && !check_enum_shaped(&rev_map) {
            return Err(CategoricalError::InvalidEnumDictionary);
        }
        let n = physical.len();
        let mut i: usize = 0;
        while i < n
            invariant
                (*rev_map).wf(),
                is_enum ==> (*rev_map).enum_shaped(),
                n == physical@.len(),
                i <= n,
                forall|j: int|
                    0 <= j < i ==> (#[trigger] physical@[j] matches Some(c) ==> (
                    *rev_map).valid_code(c)),
            decreases n - i,
        {
            match physical[i] {
                Some(c) => {
                    if !rev_map.check_code(c) {
                        return Err(CategoricalError::OutOfRangeCode);
                    }
                },
                None => {},
            }
            i += 1;
        }
        Ok(CategoricalChunked { physical, rev_map, is_enum, ordering, fast_unique: false })
    }

    /// Assembles a column whose parts are already known valid; reserved for
    /// internal use once the kernel itself has established validity.
    pub(crate) fn from_parts_unchecked(
        physical: Vec<Option<u32>>,
        rev_map: Arc<RevMapping>,
        is_enum: bool,
        ordering: CategoricalOrdering,
        fast_unique: bool,
    ) -> (c: Self)
        requires
            (*rev_map).wf(),
            forall|i: int|
                0 <= i < physical@.len() ==> (#[trigger] physical@[i] matches Some(c) ==> (
                *rev_map).valid_code(c)),
            is_enum ==> (*rev_map).enum_shaped(),
            fast_unique ==> physical@.no_duplicates(),
        ensures
            c.wf(),
            c.physical@ == physical@,
            c.rev_map == rev_map,
            c.is_enum == is_enum,
            c.ordering == ordering,
            c.fast_unique == fast_unique,
    {
        CategoricalChunked { physical, rev_map, is_enum, ordering, fast_unique }
    }

    /// The physical codes.
    pub fn physical(&self) -> (v: &Vec<Option<u32>>)
        ensures
            v@ == self.physical@,
    {
        &self.physical
    }

    /// The shared dictionary store handle.
    pub fn get_rev_map(&self) -> (m: &Arc<RevMapping>)
        ensures
            *m == self.rev_map,
    {
        &self.rev_map
    }

    /// Whether the dictionary defines a fixed, exhaustive domain.
    pub fn is_enum(&self) -> (b: bool)
        ensures
            b == self.is_enum,
    {
        self.is_enum
    }

    /// The comparison mode tag.
    pub fn get_ordering(&self) -> (o: CategoricalOrdering)
        ensures
            o == self.ordering,
    {
        self.ordering
    }

    /// The number of entries, nulls included.
    pub fn len(&self) -> (n: usize)
        ensures
            n == self.physical@.len(),
    {
        self.physical.len()
    }

    /// Whether the column holds no entry.
    pub fn is_empty(&self) -> (b: bool)
        ensures
            b == (self.physical@.len() == 0),
    {
        self.physical.len() == 0
    }

    /// The number of null entries.
    pub fn null_count(&self) -> (n: usize)
        ensures
            n == crate::codes::null_count_spec(self.physical@),
    {
        let mut i: usize = 0;
        let mut n: usize = 0;
        while i < self.physical.len()
            invariant
                i <= self.physical@.len(),
                n == crate::codes::null_count_spec(self.physical@.take(i as int)),
                n <= i,
            decreases self.physical@.len() - i,
        {
            proof {
                assert(self.physical@.take(i + 1) == self.physical@.take(i as int).push(
                    self.physical@[i as int],
                ));
                crate::codes::lemma_null_count_push(self.physical@.take(i as int), self.physical@[
                i as int]);
            }
            if self.physical[i].is_none() {
                n += 1;
            }
            i += 1;
        }
        proof {
            assert(self.physical@.take(self.physical@.len() as int) == self.physical@);
        }
        n
    }

    /// Whether the column holds at least one null entry.
    pub fn has_null_entry(&self) -> (b: bool)
        ensures
            b == crate::codes::has_null(self.physical@),
    {
        let n = self.physical.len();
        let mut i: usize = 0;
        while i < n
            invariant
                n == self.physical@.len(),
                i <= n,
                forall|j: int| 0 <= j < i ==> self.physical@[j] != None::<u32>,
            decreases n - i,
        {
            if self.physical[i].is_none() {
                proof {
                    assert(self.physical@[i as int] == None::<u32>);
                    assert(self.physical@.contains(None::<u32>));
                }
                return true;
            }
            i += 1;
        }
        proof {
            if crate::codes::has_null(self.physical@) {
                let j = choose|j: int|
                    0 <= j < self.physical@.len() && self.physical@[j] == None::<u32>;
            }
        }
        false
    }

    /// The fast-unique detector's pure predicate: true when the cached flag
    /// is set or the domain is a fixed enum, false otherwise (forcing the
    /// kernel path).
    pub fn can_fast_unique(&self) -> (b: bool)
        ensures
            b == self.can_fast_unique_spec(),
    {
        self.fast_unique || self.is_enum
    }

    /// Records that the codes have been established duplicate-free, letting
    /// later unique and cardinality queries skip recomputation.
    pub fn mark_fast_unique(&mut self)
        requires
            old(self).wf(),
            old(self).physical@.no_duplicates(),
        ensures
            final(self).wf(),
            final(self).fast_unique,
            final(self).physical@ == old(self).physical@,
            final(self).rev_map == old(self).rev_map,
            final(self).is_enum == old(self).is_enum,
            final(self).ordering == old(self).ordering,
    {
        self.fast_unique = true;
    }
}

/// Whether the dictionary's live codes form the contiguous domain `0..len`.
fn check_enum_shaped(rev_map: &RevMapping) -> (b: bool)
    requires
        rev_map.wf(),
    ensures
        b == rev_map.enum_shaped(),
{
    match rev_map {
        RevMapping::Local { .. } => true,
        RevMapping::Global { keys, .. } => {
            let n = keys.len();
            let mut i: usize = 0;
            while i < n
                invariant
                    rev_map is Global,
                    rev_map.wf(),
                    keys@ == rev_map.keys_view(),
                    n == keys@.len(),
                    n < u32::MAX,
                    i <= n,
                    forall|j: int| 0 <= j < i ==> keys@[j] == j as u32,
                decreases n - i,
            {
                if keys[i] != i as u32 {
                    return false;
                }
                i += 1;
            }
            true
        },
    }
}

} // verus!
