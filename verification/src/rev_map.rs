//! The dictionary store: an immutable mapping from integer code to category
//! string, either local to one column or global (shared and merged across
//! columns, where distinct codes may alias the same value).

use vstd::prelude::*;

use crate::CategoricalError;

verus! {

/// An immutable dictionary mapping integer codes to category strings.
///
/// - `Local`: code `i` denotes the `i`-th category; valid codes are
///   `[0, categories.len())`.
/// - `Global`: a column's codes are the (sparse, sorted) `keys`; key
///   `keys[i]` maps to the global code `gcodes[i]`, which indexes
///   `categories`.  Distinct keys may map to global codes that index equal
///   strings: that aliasing is the central hazard `n_unique` must handle.
pub enum RevMapping {
    Local { categories: Vec<String> },
    Global { keys: Vec<u32>, gcodes: Vec<u32>, categories: Vec<String>, generation: u64 },
}

impl RevMapping {
    /// The ordered category strings, as mathematical sequences.
    pub open spec fn cats(&self) -> Seq<Seq<char>> {
        match self {
            RevMapping::Local { categories } => categories.deep_view(),
            RevMapping::Global { categories, .. } => categories.deep_view(),
        }
    }

    /// The live keys of a global dictionary; empty for a local one.
    pub open spec fn keys_view(&self) -> Seq<u32> {
        match self {
            RevMapping::Local { .. } => Seq::empty(),
            RevMapping::Global { keys, .. } => keys@,
        }
    }

    /// The global codes of a global dictionary; empty for a local one.
    pub open spec fn gcodes_view(&self) -> Seq<u32> {
        match self {
            RevMapping::Local { .. } => Seq::empty(),
            RevMapping::Global { gcodes, .. } => gcodes@,
        }
    }

    /// Well-formedness: a global dictionary's keys are strictly increasing
    /// (so unique), each key has a global code, and every global code
    /// indexes the categories.  Sizes are bounded so that the bitset kernel
    /// can always cover the code domain.
    pub open spec fn wf(&self) -> bool {
        match self {
            RevMapping::Local { categories } => {
                categories@.len() + 1 < u32::MAX as int
                && (forall|i: int, j: int|
                    0 <= i < j < categories@.len() ==> categories.deep_view()[i]
                        != categories.deep_view()[j])
            },
            RevMapping::Global { keys, gcodes, categories, .. } => {
                keys@.len() == gcodes@.len()
                && keys@.len() + 1 < u32::MAX as int
                && (forall|i: int, j: int| 0 <= i < j < keys@.len() ==> keys@[i] < keys@[j])
                && (forall|i: int|
                    0 <= i < gcodes@.len() ==> (gcodes@[i] as int) < categories@.len())
                && (keys@.len() > 0 ==> (keys@.last() as int) - (keys@.first() as int) + 1
                    < u32::MAX as int)
            },
        }
    }

    /// The dictionary's current category count: the number of categories of
    /// a local dictionary, the number of live keys of a global one.
    pub open spec fn spec_len(&self) -> int {
        match self {
            RevMapping::Local { categories } => categories@.len() as int,
            RevMapping::Global { keys, .. } => keys@.len() as int,
        }
    }

    /// Whether `c` is a valid physical code for this dictionary.
    pub open spec fn valid_code(&self, c: u32) -> bool {
        match self {
            RevMapping::Local { categories } => (c as int) < categories@.len(),
            RevMapping::Global { keys, .. } => keys@.contains(c),
        }
    }

    /// The position of key `c` among a global dictionary's keys.
    pub open spec fn key_index_of(&self, c: u32) -> int {
        choose|i: int| 0 <= i < self.keys_view().len() && self.keys_view()[i] == c
    }

    /// The category string a valid code denotes.
    pub open spec fn value_of(&self, c: u32) -> Seq<char> {
        match self {
            RevMapping::Local { .. } => self.cats()[c as int],
            RevMapping::Global { .. } => self.cats()[self.gcodes_view()[self.key_index_of(c)] as int],
        }
    }

    /// The set of category strings that a set of codes denotes.  Two codes
    /// aliasing the same string contribute one member.
    pub open spec fn value_set_of(&self, cs: Set<u32>) -> Set<Seq<char>> {
        Set::new(|v: Seq<char>| exists|c: u32| #[trigger] cs.contains(c) && self.value_of(c) == v)
    }

    /// The full, ascending domain of codes: `0..len` for a local dictionary,
    /// the sorted live keys for a global one.
    pub open spec fn domain_codes(&self) -> Seq<u32> {
        match self {
            RevMapping::Local { categories } => Seq::new(categories@.len(), |i: int| i as u32),
            RevMapping::Global { keys, .. } => keys@,
        }
    }

    /// An enum domain is fixed and exhaustive: a global enum dictionary's
    /// live keys are exactly `0..len`, so codes directly index the domain.
    pub open spec fn enum_shaped(&self) -> bool {
        match self {
            RevMapping::Local { .. } => true,
            RevMapping::Global { keys, .. } => forall|i: int|
                0 <= i < keys@.len() ==> keys@[i] == i as u32,
        }
    }

    /// Builds a local dictionary, validating well-formedness: a category
    /// list small enough for codes to index, with pairwise distinct
    /// strings — aliasing is the preserve of merged global dictionaries.
    pub fn new_local(categories: Vec<String>) -> (r: Result<Self, CategoricalError>)
        ensures
            r is Ok <==> (RevMapping::Local { categories }).wf(),
            r matches Ok(m) ==> m == (RevMapping::Local { categories }) && m.wf(),
            r matches Err(e) ==> ((e == CategoricalError::OutOfRangeCode && categories@.len() + 1
                >= u32::MAX as int) || (e == CategoricalError::DuplicateCategory && categories@.len()
                + 1 < u32::MAX as int)),
    {
        if categories.len() as u64 >= u32::MAX as u64 - 1 {
            return Err(CategoricalError::OutOfRangeCode);
        }
        let n = categories.len();
        let mut i: usize = 0;
        while i < n
            invariant
                n == categories@.len(),
                categories@.len() + 1 < u32::MAX as int,
                i <= n,
                forall|a: int, b: int|
                    0 <= a < b < n && a < i ==> categories.deep_view()[a] != categories.deep_view()[
                    b],
            decreases n - i,
        {
            let mut j: usize = i + 1;
            while j < n
                invariant
                    n == categories@.len(),
                    categories@.len() + 1 < u32::MAX as int,
                    i < n,
                    j <= n,
                    i < j,
                    forall|b: int| i < b < j ==> categories.deep_view()[i as int]
                        != categories.deep_view()[b],
                decreases n - j,
            {
                if categories[i] == categories[j] {
                    proof {
                        assert(categories.deep_view()[i as int] == categories@[i as int]@);
                        assert(categories.deep_view()[j as int] == categories@[j as int]@);
                    }
                    return Err(CategoricalError::DuplicateCategory);
                }
                proof {
                    assert(categories.deep_view()[i as int] == categories@[i as int]@);
                    assert(categories.deep_view()[j as int] == categories@[j as int]@);
                }
                j += 1;
            }
            i += 1;
        }
        Ok(RevMapping::Local { categories })
    }

    /// Builds a global dictionary, validating well-formedness: as many
    /// global codes as keys, keys strictly increasing and of bounded spread,
    /// every global code indexing the categories.
    pub fn new_global(
        keys: Vec<u32>,
        gcodes: Vec<u32>,
        categories: Vec<String>,
        generation: u64,
    ) -> (r: Result<Self, CategoricalError>)
        ensures
            r matches Ok(m) ==> m == (RevMapping::Global { keys, gcodes, categories, generation })
                && m.wf(),
            r is Ok <==> (RevMapping::Global { keys, gcodes, categories, generation }).wf(),
            r matches Err(e) ==> e == CategoricalError::OutOfRangeCode,
    {
        if keys.len() != gcodes.len() || keys.len() as u64 >= u32::MAX as u64 - 1 {
            return Err(CategoricalError::OutOfRangeCode);
        }
        let n = keys.len();
        let mut i: usize = 0;
        while i < n
            invariant
                n == keys@.len(),
                n == gcodes@.len(),
                i <= n,
                forall|a: int, b: int| 0 <= a < b < i + 1 && b < n ==> keys@[a] < keys@[b],
                forall|a: int| 0 <= a < i ==> (gcodes@[a] as int) < categories@.len(),
            decreases n - i,
        {
            if i + 1 < n && keys[i] >= keys[i + 1] {
                return Err(CategoricalError::OutOfRangeCode);
            }
            if gcodes[i] as usize >= categories.len() {
                return Err(CategoricalError::OutOfRangeCode);
            }
            i += 1;
        }
        if n > 0 && (keys[n - 1] - keys[0]) as u64 >= u32::MAX as u64 - 1 {
            return Err(CategoricalError::OutOfRangeCode);
        }
        Ok(RevMapping::Global { keys, gcodes, categories, generation })
    }

    /// The dictionary's current category count.
    pub fn len(&self) -> (n: usize)
        ensures
            n as int == self.spec_len(),
    {
        match self {
            RevMapping::Local { categories } => categories.len(),
            RevMapping::Global { keys, .. } => keys.len(),
        }
    }

    /// Whether this is a global (merged) dictionary.
    pub fn is_global(&self) -> (b: bool)
        ensures
            b == (self is Global),
    {
        match self {
            RevMapping::Local { .. } => false,
            RevMapping::Global { .. } => true,
        }
    }

    /// Whether `c` is a valid physical code for this dictionary.
    pub fn check_code(&self, c: u32) -> (b: bool)
        requires
            self.wf(),
        ensures
            b == self.valid_code(c),
    {
        match self {
            RevMapping::Local { categories } => (c as usize) < categories.len(),
            RevMapping::Global { keys, .. } => {
                let mut i: usize = 0;
                let n = keys.len();
                while i < n
                    invariant
                        self is Global,
                        keys@ == self.keys_view(),
                        n == keys@.len(),
                        i <= n,
                        forall|j: int| 0 <= j < i ==> keys@[j] != c,
                    decreases n - i,
                {
                    if keys[i] == c {
                        proof {
                            assert((i as int) < keys@.len() && keys@[i as int] == c);
                            assert(keys@.contains(c));
                        }
                        return true;
                    }
                    i += 1;
                }
                proof {
                    if keys@.contains(c) {
                        let k = choose|k: int| 0 <= k < keys@.len() && keys@[k] == c;
                        assert(keys@[k] != c);
                    }
                }
                false
            },
        }
    }

    /// Adding one code to a code set adds exactly that code's string to the
    /// denoted value set.
    pub proof fn lemma_value_set_insert(&self, cs: Set<u32>, c: u32)
        ensures
            self.value_set_of(cs.insert(c)) == self.value_set_of(cs).insert(self.value_of(c)),
    {
        let lhs = self.value_set_of(cs.insert(c));
        let rhs = self.value_set_of(cs).insert(self.value_of(c));
        assert forall|v: Seq<char>| lhs.contains(v) implies rhs.contains(v) by {
            let w = choose|w: u32| #[trigger] cs.insert(c).contains(w) && self.value_of(w) == v;
            if w != c {
                assert(cs.contains(w));
            }
        }
        assert forall|v: Seq<char>| rhs.contains(v) implies lhs.contains(v) by {
            if v == self.value_of(c) {
                assert(cs.insert(c).contains(c));
            } else {
                let w = choose|w: u32| #[trigger] cs.contains(w) && self.value_of(w) == v;
                assert(cs.insert(c).contains(w));
            }
        }
        assert(lhs =~= rhs);
    }

    /// Value-level deduplication can only merge code-level groups: a code
    /// set denotes at most as many distinct strings as it has codes.
    pub proof fn lemma_value_set_card(&self, cs: Set<u32>)
        requires
            cs.finite(),
        ensures
            self.value_set_of(cs).finite(),
            self.value_set_of(cs).len() <= cs.len(),
        decreases cs.len(),
    {
        broadcast use vstd::set::group_set_axioms;

        if cs.len() == 0 {
            cs.lemma_len0_is_empty();
            assert(self.value_set_of(cs) =~= Set::<Seq<char>>::empty());
        } else {
            let c = cs.choose();
            assert(cs.contains(c));
            let rem = cs.remove(c);
            self.lemma_value_set_card(rem);
            self.lemma_value_set_insert(rem, c);
            assert(rem.insert(c) =~= cs);
            vstd::set::axiom_set_insert_len(self.value_set_of(rem), self.value_of(c));
        }
    }

    /// Under a local dictionary with pairwise distinct categories, distinct
    /// valid codes denote distinct strings: the value set is exactly as
    /// large as the code set.
    pub proof fn lemma_value_set_card_local(&self, cs: Set<u32>)
        requires
            self is Local,
            self.wf(),
            cs.finite(),
            forall|c: u32| cs.contains(c) ==> self.valid_code(c),
        ensures
            self.value_set_of(cs).finite(),
            self.value_set_of(cs).len() == cs.len(),
        decreases cs.len(),
    {
        broadcast use vstd::set::group_set_axioms;

        if cs.len() == 0 {
            cs.lemma_len0_is_empty();
            assert(self.value_set_of(cs) =~= Set::<Seq<char>>::empty());
        } else {
            let c = cs.choose();
            assert(cs.contains(c));
            let rem = cs.remove(c);
            self.lemma_value_set_card_local(rem);
            self.lemma_value_set_insert(rem, c);
            assert(rem.insert(c) =~= cs);
            assert(!self.value_set_of(rem).contains(self.value_of(c))) by {
                if self.value_set_of(rem).contains(self.value_of(c)) {
                    let w = choose|w: u32|
                        #[trigger] rem.contains(w) && self.value_of(w) == self.value_of(c);
                    assert(w != c);
                    assert(self.valid_code(w) && self.valid_code(c));
                    if w < c {
                        assert(self.cats()[w as int] != self.cats()[c as int]);
                    } else {
                        assert(self.cats()[c as int] != self.cats()[w as int]);
                    }
                }
            }
            vstd::set::axiom_set_insert_len(self.value_set_of(rem), self.value_of(c));
        }
    }

    /// Looks the category string of a valid code up, resolving a global
    /// dictionary's key through its global code.
    pub fn value_of_code(&self, c: u32) -> (v: &String)
        requires
            self.wf(),
            self.valid_code(c),
        ensures
            v@ == self.value_of(c),
    {
        match self {
            RevMapping::Local { categories } => &categories[c as usize],
            RevMapping::Global { keys, gcodes, categories, .. } => {
                let mut i: usize = 0;
                loop
                    invariant
                        self is Global,
                        self.wf(),
                        self.valid_code(c),
                        keys@ == self.keys_view(),
                        gcodes@ == self.gcodes_view(),
                        categories.deep_view() == self.cats(),
                        i <= keys@.len(),
                        forall|j: int| 0 <= j < i ==> keys@[j] != c,
                    decreases keys@.len() - i,
                {
                    proof {
                        assert(keys@.contains(c));
                        let k = choose|k: int| 0 <= k < keys@.len() && keys@[k] == c;
                        assert(k >= i);
                    }
                    if keys[i] == c {
                        proof {
                            let j = self.key_index_of(c);
                            assert(0 <= j < keys@.len() && keys@[j] == c);
                            if j != i {
                                if j < i {
                                    assert(keys@[j] < keys@[i as int]);
                                } else {
                                    assert(keys@[i as int] < keys@[j]);
                                }
                            }
                            assert(j == i as int);
                            assert((gcodes@[i as int] as int) < categories.deep_view().len());
                            assert(categories.deep_view().len() == categories@.len());
                            let g = gcodes@[i as int] as int;
                            assert(self.value_of(c) == self.cats()[g]);
                            assert(categories.deep_view()[g] == categories@[g]@);
                        }
                        return &categories[gcodes[i] as usize];
                    }
                    i += 1;
                }
            },
        }
    }
}

} // verus!
