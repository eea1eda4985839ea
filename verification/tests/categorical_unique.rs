use std::sync::Arc;

use categorical_unique::column::{CategoricalChunked, CategoricalOrdering};
use categorical_unique::rev_map::RevMapping;
use categorical_unique::CategoricalError;

fn strings(names: &[&str]) -> Vec<String> {
    names.iter().map(|s| s.to_string()).collect()
}

fn local_column(
    cats: &[&str],
    codes: Vec<Option<u32>>,
    is_enum: bool,
) -> CategoricalChunked {
    let rev_map = RevMapping::new_local(strings(cats)).unwrap();
    CategoricalChunked::from_cats_and_rev_map(
        codes,
        Arc::new(rev_map),
        is_enum,
        CategoricalOrdering::Physical,
    )
    .unwrap()
}

fn global_column(
    keys: Vec<u32>,
    gcodes: Vec<u32>,
    cats: &[&str],
    codes: Vec<Option<u32>>,
    is_enum: bool,
) -> CategoricalChunked {
    let rev_map = RevMapping::new_global(keys, gcodes, strings(cats), 7).unwrap();
    CategoricalChunked::from_cats_and_rev_map(
        codes,
        Arc::new(rev_map),
        is_enum,
        CategoricalOrdering::Physical,
    )
    .unwrap()
}

#[test]
fn value_counts_orders_by_count_then_first_occurrence() {
    // dictionary ["a","b","c"], codes [0,2,2,1]: rows (c,2), (a,1), (b,1).
    let col = local_column(&["a", "b", "c"], vec![Some(0), Some(2), Some(2), Some(1)], false);
    let table = col.value_counts().unwrap();
    assert_eq!(table.values.physical(), &vec![Some(2), Some(0), Some(1)]);
    assert_eq!(table.counts, vec![2, 1, 1]);
    let rm = table.values.get_rev_map();
    let shown: Vec<String> = table
        .values
        .physical()
        .iter()
        .map(|c| rm.value_of_code(c.unwrap()).clone())
        .collect();
    assert_eq!(shown, strings(&["c", "a", "b"]));
}

#[test]
fn unique_ascending_with_trailing_null() {
    // dictionary ["a","b","c"], codes [0,2,2,1,null]: unique [0,1,2,null],
    // n_unique 4.
    let col = local_column(
        &["a", "b", "c"],
        vec![Some(0), Some(2), Some(2), Some(1), None],
        false,
    );
    let u = col.unique().unwrap();
    assert_eq!(u.physical(), &vec![Some(0), Some(1), Some(2), None]);
    assert_eq!(col.n_unique().unwrap(), 4);
}

#[test]
fn unique_on_empty_column_shares_dictionary() {
    let col = local_column(&["a", "b"], vec![], false);
    let u = col.unique().unwrap();
    assert!(u.is_empty());
    assert!(Arc::ptr_eq(col.get_rev_map(), u.get_rev_map()));
    assert_eq!(u.get_ordering(), col.get_ordering());
}

#[test]
fn enum_unique_returns_whole_domain() {
    // An enum column's unique is the domain index sequence, independent of
    // which codes occur.
    let col = local_column(&["x", "y", "z"], vec![Some(2), Some(2)], true);
    assert!(col.can_fast_unique());
    let u = col.unique().unwrap();
    assert_eq!(u.physical(), &vec![Some(0), Some(1), Some(2)]);
}

#[test]
fn enum_global_unique_returns_whole_domain() {
    let col = global_column(
        vec![0, 1, 2],
        vec![2, 1, 0],
        &["x", "y", "z"],
        vec![Some(1)],
        true,
    );
    let u = col.unique().unwrap();
    assert_eq!(u.physical(), &vec![Some(0), Some(1), Some(2)]);
    assert_eq!(col.n_unique().unwrap(), 3);
}

#[test]
fn aliasing_codes_count_one_value_but_keep_both_codes() {
    // Local codes 3 and 7 both map to the category string "x".
    let col = global_column(
        vec![3, 7],
        vec![0, 1],
        &["x", "x"],
        vec![Some(3), Some(7)],
        false,
    );
    assert_eq!(col.n_unique().unwrap(), 1);
    let u = col.unique().unwrap();
    assert_eq!(u.physical(), &vec![Some(3), Some(7)]);
}

#[test]
fn unique_is_complete_over_observed_codes() {
    let col = local_column(
        &["a", "b", "c", "d", "e", "f"],
        vec![Some(5), Some(1), Some(5), None, Some(3)],
        false,
    );
    let u = col.unique().unwrap();
    assert_eq!(u.physical(), &vec![Some(1), Some(3), Some(5), None]);
}

#[test]
fn unique_twice_is_served_by_the_cache() {
    let col = local_column(&["a", "b", "c"], vec![Some(0), Some(2), Some(2), Some(1)], false);
    assert!(!col.can_fast_unique());
    let u = col.unique().unwrap();
    assert!(u.can_fast_unique());
    let u2 = u.unique().unwrap();
    assert_eq!(u.physical(), u2.physical());
    assert!(u2.can_fast_unique());
}

#[test]
fn enum_unique_twice_returns_identical_codes() {
    let col = local_column(&["x", "y", "z"], vec![Some(1), None], true);
    let u = col.unique().unwrap();
    let u2 = u.unique().unwrap();
    assert_eq!(u.physical(), u2.physical());
}

#[test]
fn marking_fast_unique_keeps_codes_and_counts_values() {
    let mut col = local_column(&["a", "b", "c"], vec![Some(1), Some(2)], false);
    assert!(!col.can_fast_unique());
    col.mark_fast_unique();
    assert!(col.can_fast_unique());
    // The flag certifies the codes duplicate-free, so unique keeps them
    // exactly as they are, with no kernel re-scan.
    let u = col.unique().unwrap();
    assert_eq!(u.physical(), &vec![Some(1), Some(2)]);
    // It certifies nothing at value level, so n_unique still counts the
    // values that actually occur, not the dictionary.
    assert_eq!(col.n_unique().unwrap(), 2);
}

#[test]
fn enum_unique_appends_null_marker() {
    // An enum column still reports its whole domain, plus the null group.
    let col = local_column(&["x", "y", "z"], vec![Some(2), None], true);
    let u = col.unique().unwrap();
    assert_eq!(u.physical(), &vec![Some(0), Some(1), Some(2), None]);
    // The enum fast path of n_unique answers with the category count.
    assert_eq!(col.n_unique().unwrap(), 3);
}

#[test]
fn unique_twice_with_nulls_returns_identical_codes() {
    let col = local_column(
        &["a", "b", "c"],
        vec![Some(0), Some(2), Some(2), Some(1), None],
        false,
    );
    let u = col.unique().unwrap();
    assert_eq!(u.physical(), &vec![Some(0), Some(1), Some(2), None]);
    let u2 = u.unique().unwrap();
    assert_eq!(u.physical(), u2.physical());
    assert!(u2.can_fast_unique());
}

#[test]
fn local_dictionary_rejects_duplicate_categories() {
    assert_eq!(
        RevMapping::new_local(strings(&["a", "b", "a"])).err(),
        Some(CategoricalError::DuplicateCategory)
    );
}

#[test]
fn local_n_unique_matches_unique_length() {
    // No aliasing under a local dictionary: value-level and code-level
    // deduplication agree.
    let col = local_column(&["a", "b", "c"], vec![Some(0), Some(2), Some(2), None], false);
    let u = col.unique().unwrap();
    assert_eq!(col.n_unique().unwrap(), u.len());
}

#[test]
fn sparse_global_unique_and_n_unique() {
    let col = global_column(
        vec![2, 5, 9],
        vec![0, 1, 2],
        &["p", "q", "r"],
        vec![Some(9), Some(2), Some(9)],
        false,
    );
    let u = col.unique().unwrap();
    assert_eq!(u.physical(), &vec![Some(2), Some(9)]);
    assert_eq!(col.n_unique().unwrap(), 2);
}

#[test]
fn all_null_column_unique_is_one_null() {
    let col = local_column(&["a"], vec![None, None, None], false);
    let u = col.unique().unwrap();
    assert_eq!(u.physical(), &vec![None]);
    assert_eq!(col.n_unique().unwrap(), 1);
}

#[test]
fn value_counts_gives_nulls_their_own_group() {
    let col = local_column(&["a"], vec![None, Some(0), None], false);
    let table = col.value_counts().unwrap();
    assert_eq!(table.values.physical(), &vec![None, Some(0)]);
    assert_eq!(table.counts, vec![2, 1]);
    let total: usize = table.counts.iter().sum();
    assert_eq!(total, col.len());
}

#[test]
fn value_counts_of_empty_column_is_empty() {
    let col = local_column(&["a", "b"], vec![], false);
    let table = col.value_counts().unwrap();
    assert_eq!(table.values.len(), 0);
    assert_eq!(table.counts.len(), 0);
}

#[test]
fn out_of_range_code_is_rejected() {
    let rev_map = RevMapping::new_local(strings(&["a", "b", "c"])).unwrap();
    let r = CategoricalChunked::from_cats_and_rev_map(
        vec![Some(0), Some(5)],
        Arc::new(rev_map),
        false,
        CategoricalOrdering::Physical,
    );
    assert_eq!(r.err(), Some(CategoricalError::OutOfRangeCode));
}

#[test]
fn enum_demands_a_contiguous_domain() {
    let rev_map =
        RevMapping::new_global(vec![1, 2], vec![0, 1], strings(&["a", "b"]), 7).unwrap();
    let r = CategoricalChunked::from_cats_and_rev_map(
        vec![Some(1)],
        Arc::new(rev_map),
        true,
        CategoricalOrdering::Physical,
    );
    assert_eq!(r.err(), Some(CategoricalError::InvalidEnumDictionary));
}

#[test]
fn global_dictionary_validation() {
    // Keys out of order.
    assert_eq!(
        RevMapping::new_global(vec![5, 2], vec![0, 1], strings(&["a", "b"]), 0).err(),
        Some(CategoricalError::OutOfRangeCode)
    );
    // A global code past the categories.
    assert_eq!(
        RevMapping::new_global(vec![1, 2], vec![0, 9], strings(&["a", "b"]), 0).err(),
        Some(CategoricalError::OutOfRangeCode)
    );
    // Key count and global-code count must agree.
    assert_eq!(
        RevMapping::new_global(vec![1], vec![0, 1], strings(&["a", "b"]), 0).err(),
        Some(CategoricalError::OutOfRangeCode)
    );
}

#[test]
fn value_lookup_resolves_global_codes() {
    let rev_map =
        RevMapping::new_global(vec![4, 9], vec![1, 0], strings(&["two", "one"]), 3).unwrap();
    assert_eq!(rev_map.value_of_code(4).as_str(), "one");
    assert_eq!(rev_map.value_of_code(9).as_str(), "two");
    assert_eq!(rev_map.len(), 2);
    assert!(rev_map.is_global());
    assert!(rev_map.check_code(9));
    assert!(!rev_map.check_code(5));
}

#[test]
fn unique_preserves_flags_and_dictionary() {
    let col = local_column(&["a", "b"], vec![Some(1), Some(1)], false);
    let u = col.unique().unwrap();
    assert!(Arc::ptr_eq(col.get_rev_map(), u.get_rev_map()));
    assert_eq!(u.is_enum(), col.is_enum());
    assert_eq!(u.get_ordering(), col.get_ordering());
    assert_eq!(u.physical(), &vec![Some(1)]);
    assert_eq!(u.null_count(), 0);
}
