use std::collections::HashSet;

use tree_edit::entry::Entry;
use tree_edit::error::TreeEditError;
use tree_edit::old_ids;
use tree_edit::validate::{validate_new_entries, validate_old_entries, validate_unique_paths};

fn e(id: u64, path: &str) -> Entry {
    Entry::new(Some(id), String::from(path))
}

fn fresh(path: &str) -> Entry {
    Entry::new(None, String::from(path))
}

#[test]
fn old_listing_needs_ids() {
    assert!(validate_old_entries(&vec![]));
    assert!(validate_old_entries(&vec![e(0, "a"), e(1, "b")]));
    assert!(!validate_old_entries(&vec![e(0, "a"), fresh("b")]));
}

#[test]
fn old_listing_needs_unique_ids_and_paths() {
    assert!(!validate_old_entries(&vec![e(0, "a"), e(0, "b")]));
    assert!(!validate_old_entries(&vec![e(0, "a"), e(1, "a")]));
    assert!(validate_old_entries(&vec![e(5, "a"), e(3, "b"), e(4, "c")]));
}

#[test]
fn unique_paths_are_accepted() {
    assert!(validate_unique_paths(&vec![]).is_ok());
    assert!(validate_unique_paths(&vec![e(0, "a"), fresh("b"), e(0, "c")]).is_ok());
}

#[test]
fn first_repeated_path_is_named() {
    let result = validate_unique_paths(&vec![e(0, "a"), e(1, "b"), e(2, "b"), e(3, "a")]);
    assert!(matches!(result, Err(TreeEditError::DuplicatePath(p)) if p == "b"));
}

#[test]
fn new_listing_may_repeat_ids_and_have_none() {
    let allowed: HashSet<u64> = [1, 2].into_iter().collect();
    let listing = vec![e(1, "a"), e(1, "b"), fresh("c"), e(2, "d")];
    assert!(validate_new_entries(&listing, &allowed).is_ok());
    assert!(validate_new_entries(&vec![], &HashSet::new()).is_ok());
}

#[test]
fn first_unknown_id_is_named() {
    let allowed: HashSet<u64> = [1, 2].into_iter().collect();
    let listing = vec![e(1, "a"), e(9, "b"), e(8, "c")];
    assert!(matches!(
        validate_new_entries(&listing, &allowed),
        Err(TreeEditError::InvalidFileId(9))
    ));
}

#[test]
fn unknown_id_comes_before_repeated_path() {
    let allowed: HashSet<u64> = [1].into_iter().collect();
    let listing = vec![e(1, "a"), e(1, "a"), e(3, "c")];
    assert!(matches!(
        validate_new_entries(&listing, &allowed),
        Err(TreeEditError::InvalidFileId(3))
    ));
    let listing = vec![e(1, "a"), e(1, "a")];
    assert!(matches!(
        validate_new_entries(&listing, &allowed),
        Err(TreeEditError::DuplicatePath(p)) if p == "a"
    ));
}

#[test]
fn identifiers_of_the_old_listing_are_collected() {
    let ids = old_ids(&vec![e(5, "a"), e(3, "b"), e(9, "c")]);
    assert_eq!(ids, [3, 5, 9].into_iter().collect::<HashSet<u64>>());
    assert!(old_ids(&vec![]).is_empty());
    let listing = vec![e(1, "a"), e(1, "a")];
    assert!(matches!(
        validate_new_entries(&listing, &old_ids(&vec![e(1, "a")])),
        Err(TreeEditError::DuplicatePath(p)) if p == "a"
    ));
}
