use std::collections::HashMap;

use tree_edit::diff;
use tree_edit::entry::Entry;
use tree_edit::error::TreeEditError;
use tree_edit::fsutils::fsop::FsOp;

fn entry(id: u64, path: &str) -> Entry {
    Entry::new(Some(id), String::from(path))
}

fn new_entry(path: &str) -> Entry {
    Entry::new(None, String::from(path))
}

fn diff_and_apply_ops(
    old_entries: &Vec<Entry>,
    new_entries: &Vec<Entry>,
) -> Result<(), TreeEditError> {
    let ops = diff(old_entries, new_entries)?;
    println!("old: {old_entries:?}");
    println!("new: {new_entries:?}");
    println!("ops: {ops:?}");
    let mut fs = HashMap::<String, Option<u64>>::new();
    for entry in old_entries {
        assert_eq!(fs.insert(entry.path.clone(), Some(entry.id.unwrap())), None);
    }
    for op in ops {
        match op {
            FsOp::CreateFile { path } => {
                assert!(!fs.contains_key(&path));
                fs.insert(path, None);
            }
            FsOp::MoveFile { src, dst } => {
                assert!(fs.contains_key(&src));
                assert!(!fs.contains_key(&dst));
                let maybe_id = fs.remove(&src).unwrap();
                fs.insert(dst, maybe_id);
            }
            FsOp::CopyFile { src, dst } => {
                assert!(fs.contains_key(&src));
                assert!(!fs.contains_key(&dst));
                let maybe_id = fs.get(&src).unwrap().clone();
                fs.insert(dst, maybe_id);
            }
            FsOp::RemoveFile { path } => {
                assert!(fs.contains_key(&path));
                fs.remove(&path);
            }
        }
    }
    let mut entries_after_apply: Vec<_> = fs
        .into_iter()
        .map(|(path, maybe_id)| -> Entry { Entry::new(maybe_id, path) })
        .collect::<Vec<_>>();

    entries_after_apply.sort_by(|a, b| a.path.as_str().cmp(b.path.as_str()));

    assert_eq!(&entries_after_apply, new_entries);
    Ok(())
}

#[test]
fn no_change() -> Result<(), TreeEditError> {
    diff_and_apply_ops(
        &vec![Entry::new(Some(1), "a.txt".to_string())],
        &vec![Entry::new(Some(1), "a.txt".to_string())],
    )
}

#[test]
fn test_create_1_new_file() -> Result<(), TreeEditError> {
    diff_and_apply_ops(
        &vec![entry(1, "a.txt")],
        &vec![entry(1, "a.txt"), new_entry("b.txt")],
    )
}

#[test]
fn test_remove_1_file() -> Result<(), TreeEditError> {
    diff_and_apply_ops(&vec![entry(1, "a.txt")], &vec![])
}

#[test]
fn test_copy_an_existing_file() -> Result<(), TreeEditError> {
    diff_and_apply_ops(
        &vec![entry(1, "a.txt")],
        &vec![entry(1, "a.txt"), entry(1, "b.txt")],
    )
}

#[test]
fn test_copy_an_existing_file_rev() -> Result<(), TreeEditError> {
    diff_and_apply_ops(
        &vec![entry(2, "b.txt")],
        &vec![entry(2, "a.txt"), entry(2, "b.txt")],
    )
}

#[test]
fn test_user_input_invalid_id() {
    let result = diff_and_apply_ops(
        &vec![entry(1, "a.txt")], // there was previously no entry with id 2
        &vec![entry(1, "a.txt"), entry(2, "b.txt")],
    );
    assert!(result.is_err());
    let err = result.unwrap_err();
    assert!(matches!(err, TreeEditError::InvalidFileId(2)))
}

#[test]
fn test_copy_dependency_without_cycle() -> Result<(), TreeEditError> {
    diff_and_apply_ops(
        &vec![entry(1, "a.txt"), entry(2, "b.txt")],
        &vec![entry(1, "a.txt"), entry(1, "b.txt"), entry(2, "c.txt")],
    )
}

#[test]
fn test_copy_dependency_without_cycle_rev() -> Result<(), TreeEditError> {
    diff_and_apply_ops(
        &vec![entry(2, "b.txt"), entry(3, "c.txt")],
        &vec![entry(2, "a.txt"), entry(3, "b.txt"), entry(3, "c.txt")],
    )
}

#[test]
fn test_copy_dependency_with_cycle_of_2() -> Result<(), TreeEditError> {
    diff_and_apply_ops(
        &vec![entry(1, "a.txt"), entry(2, "b.txt")],
        &vec![entry(2, "a.txt"), entry(1, "b.txt")],
    )
}
