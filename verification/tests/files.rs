use tree_edit::entry::Entry;
use tree_edit::error::{DetectedBy, TreeEditError};
use tree_edit::fsutils::files::Files;
use tree_edit::fsutils::fsop::{detect_change, exec, exec_all, FsOp};

fn e(id: u64, path: &str) -> Entry {
    Entry::new(Some(id), String::from(path))
}

fn create(path: &str) -> FsOp {
    FsOp::CreateFile {
        path: path.to_string(),
    }
}

fn copy(src: &str, dst: &str) -> FsOp {
    FsOp::CopyFile {
        src: src.to_string(),
        dst: dst.to_string(),
    }
}

fn mv(src: &str, dst: &str) -> FsOp {
    FsOp::MoveFile {
        src: src.to_string(),
        dst: dst.to_string(),
    }
}

fn remove(path: &str) -> FsOp {
    FsOp::RemoveFile {
        path: path.to_string(),
    }
}

fn tree() -> Files {
    Files::from_entries(vec![e(1, "a"), e(2, "b")]).unwrap()
}

fn get(files: &Files, path: &str) -> Option<Option<u64>> {
    files.get(&path.to_string())
}

#[test]
fn tree_is_built_from_a_listing() {
    let files = tree();
    assert_eq!(files.len(), 2);
    assert!(files.contains(&"a".to_string()));
    assert!(!files.contains(&"c".to_string()));
    assert_eq!(get(&files, "b"), Some(Some(2)));
    assert_eq!(get(&files, "c"), None);
    assert!(files.matches(&vec![e(2, "b"), e(1, "a")]));
    assert!(!files.matches(&vec![e(2, "a"), e(1, "b")]));
    assert!(!files.matches(&vec![e(1, "a")]));
    assert!(!files.matches(&vec![e(1, "a"), e(2, "c")]));
}

#[test]
fn tree_with_repeated_path_is_refused() {
    let result = Files::from_entries(vec![e(1, "a"), e(2, "a")]);
    assert!(matches!(result, Err(TreeEditError::DuplicatePath(p)) if p == "a"));
}

#[test]
fn create_makes_an_empty_file() {
    let mut files = tree();
    exec(&create("c"), &mut files).unwrap();
    assert_eq!(get(&files, "c"), Some(None));
    assert_eq!(files.len(), 3);
}

#[test]
fn copy_keeps_the_source() {
    let mut files = tree();
    exec(&copy("a", "c"), &mut files).unwrap();
    assert_eq!(get(&files, "a"), Some(Some(1)));
    assert_eq!(get(&files, "c"), Some(Some(1)));
}

#[test]
fn move_takes_the_source_away() {
    let mut files = tree();
    exec(&mv("a", "c"), &mut files).unwrap();
    assert_eq!(get(&files, "a"), None);
    assert_eq!(get(&files, "c"), Some(Some(1)));
    assert_eq!(files.len(), 2);
}

#[test]
fn remove_deletes_the_file() {
    let mut files = tree();
    exec(&remove("a"), &mut files).unwrap();
    assert_eq!(get(&files, "a"), None);
    assert_eq!(files.len(), 1);
}

#[test]
fn occupied_target_is_reported() {
    let mut files = tree();
    for op in [create("a"), copy("a", "b"), mv("b", "a")] {
        let result = exec(&op, &mut files);
        assert!(matches!(
            result,
            Err(TreeEditError::FsChanged(DetectedBy::FileExists(_)))
        ));
        assert!(files.matches(&vec![e(1, "a"), e(2, "b")]));
    }
    let result = exec(&copy("a", "b"), &mut files);
    assert!(matches!(
        result,
        Err(TreeEditError::FsChanged(DetectedBy::FileExists(p))) if p == "b"
    ));
}

#[test]
fn missing_source_is_reported_first() {
    let mut files = tree();
    for op in [remove("x"), copy("x", "y"), mv("x", "y"), copy("x", "a"), mv("x", "a")] {
        let result = exec(&op, &mut files);
        assert!(matches!(
            result,
            Err(TreeEditError::FsChanged(DetectedBy::FileNotFound(p))) if p == "x"
        ));
        assert!(files.matches(&vec![e(1, "a"), e(2, "b")]));
    }
}

#[test]
fn plan_stops_at_the_first_failure() {
    let mut files = tree();
    let ops = vec![mv("a", "c"), copy("a", "d"), remove("b")];
    let result = exec_all(&ops, &mut files);
    assert!(matches!(
        result,
        Err(TreeEditError::FsChanged(DetectedBy::FileNotFound(p))) if p == "a"
    ));
    assert!(files.matches(&vec![e(1, "c"), e(2, "b")]));
}

#[test]
fn plan_runs_in_order() {
    let mut files = tree();
    let ops = vec![mv("a", "c"), mv("b", "a"), mv("c", "b"), create("n"), remove("a")];
    exec_all(&ops, &mut files).unwrap();
    assert!(files.matches(&vec![e(1, "b"), Entry::new(None, "n".to_string())]));
    exec_all(&vec![], &mut files).unwrap();
}

#[test]
fn probes_decide_what_is_wrong() {
    assert!(detect_change(&create("a"), true, false).is_none());
    assert!(matches!(
        detect_change(&create("a"), false, true),
        Some(DetectedBy::FileExists(p)) if p == "a"
    ));
    assert!(detect_change(&copy("a", "b"), true, false).is_none());
    assert!(matches!(
        detect_change(&copy("a", "b"), false, true),
        Some(DetectedBy::FileNotFound(p)) if p == "a"
    ));
    assert!(matches!(
        detect_change(&mv("a", "b"), true, true),
        Some(DetectedBy::FileExists(p)) if p == "b"
    ));
    assert!(detect_change(&mv("a", "b"), true, false).is_none());
    assert!(detect_change(&remove("a"), true, true).is_none());
    assert!(matches!(
        detect_change(&remove("a"), false, false),
        Some(DetectedBy::FileNotFound(p)) if p == "a"
    ));
}
