use tree_edit::decimal::to_decimal;
use tree_edit::error::{DetectedBy, TreeEditError};

#[test]
fn decimal_notation_agrees_with_the_standard_library() {
    for n in [0u64, 1, 9, 10, 11, 99, 100, 12345, 1 << 32, u64::MAX - 1, u64::MAX] {
        assert_eq!(to_decimal(n), n.to_string());
    }
}

#[test]
fn planner_errors_are_described() {
    assert_eq!(
        TreeEditError::DuplicatePath("a/b.txt".to_string()).message(),
        "duplicate path a/b.txt"
    );
    assert_eq!(
        TreeEditError::InvalidEntry("?".to_string()).message(),
        "invalid entry ?"
    );
    assert_eq!(
        TreeEditError::InvalidFileId(42).message(),
        "invalid file id 42"
    );
}

#[test]
fn changes_of_the_tree_are_described() {
    assert_eq!(
        DetectedBy::FileNotFound("a".to_string()).message(),
        "file not found a"
    );
    assert_eq!(
        DetectedBy::FileExists("b".to_string()).message(),
        "file already exists b"
    );
    assert_eq!(
        TreeEditError::FsChanged(DetectedBy::FileExists("b".to_string())).message(),
        "file system changed while editing: file already exists b"
    );
}

#[test]
fn editor_failures_are_described() {
    assert_eq!(
        TreeEditError::EditorExitFailure(Some(2)).message(),
        "editor exited with code 2"
    );
    assert_eq!(
        TreeEditError::EditorExitFailure(Some(-1)).message(),
        "editor exited with code -1"
    );
    assert_eq!(
        TreeEditError::EditorExitFailure(Some(i32::MIN)).message(),
        "editor exited with code -2147483648"
    );
    assert_eq!(
        TreeEditError::EditorExitFailure(None).message(),
        "editor exited without a code"
    );
    assert_eq!(
        TreeEditError::NoEditorAvailable.message(),
        "no editor available"
    );
}

#[test]
fn io_errors_keep_their_own_text() {
    let source = std::io::Error::new(std::io::ErrorKind::Other, "disk on fire");
    let error = TreeEditError::from(source);
    assert!(matches!(error, TreeEditError::IOError(_)));
    assert_eq!(error.message(), "disk on fire");
}
