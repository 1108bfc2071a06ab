use tree_edit::error::TreeEditError;
use tree_edit::fsutils::fsop::FsOp;
use tree_edit::ui::{
    display_ops, editor_candidates, open_in_editor, user_confirm, EditorStep, Launch,
};

#[test]
fn operations_are_announced_in_colour() {
    let ops = vec![
        FsOp::CreateFile {
            path: "n".to_string(),
        },
        FsOp::MoveFile {
            src: "a".to_string(),
            dst: "b".to_string(),
        },
        FsOp::CopyFile {
            src: "c d".to_string(),
            dst: "e".to_string(),
        },
        FsOp::RemoveFile {
            path: "r".to_string(),
        },
    ];
    assert_eq!(
        display_ops(&ops),
        "\x1b[32mCREATE n\x1b[0m\n\x1b[33mMOVE   a => b\x1b[0m\n\x1b[32mCOPY   c d => e\x1b[0m\n\x1b[31mREMOVE r\x1b[0m\n"
    );
    assert_eq!(display_ops(&vec![]), "");
}

#[test]
fn yes_in_any_case_agrees() {
    for answer in ["y", "Y", "yes", "YES", "Yes", "yEs", " y\n", "\tyes \r\n"] {
        assert!(user_confirm(answer), "{answer:?}");
    }
}

#[test]
fn anything_else_declines() {
    for answer in ["", "\n", "n", "no", "ye", "yess", "y es", "yes!", "oui", "ｙ", "yeſ"] {
        assert!(!user_confirm(answer), "{answer:?}");
    }
}

#[test]
fn confirmation_agrees_with_lowercasing() {
    let reference = |answer: &str| {
        let normalized = answer.to_lowercase();
        let normalized = normalized.trim();
        normalized == "yes" || normalized == "y"
    };
    let mut n: u32 = 0;
    while n < 0x11_0000 {
        if let Some(c) = char::from_u32(n) {
            let one = c.to_string();
            assert_eq!(user_confirm(&one), reference(&one), "at {n:#x}");
            for answer in [format!("{c}es"), format!("y{c}s"), format!("ye{c}"), format!(" y{c}")] {
                assert_eq!(user_confirm(&answer), reference(&answer), "at {n:#x}");
            }
        }
        n += 1;
    }
}

#[test]
fn chosen_editors_come_first() {
    assert_eq!(
        editor_candidates(Some("code -w".to_string()), Some("ed".to_string())),
        vec!["code -w", "ed", "nvim", "vim", "vi", "nano"]
    );
    assert_eq!(
        editor_candidates(None, Some("ed".to_string())),
        vec!["ed", "nvim", "vim", "vi", "nano"]
    );
    assert_eq!(
        editor_candidates(None, None),
        vec!["nvim", "vim", "vi", "nano"]
    );
}

#[test]
fn first_editor_that_starts_decides() {
    let launch = Launch::Exited {
        success: true,
        code: Some(0),
    };
    assert!(matches!(open_in_editor(4, 1, launch), EditorStep::Edited));
    let launch = Launch::Exited {
        success: false,
        code: Some(3),
    };
    assert!(matches!(
        open_in_editor(4, 0, launch),
        EditorStep::Fail(TreeEditError::EditorExitFailure(Some(3)))
    ));
}

#[test]
fn missing_editor_hands_over_to_the_next() {
    assert!(matches!(
        open_in_editor(4, 0, Launch::NotFound),
        EditorStep::Try(1)
    ));
    assert!(matches!(
        open_in_editor(4, 2, Launch::NotFound),
        EditorStep::Try(3)
    ));
    assert!(matches!(
        open_in_editor(4, 3, Launch::NotFound),
        EditorStep::Fail(TreeEditError::NoEditorAvailable)
    ));
}

#[test]
fn other_trouble_ends_the_search() {
    let source = std::io::Error::new(std::io::ErrorKind::PermissionDenied, "no");
    assert!(matches!(
        open_in_editor(4, 0, Launch::Failed(source)),
        EditorStep::Fail(TreeEditError::IOError(_))
    ));
}
