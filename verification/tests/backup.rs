use vstd::hash_set::StringHashSet;

use tree_edit::backup::gen_backup_path;

fn names(paths: &[&str]) -> StringHashSet {
    let mut set = StringHashSet::new();
    for p in paths {
        set.insert(p.to_string());
    }
    set
}

#[test]
fn first_candidate_is_plain() {
    assert_eq!(gen_backup_path("a.txt", &names(&[])), "a.txt.backup");
    assert_eq!(gen_backup_path("a.txt", &names(&["a.txt"])), "a.txt.backup");
}

#[test]
fn taken_candidates_are_skipped() {
    assert_eq!(
        gen_backup_path("a", &names(&["a.backup"])),
        "a.backup-1"
    );
    assert_eq!(
        gen_backup_path("a", &names(&["a.backup", "a.backup-1", "a.backup-2", "a.backup-4"])),
        "a.backup-3"
    );
    assert_eq!(
        gen_backup_path("a", &names(&["a.backup-1"])),
        "a.backup"
    );
}

#[test]
fn numbering_goes_past_nine() {
    let mut taken: Vec<String> = vec!["dir/f.backup".to_string()];
    for i in 1..=11 {
        taken.push(format!("dir/f.backup-{i}"));
    }
    let taken: Vec<&str> = taken.iter().map(|s| s.as_str()).collect();
    assert_eq!(gen_backup_path("dir/f", &names(&taken)), "dir/f.backup-12");
}
