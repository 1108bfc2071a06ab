use tree_edit::diff;
use tree_edit::entry::Entry;
use tree_edit::error::TreeEditError;
use tree_edit::fsutils::files::Files;
use tree_edit::fsutils::fsop::{exec_all, FsOp};
use tree_edit::number_entries;
use tree_edit::planner::create::create_files_ops;
use tree_edit::planner::walk::move_files_around_ops;

fn e(id: u64, path: &str) -> Entry {
    Entry::new(Some(id), String::from(path))
}

fn fresh(path: &str) -> Entry {
    Entry::new(None, String::from(path))
}

fn create(path: &str) -> FsOp {
    FsOp::CreateFile {
        path: path.to_string(),
    }
}

fn copy(src: &str, dst: &str) -> FsOp {
    FsOp::CopyFile {
        src: src.to_string(),
        dst: dst.to_string(),
    }
}

fn mv(src: &str, dst: &str) -> FsOp {
    FsOp::MoveFile {
        src: src.to_string(),
        dst: dst.to_string(),
    }
}

fn remove(path: &str) -> FsOp {
    FsOp::RemoveFile {
        path: path.to_string(),
    }
}

/// Runs the plan on the old tree and compares the outcome with the new one.
fn plan_and_run(old: &Vec<Entry>, new: &Vec<Entry>) -> Vec<FsOp> {
    let ops = diff(old, new).unwrap();
    let mut files = Files::from_entries(old.clone()).unwrap();
    exec_all(&ops, &mut files).unwrap();
    assert!(files.matches(new), "old {old:?} new {new:?} ops {ops:?}");
    assert_eq!(files.len(), new.len());
    for entry in new {
        assert_eq!(files.get(&entry.path), Some(entry.id));
    }
    ops
}

#[test]
fn unchanged_listing_gives_empty_plan() {
    let ops = plan_and_run(&vec![e(1, "a.txt")], &vec![e(1, "a.txt")]);
    assert_eq!(ops, vec![]);
    let listing = vec![e(4, "x"), e(2, "y"), e(9, "z")];
    assert_eq!(plan_and_run(&listing, &listing), vec![]);
    assert_eq!(plan_and_run(&vec![], &vec![]), vec![]);
}

#[test]
fn new_file_is_created() {
    let ops = plan_and_run(&vec![e(1, "a.txt")], &vec![e(1, "a.txt"), fresh("b.txt")]);
    assert_eq!(ops, vec![create("b.txt")]);
}

#[test]
fn second_path_for_an_id_is_a_copy() {
    let ops = plan_and_run(&vec![e(1, "a.txt")], &vec![e(1, "a.txt"), e(1, "b.txt")]);
    assert_eq!(ops, vec![copy("a.txt", "b.txt")]);
}

#[test]
fn unknown_id_is_refused() {
    let result = diff(&vec![e(1, "a.txt")], &vec![e(1, "a.txt"), e(2, "b.txt")]);
    assert!(matches!(result, Err(TreeEditError::InvalidFileId(2))));
}

#[test]
fn occupied_destination_is_cleared_first() {
    let ops = plan_and_run(
        &vec![e(1, "a.txt"), e(2, "b.txt")],
        &vec![e(1, "a.txt"), e(1, "b.txt"), e(2, "c.txt")],
    );
    assert_eq!(ops, vec![mv("b.txt", "c.txt"), copy("a.txt", "b.txt")]);
}

#[test]
fn swap_goes_through_a_backup() {
    let ops = plan_and_run(
        &vec![e(1, "a.txt"), e(2, "b.txt")],
        &vec![e(2, "a.txt"), e(1, "b.txt")],
    );
    assert_eq!(
        ops,
        vec![
            mv("b.txt", "b.txt.backup"),
            mv("a.txt", "b.txt"),
            mv("b.txt.backup", "a.txt"),
        ]
    );
}

#[test]
fn dropped_file_is_removed() {
    let ops = plan_and_run(&vec![e(1, "a.txt")], &vec![]);
    assert_eq!(ops, vec![remove("a.txt")]);
}

#[test]
fn rename_is_a_single_move() {
    let ops = plan_and_run(&vec![e(1, "a.txt")], &vec![e(1, "b.txt")]);
    assert_eq!(ops, vec![mv("a.txt", "b.txt")]);
}

#[test]
fn last_destination_is_a_move_when_source_is_not_kept() {
    let ops = plan_and_run(
        &vec![e(1, "a")],
        &vec![e(1, "b"), e(1, "c"), e(1, "d")],
    );
    assert_eq!(ops, vec![copy("a", "b"), copy("a", "c"), mv("a", "d")]);
}

#[test]
fn kept_source_is_only_copied() {
    let ops = plan_and_run(
        &vec![e(1, "b")],
        &vec![e(1, "a"), e(1, "b"), e(1, "c")],
    );
    assert_eq!(ops, vec![copy("b", "a"), copy("b", "c")]);
}

#[test]
fn removed_path_can_be_created_anew() {
    let ops = plan_and_run(&vec![e(1, "a")], &vec![fresh("a")]);
    assert_eq!(ops, vec![remove("a"), create("a")]);
    let ops = plan_and_run(&vec![e(1, "a")], &vec![fresh("a"), e(1, "b")]);
    assert_eq!(ops, vec![mv("a", "b"), create("a")]);
}

#[test]
fn cycle_of_three_uses_one_backup() {
    let ops = plan_and_run(
        &vec![e(1, "a"), e(2, "b"), e(3, "c")],
        &vec![e(3, "a"), e(1, "b"), e(2, "c")],
    );
    assert_eq!(
        ops,
        vec![
            mv("c", "c.backup"),
            mv("b", "c"),
            mv("a", "b"),
            mv("c.backup", "a"),
        ]
    );
}

#[test]
fn swap_with_fan_out_copies_to_the_backup() {
    let ops = plan_and_run(
        &vec![e(1, "a"), e(2, "b")],
        &vec![e(2, "a"), e(1, "b"), e(2, "c")],
    );
    assert_eq!(
        ops,
        vec![
            copy("b", "b.backup"),
            mv("b", "c"),
            mv("a", "b"),
            mv("b.backup", "a"),
        ]
    );
}

#[test]
fn backup_avoids_paths_of_the_old_listing() {
    let ops = plan_and_run(
        &vec![e(1, "a"), e(2, "b"), e(3, "b.backup"), e(4, "b.backup-1")],
        &vec![e(2, "a"), e(1, "b"), e(3, "b.backup"), e(4, "b.backup-1")],
    );
    assert_eq!(
        ops,
        vec![mv("b", "b.backup-2"), mv("a", "b"), mv("b.backup-2", "a")]
    );
}

#[test]
fn backup_avoids_destinations_of_the_new_listing() {
    let ops = plan_and_run(
        &vec![e(1, "a"), e(2, "b")],
        &vec![e(2, "a"), e(1, "b"), e(1, "b.backup")],
    );
    assert_eq!(
        ops,
        vec![
            mv("b", "b.backup-1"),
            copy("a", "b"),
            mv("a", "b.backup"),
            mv("b.backup-1", "a"),
        ]
    );
}

#[test]
fn new_files_have_no_influence_on_the_moves() {
    let old = vec![e(1, "a"), e(2, "b"), e(3, "c")];
    let with_ids = vec![e(2, "a"), e(1, "b"), e(1, "d")];
    let mixed = vec![
        fresh("b.backup"),
        e(2, "a"),
        fresh("x"),
        e(1, "b"),
        fresh("c"),
        e(1, "d"),
    ];
    let moves = move_files_around_ops(&old, &with_ids);
    assert_eq!(move_files_around_ops(&old, &mixed), moves);
    assert_eq!(
        moves,
        vec![
            mv("b", "b.backup"),
            copy("a", "b"),
            mv("a", "d"),
            mv("b.backup", "a"),
            remove("c"),
        ]
    );
    let ops = plan_and_run(&old, &mixed);
    assert_eq!(
        ops[moves.len()..],
        [create("b.backup"), create("x"), create("c")]
    );
}

#[test]
fn two_swaps_use_two_backups() {
    let ops = plan_and_run(
        &vec![e(1, "a"), e(2, "b"), e(3, "c"), e(4, "d")],
        &vec![e(2, "a"), e(1, "b"), e(4, "c"), e(3, "d")],
    );
    assert_eq!(
        ops,
        vec![
            mv("b", "b.backup"),
            mv("a", "b"),
            mv("b.backup", "a"),
            mv("d", "d.backup"),
            mv("c", "d"),
            mv("d.backup", "c"),
        ]
    );
}

#[test]
fn duplicate_path_is_refused_after_ids_are_checked() {
    let old = vec![e(1, "a"), e(2, "b")];
    let result = diff(&old, &vec![e(1, "x"), e(2, "x")]);
    assert!(matches!(result, Err(TreeEditError::DuplicatePath(p)) if p == "x"));
    let result = diff(&old, &vec![e(1, "x"), fresh("x"), e(7, "y")]);
    assert!(matches!(result, Err(TreeEditError::InvalidFileId(7))));
    let result = diff(&old, &vec![e(8, "x"), e(7, "y")]);
    assert!(matches!(result, Err(TreeEditError::InvalidFileId(8))));
    let result = diff(&old, &vec![fresh("p"), fresh("q"), fresh("q"), fresh("p")]);
    assert!(matches!(result, Err(TreeEditError::DuplicatePath(p)) if p == "q"));
}

#[test]
fn creations_close_the_plan_in_listing_order() {
    let old = vec![e(1, "a"), e(2, "b")];
    let new = vec![fresh("z"), e(2, "a"), fresh("y"), e(1, "b"), fresh("b.backup")];
    let ops = plan_and_run(&old, &new);
    let creations = create_files_ops(&new);
    assert_eq!(
        creations,
        vec![create("z"), create("y"), create("b.backup")]
    );
    assert_eq!(ops[ops.len() - 3..], creations[..]);
    let moves = move_files_around_ops(&old, &new);
    assert_eq!(ops[..ops.len() - 3], moves[..]);
    assert!(moves.iter().all(|op| !matches!(op, FsOp::CreateFile { .. })));
}

#[test]
fn every_prefix_of_a_plan_can_run() {
    let old = vec![e(1, "a"), e(2, "b"), e(3, "c"), e(4, "d")];
    let new = vec![e(3, "a"), e(1, "b"), e(2, "c"), e(1, "e"), fresh("d"), e(3, "f")];
    let ops = plan_and_run(&old, &new);
    for n in 0..=ops.len() {
        let mut files = Files::from_entries(old.clone()).unwrap();
        assert!(exec_all(&ops[..n].to_vec(), &mut files).is_ok());
    }
}

#[test]
fn walked_paths_are_numbered_from_zero() {
    let paths = vec!["./b".to_string(), "./a".to_string(), "./c/d".to_string()];
    assert_eq!(
        number_entries(&paths),
        vec![e(0, "./b"), e(1, "./a"), e(2, "./c/d")]
    );
    assert_eq!(number_entries(&vec![]), vec![]);
}

#[test]
fn exhaustive_small_listings() {
    // every new listing of up to three entries over the paths a, b, c, d and
    // the identifiers of a two- or three-entry old listing
    let paths = ["a", "b", "c", "d"];
    for old_len in 0..=3usize {
        let old: Vec<Entry> = (0..old_len).map(|i| e(i as u64, paths[i])).collect();
        let ids: Vec<Option<u64>> = std::iter::once(None)
            .chain((0..old_len as u64).map(Some))
            .collect();
        let mut listings: Vec<Vec<Entry>> = vec![vec![]];
        for len in 1..=3usize {
            let mut next = vec![];
            for l in listings.iter().filter(|l| l.len() == len - 1) {
                for p in paths {
                    if l.iter().any(|x| x.path == p) {
                        continue;
                    }
                    for id in &ids {
                        let mut grown = l.clone();
                        grown.push(Entry::new(*id, p.to_string()));
                        next.push(grown);
                    }
                }
            }
            listings.extend(next);
        }
        for new in &listings {
            plan_and_run(&old, new);
        }
    }
}
