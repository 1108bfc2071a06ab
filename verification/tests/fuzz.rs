use rand::rngs::StdRng;
use rand::RngCore;
use rand::SeedableRng;

use tree_edit::diff;
use tree_edit::fsutils::files::Files;
use tree_edit::fsutils::fsop::exec_all;
use tree_edit::entry::Entry;
use tree_edit::fuzz::{
    generate_new_entries, generate_old_entries, new_entries_of_draws, numbered_entries,
    percentage_of_draw, plan_holds, rand_exp_size, run, size_of_draw,
};
use tree_edit::validate::validate_old_entries;

#[test]
fn sizes_are_zero_or_powers_of_two() {
    let expected = [0u64, 1, 2, 4, 8, 16, 32, 64, 128, 256];
    for v in 0..10u64 {
        assert_eq!(size_of_draw(v), expected[v as usize]);
        assert_eq!(size_of_draw(v + 12340), expected[v as usize]);
    }
    assert_eq!(size_of_draw(u64::MAX), expected[(u64::MAX % 10) as usize]);
}

#[test]
fn drawn_sizes_cover_the_range() {
    let mut rng = StdRng::seed_from_u64(7);
    let mut seen = std::collections::BTreeSet::new();
    for _ in 0..1000 {
        seen.insert(rand_exp_size(&mut rng));
    }
    assert_eq!(
        seen.into_iter().collect::<Vec<u64>>(),
        vec![0, 1, 2, 4, 8, 16, 32, 64, 128, 256]
    );
}

#[test]
fn old_listings_are_numbered() {
    for seed in 0..50 {
        let mut rng = StdRng::seed_from_u64(seed);
        let old = generate_old_entries(&mut rng);
        assert!(validate_old_entries(&old));
        for (i, entry) in old.iter().enumerate() {
            assert_eq!(entry.id, Some(i as u64));
            assert_eq!(entry.path, format!("{i}.txt"));
        }
    }
}

#[test]
fn new_listings_use_known_ids() {
    for seed in 0..50 {
        let mut rng = StdRng::seed_from_u64(seed);
        let new = generate_new_entries(seed, &mut rng);
        for (i, entry) in new.iter().enumerate() {
            assert_eq!(entry.path, format!("{i}.txt"));
            assert!(entry.id.map_or(true, |id| id < seed));
        }
    }
}

#[test]
fn seeded_runs_succeed() {
    for seed in 1..400 {
        assert!(run(seed), "seed {seed}");
    }
}

#[test]
fn seeded_plans_hold_against_an_interpreter() {
    for seed in 1..300 {
        let mut rng = StdRng::seed_from_u64(seed);
        let old = generate_old_entries(&mut rng);
        let new = generate_new_entries(old.len() as u64, &mut rng);
        let ops = diff(&old, &new).unwrap();
        let mut fs = std::collections::HashMap::<String, Option<u64>>::new();
        for entry in &old {
            assert_eq!(fs.insert(entry.path.clone(), entry.id), None);
        }
        let mut files = Files::from_entries(old.clone()).unwrap();
        exec_all(&ops, &mut files).unwrap();
        for op in ops {
            match op {
                tree_edit::fsutils::fsop::FsOp::CreateFile { path } => {
                    assert!(fs.insert(path, None).is_none());
                }
                tree_edit::fsutils::fsop::FsOp::MoveFile { src, dst } => {
                    assert!(!fs.contains_key(&dst));
                    let content = fs.remove(&src).unwrap();
                    fs.insert(dst, content);
                }
                tree_edit::fsutils::fsop::FsOp::CopyFile { src, dst } => {
                    assert!(!fs.contains_key(&dst));
                    let content = *fs.get(&src).unwrap();
                    fs.insert(dst, content);
                }
                tree_edit::fsutils::fsop::FsOp::RemoveFile { path } => {
                    assert!(fs.remove(&path).is_some());
                }
            }
        }
        assert_eq!(fs.len(), new.len());
        for entry in &new {
            assert_eq!(fs.get(&entry.path), Some(&entry.id));
        }
        assert!(files.matches(&new));
    }
}

#[test]
fn numbered_entries_count_from_zero() {
    assert_eq!(numbered_entries(0), vec![]);
    assert_eq!(
        numbered_entries(3),
        vec![
            Entry::new(Some(0), "0.txt".to_string()),
            Entry::new(Some(1), "1.txt".to_string()),
            Entry::new(Some(2), "2.txt".to_string()),
        ]
    );
    assert_eq!(numbered_entries(12)[11].path, "11.txt");
}

#[test]
fn share_of_new_files_follows_the_draw() {
    assert_eq!(percentage_of_draw(0, 7), 100);
    assert_eq!(percentage_of_draw(5, 0), 0);
    assert_eq!(percentage_of_draw(5, 100), 100);
    assert_eq!(percentage_of_draw(5, 101), 0);
    assert_eq!(percentage_of_draw(5, 1234), 1234 % 101);
}

#[test]
fn draws_decide_the_new_listing() {
    // chance 49 is below the share of 50: a new file; chance 250 counts as 50
    let draws = vec![(49, 9), (250, 7), (50, 3), (99, u64::MAX)];
    assert_eq!(
        new_entries_of_draws(3, 50, &draws),
        vec![
            Entry::new(None, "0.txt".to_string()),
            Entry::new(Some(1), "1.txt".to_string()),
            Entry::new(Some(0), "2.txt".to_string()),
            Entry::new(Some(u64::MAX % 3), "3.txt".to_string()),
        ]
    );
    assert_eq!(
        new_entries_of_draws(0, 100, &vec![(99, 1), (5, 2)]),
        vec![
            Entry::new(None, "0.txt".to_string()),
            Entry::new(None, "1.txt".to_string()),
        ]
    );
    assert_eq!(new_entries_of_draws(4, 0, &vec![]), vec![]);
}

#[test]
fn generated_listings_are_those_of_their_draws() {
    for seed in 0..200 {
        let mut rng = StdRng::seed_from_u64(seed);
        let mut twin = StdRng::seed_from_u64(seed);
        let old = generate_old_entries(&mut rng);
        assert_eq!(old, numbered_entries(size_of_draw(twin.next_u64())));
        let old_len = old.len() as u64;
        let new = generate_new_entries(old_len, &mut rng);
        let size = size_of_draw(twin.next_u64());
        let draw = if old_len == 0 { 0 } else { twin.next_u64() };
        let percentage = percentage_of_draw(old_len, draw);
        let mut draws = vec![];
        for _ in 0..size {
            let chance = twin.next_u64();
            let pick = if chance % 100 < percentage { 0 } else { twin.next_u64() };
            draws.push((chance, pick));
        }
        assert_eq!(new, new_entries_of_draws(old_len, percentage, &draws));
    }
}

#[test]
fn plan_holds_exactly_for_valid_listings() {
    let old = numbered_entries(3);
    let swap = vec![
        Entry::new(Some(1), "0.txt".to_string()),
        Entry::new(Some(0), "1.txt".to_string()),
        Entry::new(None, "new.txt".to_string()),
    ];
    assert!(plan_holds(&old, &swap));
    assert!(plan_holds(&old, &old));
    assert!(plan_holds(&old, &vec![]));
    let unknown = vec![Entry::new(Some(3), "0.txt".to_string())];
    assert!(!plan_holds(&old, &unknown));
    let repeated = vec![
        Entry::new(Some(1), "x".to_string()),
        Entry::new(None, "x".to_string()),
    ];
    assert!(!plan_holds(&old, &repeated));
}
