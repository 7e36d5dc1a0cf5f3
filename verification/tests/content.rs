//! Paths, tree values, fingerprints and verdicts on recorded changes.

use active_descriptions::fingerprint::{
    commit_diff_fingerprint, diff_fingerprint_changes, Fingerprint, TreeDiffEntry,
};
use active_descriptions::id::change_id_short;
use active_descriptions::path::{PathOrder, RepoPath};
use active_descriptions::staleness::{
    check_staleness, Change, EvologEntry, StalenessCheck, StalenessInfo, MAX_EVOLOG_ENTRIES,
};
use active_descriptions::tree::{Diff, TreeValue};

fn path(text: &str) -> RepoPath {
    RepoPath::from_internal_string(text.to_owned()).expect("valid path")
}

fn file(id: u8) -> TreeValue {
    TreeValue::File {
        id: vec![id],
        executable: false,
        copy_id: vec![],
    }
}

/// The diff of a commit that adds a file.
fn added(id: u8) -> Diff {
    Diff {
        before: vec![None],
        after: vec![Some(file(id))],
    }
}

/// The fingerprint of a commit that adds these files.
fn adds(files: &[(&str, u8)]) -> Fingerprint {
    let mut fingerprint = Fingerprint::new();
    for (name, id) in files {
        fingerprint.insert(path(name), added(*id));
    }
    fingerprint
}

fn texts(paths: &[RepoPath]) -> Vec<String> {
    paths
        .iter()
        .map(|p| p.as_internal_file_string().to_owned())
        .collect()
}

fn step(description: &str, files: &[(&str, u8)]) -> EvologEntry {
    EvologEntry {
        description: description.to_owned(),
        content: adds(files),
    }
}

fn check(
    description: &str,
    files: &[(&str, u8)],
    evolog: Vec<EvologEntry>,
) -> Option<StalenessInfo> {
    let change = Change {
        change_id: vec![0x01, 0x23, 0x45, 0x67, 0x89, 0xab, 0xcd, 0xef],
        description: description.to_owned(),
        content: adds(files),
    };
    check_staleness(&change, &evolog)
}

#[test]
fn paths_without_empty_names_are_valid() {
    for text in ["", "a", "a/b", "a b/c", "\u{e9}/\u{4e2d}"] {
        assert_eq!(path(text).as_internal_file_string(), text);
    }
    for text in ["/", "/a", "a/", "a//b", "//"] {
        assert_eq!(RepoPath::from_internal_string(text.to_owned()), None);
    }
}

#[test]
fn paths_compare_name_by_name() {
    assert_eq!(path("a/b").order(&path("a.txt")), PathOrder::Before);
    assert_eq!(path("a.txt").order(&path("a/b")), PathOrder::After);
    assert_eq!(path("a/b").order(&path("a/b")), PathOrder::Same);
    assert_eq!(path("").order(&path("a")), PathOrder::Before);
    assert_eq!(path("a").order(&path("a/b")), PathOrder::Before);
    assert_eq!(path("b").order(&path("a/z")), PathOrder::After);
    assert_eq!(path("z").order(&path("\u{e9}")), PathOrder::Before);
    assert_eq!(
        path("\u{ffff}").order(&path("\u{10000}")),
        PathOrder::Before
    );
    assert_eq!(path("a/b").clone(), path("a/b"));
}

#[test]
fn path_order_is_transitive() {
    let all = ["", "a", "a/b", "a/b/c", "a/c", "a.b", "a0", "b"];
    for i in 0..all.len() {
        for j in 0..all.len() {
            let expected = if i < j {
                PathOrder::Before
            } else if i == j {
                PathOrder::Same
            } else {
                PathOrder::After
            };
            assert_eq!(path(all[i]).order(&path(all[j])), expected);
        }
    }
}

#[test]
fn tree_values_differ_in_any_field() {
    let values = [
        file(1),
        file(2),
        TreeValue::File {
            id: vec![1],
            executable: true,
            copy_id: vec![],
        },
        TreeValue::File {
            id: vec![1],
            executable: false,
            copy_id: vec![7],
        },
        TreeValue::File {
            id: vec![1, 1],
            executable: false,
            copy_id: vec![],
        },
        TreeValue::Symlink(vec![1]),
        TreeValue::Symlink(vec![2]),
        TreeValue::Tree(vec![1]),
        TreeValue::GitSubmodule(vec![1]),
    ];
    for (i, a) in values.iter().enumerate() {
        for (j, b) in values.iter().enumerate() {
            assert_eq!(a.same(b), i == j);
        }
    }
}

#[test]
fn diffs_differ_on_either_side() {
    assert!(added(1).same(&added(1)));
    assert!(!added(1).same(&added(2)));
    let removed = Diff {
        before: vec![Some(file(1))],
        after: vec![None],
    };
    assert!(!added(1).same(&removed));
    let conflicted = Diff {
        before: vec![None],
        after: vec![Some(file(1)), None, Some(file(2))],
    };
    assert!(!added(1).same(&conflicted));
    assert!(conflicted.same(&Diff {
        before: vec![None],
        after: vec![Some(file(1)), None, Some(file(2))],
    }));
}

#[test]
fn insertion_order_does_not_matter() {
    let a = adds(&[("a", 1), ("b/c", 2), ("b.c", 3)]);
    let b = adds(&[("b.c", 3), ("a", 1), ("b/c", 2)]);
    assert!(a.same(&b));
    assert_eq!(texts(&a.paths()), vec!["a", "b/c", "b.c"]);
    assert_eq!(texts(&b.paths()), vec!["a", "b/c", "b.c"]);
    assert!(Fingerprint::new().same(&Fingerprint::new()));
    assert!(Fingerprint::new().is_empty());
    assert!(!a.is_empty());
    assert!(!a.same(&Fingerprint::new()));
}

#[test]
fn later_diff_replaces_earlier_one() {
    let a = adds(&[("a", 1), ("b", 2), ("a", 3)]);
    assert!(a.same(&adds(&[("a", 3), ("b", 2)])));
    assert!(!a.same(&adds(&[("a", 1), ("b", 2)])));
    assert_eq!(texts(&a.paths()), vec!["a", "b"]);
}

#[test]
fn fingerprint_collects_entries() {
    let entries: Vec<TreeDiffEntry<String>> = vec![
        TreeDiffEntry {
            path: path("b"),
            values: Ok(added(1)),
        },
        TreeDiffEntry {
            path: path("a"),
            values: Ok(added(2)),
        },
    ];
    let fingerprint = commit_diff_fingerprint(entries).expect("all readable");
    assert!(fingerprint.same(&adds(&[("a", 2), ("b", 1)])));
    let none: Vec<TreeDiffEntry<String>> = vec![];
    assert!(commit_diff_fingerprint(none)
        .expect("nothing to read")
        .same(&Fingerprint::new()));
}

/// The fingerprint of a commit with this tree on these parents' tree, each with
/// a file for each name.
fn commit(parent: &[(&str, u8)], tree: &[(&str, u8)]) -> Fingerprint {
    let at = |files: &[(&str, u8)], name: &str| {
        let found = files.iter().find(|(n, _)| *n == name);
        vec![found.map(|(_, id)| file(*id))]
    };
    let mut entries: Vec<TreeDiffEntry<String>> = Vec::new();
    for (name, _) in tree.iter().chain(parent) {
        let (before, after) = (at(parent, name), at(tree, name));
        if before != after {
            entries.push(TreeDiffEntry {
                path: path(name),
                values: Ok(Diff { before, after }),
            });
        }
    }
    commit_diff_fingerprint(entries).expect("all readable")
}

#[test]
fn fingerprint_is_what_a_commit_does_to_its_parents() {
    let edit = commit(&[("a", 1), ("b", 1)], &[("a", 2), ("b", 1)]);
    assert_eq!(texts(&edit.paths()), vec!["a"]);
    // The same edit on parents that differ elsewhere.
    assert!(edit.same(&commit(&[("a", 1), ("c", 9)], &[("a", 2), ("c", 9)])));
    // To the same tree, but from other parents.
    assert!(!edit.same(&commit(&[("a", 3), ("b", 1)], &[("a", 2), ("b", 1)])));
    assert!(!edit.same(&commit(&[("b", 1)], &[("a", 2), ("b", 1)])));
    assert!(!edit.same(&commit(&[("a", 1)], &[("a", 2), ("b", 1)])));
    // From the same parents, but to another tree.
    assert!(!edit.same(&commit(&[("a", 1), ("b", 1)], &[("a", 3), ("b", 1)])));
    assert!(!edit.same(&commit(&[("a", 1), ("b", 1)], &[("b", 1)])));
    // Commits that change nothing.
    assert!(commit(&[("a", 1)], &[("a", 1)]).same(&commit(&[], &[])));
}

#[test]
fn first_unreadable_entry_is_the_error() {
    let entries: Vec<TreeDiffEntry<&str>> = vec![
        TreeDiffEntry {
            path: path("a"),
            values: Ok(added(1)),
        },
        TreeDiffEntry {
            path: path("b"),
            values: Err("first"),
        },
        TreeDiffEntry {
            path: path("c"),
            values: Err("second"),
        },
    ];
    assert_eq!(commit_diff_fingerprint(entries).err(), Some("first"));
}

#[test]
fn changes_are_added_removed_and_altered_paths() {
    let described = adds(&[("gone/x", 1), ("kept", 2), ("altered", 3)]);
    let current = adds(&[("kept", 2), ("altered", 4), ("new", 5)]);
    let expected = vec!["altered", "gone/x", "new"];
    assert_eq!(
        texts(&diff_fingerprint_changes(&described, &current)),
        expected
    );
    assert_eq!(
        texts(&diff_fingerprint_changes(&current, &described)),
        expected
    );
    assert!(diff_fingerprint_changes(&current, &current).is_empty());
    assert_eq!(
        texts(&diff_fingerprint_changes(&Fingerprint::new(), &current)),
        vec!["altered", "kept", "new"]
    );
}

#[test]
fn short_identifier_has_twelve_digits_at_most() {
    assert_eq!(
        change_id_short(&vec![0x01, 0x23, 0x45, 0x67, 0x89, 0xab, 0xcd, 0xef]),
        "zyxwvutsrqpo"
    );
    assert_eq!(
        change_id_short(&vec![0xff, 0x00, 0x8a, 0x3c, 0x5e, 0x71]),
        "kkzzrpwnulsy"
    );
    assert_eq!(change_id_short(&vec![0x0f, 0xa5]), "zkpu");
    assert_eq!(change_id_short(&vec![]), "");
    for a in 0..=255u8 {
        for b in 0..=255u8 {
            assert_eq!(change_id_short(&vec![a]) == change_id_short(&vec![b]), a == b);
        }
    }
}

#[test]
fn change_without_description_reports_all_files() {
    let info = check("", &[("b", 1), ("a", 2)], vec![]).expect("stale");
    assert_eq!(info.change_id_short, "zyxwvutsrqpo");
    assert_eq!(texts(&info.changed_files), vec!["a", "b"]);
}

#[test]
fn change_without_description_and_content_is_current() {
    assert_eq!(check("", &[], vec![]), None);
    assert_eq!(check("", &[], vec![step("", &[])]), None);
    assert_eq!(check("", &[], vec![step("", &[]), step("", &[])]), None);
    // A description that was taken away along with the content.
    assert_eq!(
        check("", &[], vec![step("", &[]), step("x", &[("a", 1)])]),
        None
    );
}

#[test]
fn content_that_was_taken_away_is_reported() {
    let evolog = vec![step("", &[]), step("", &[("b", 1), ("a", 2)])];
    let info = check("", &[], evolog).expect("stale");
    assert_eq!(texts(&info.changed_files), vec!["a", "b"]);
}

#[test]
fn change_without_evolution_is_current() {
    assert_eq!(check("x", &[("a", 1)], vec![]), None);
    assert_eq!(check("x", &[("a", 1)], vec![step("x", &[("a", 1)])]), None);
}

#[test]
fn content_is_compared_with_the_step_that_described_it() {
    // Newest first: an edit, a describe, an edit before it.
    let evolog = vec![
        step("new", &[("a", 3), ("b", 1)]),
        step("new", &[("a", 2)]),
        step("old", &[("a", 1)]),
    ];
    let info = check("new", &[("a", 3), ("b", 1)], evolog).expect("stale");
    assert_eq!(texts(&info.changed_files), vec!["a", "b"]);
}

#[test]
fn edit_that_was_undone_is_current() {
    let evolog = vec![
        step("x", &[("a", 1)]),
        step("x", &[("a", 2)]),
        step("x", &[("a", 1)]),
    ];
    assert_eq!(check("x", &[("a", 1)], evolog), None);
}

#[test]
fn describing_again_makes_current() {
    let evolog = vec![
        step("new", &[("a", 2)]),
        step("old", &[("a", 2)]),
        step("old", &[("a", 1)]),
    ];
    assert_eq!(check("new", &[("a", 2)], evolog), None);
}

#[test]
fn description_that_came_back_counts_from_its_return() {
    let evolog = vec![
        step("x", &[("a", 2)]),
        step("y", &[("a", 2)]),
        step("x", &[("a", 1)]),
    ];
    assert_eq!(check("x", &[("a", 2)], evolog), None);
}

#[test]
fn rebase_keeps_a_stale_change_stale() {
    let evolog = vec![
        step("x", &[("a", 2)]),
        step("x", &[("a", 2)]),
        step("x", &[("a", 1)]),
    ];
    let info = check("x", &[("a", 2)], evolog).expect("stale");
    assert_eq!(texts(&info.changed_files), vec!["a"]);
}

#[test]
fn steps_beyond_the_bound_are_not_looked_at() {
    let evolog = |unchanged: usize| {
        let mut steps: Vec<EvologEntry> = Vec::new();
        for _ in 0..unchanged {
            steps.push(step("x", &[("a", 2)]));
        }
        steps.push(step("x", &[("a", 1)]));
        steps
    };
    assert_eq!(MAX_EVOLOG_ENTRIES, 200);
    assert!(check("x", &[("a", 2)], evolog(199)).is_some());
    assert!(check("x", &[("a", 2)], evolog(200)).is_none());
}

#[test]
fn walk_ends_at_the_bound() {
    let id = vec![0u8; 8];
    let mut walk = match StalenessCheck::new(&id, "x") {
        StalenessCheck::Described(walk) => walk,
        StalenessCheck::Undescribed(_) => panic!("described"),
    };
    for _ in 0..199 {
        assert!(walk.step("x"));
    }
    assert!(!walk.step("x"));
    assert!(!walk.step("y"));
    let check = walk.finish().expect("more than one step");
    assert_eq!(check.described_step(), 199);
    let info = check
        .finish(&adds(&[("a", 1)]), &adds(&[("a", 2)]))
        .expect("stale");
    assert_eq!(info.change_id_short, "zzzzzzzzzzzz");
    assert!(matches!(
        StalenessCheck::new(&id, ""),
        StalenessCheck::Undescribed(_)
    ));
}
