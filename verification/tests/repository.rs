//! Checks of changes in a real repository.

use std::sync::Arc;

use active_descriptions::fingerprint::{commit_diff_fingerprint, Fingerprint, TreeDiffEntry};
use active_descriptions::id::change_id_short;
use active_descriptions::path::RepoPath;
use active_descriptions::staleness::{
    check_staleness as check_recorded, Change, EvologEntry, EvologWalk, StalenessCheck, StalenessInfo,
    UndescribedStep,
};
use active_descriptions::tree::{Diff, TreeValue};
use futures::StreamExt as _;
use jj_lib::backend::{BackendError, CommitId, CopyId};
use jj_lib::commit::Commit;
use jj_lib::config::StackedConfig;
use jj_lib::evolution::walk_predecessors;
use jj_lib::matchers::EverythingMatcher;
use jj_lib::merge::MergedTreeValue;
use jj_lib::merged_tree::MergedTree;
use jj_lib::object_id::ObjectId as _;
use jj_lib::repo::{ReadonlyRepo, Repo as _};
use jj_lib::settings::UserSettings;
use jj_lib::signing::Signer;
use jj_lib::simple_backend::SimpleBackend;
use jj_lib::tree_builder::TreeBuilder;
use pollster::FutureExt as _;

/// A repository in a directory of its own, which goes when this does.
struct TestRepo {
    _directory: tempfile::TempDir,
    repo: Arc<ReadonlyRepo>,
}

impl TestRepo {
    fn init() -> TestRepo {
        let directory = tempfile::tempdir().expect("temporary directory");
        let settings =
            UserSettings::from_config(StackedConfig::with_defaults()).expect("settings");
        let repo = ReadonlyRepo::init(
            &settings,
            directory.path(),
            &|_settings, store_path| Ok(Box::new(SimpleBackend::init(store_path))),
            Signer::from_settings(&settings).expect("signer"),
            ReadonlyRepo::default_op_store_initializer(),
            ReadonlyRepo::default_op_heads_store_initializer(),
            ReadonlyRepo::default_index_store_initializer(),
            ReadonlyRepo::default_submodule_store_initializer(),
        )
        .expect("repository");
        TestRepo {
            _directory: directory,
            repo,
        }
    }
}

/// A tree with the given file contents.
fn tree(repo: &Arc<ReadonlyRepo>, files: &[(&str, &str)]) -> MergedTree {
    let store = repo.store();
    let mut builder = TreeBuilder::new(store.clone(), store.empty_tree_id().clone());
    for (path, contents) in files {
        let path = jj_lib::repo_path::RepoPathBuf::from_internal_string(*path).expect("valid path");
        let id = store
            .write_file(&path, &mut contents.as_bytes())
            .block_on()
            .expect("write file");
        builder.set(
            path,
            jj_lib::backend::TreeValue::File {
                id,
                executable: false,
                copy_id: CopyId::placeholder(),
            },
        );
    }
    let id = builder.write_tree().expect("write tree");
    MergedTree::resolved(store.clone(), id)
}

fn terms(value: &MergedTreeValue) -> Vec<Option<TreeValue>> {
    value
        .iter()
        .map(|term| {
            term.as_ref().map(|value| match value {
                jj_lib::backend::TreeValue::File {
                    id,
                    executable,
                    copy_id,
                } => TreeValue::File {
                    id: id.to_bytes(),
                    executable: *executable,
                    copy_id: copy_id.to_bytes(),
                },
                jj_lib::backend::TreeValue::Symlink(id) => TreeValue::Symlink(id.to_bytes()),
                jj_lib::backend::TreeValue::Tree(id) => TreeValue::Tree(id.to_bytes()),
                jj_lib::backend::TreeValue::GitSubmodule(id) => {
                    TreeValue::GitSubmodule(id.to_bytes())
                }
            })
        })
        .collect()
}

fn fingerprint(repo: &ReadonlyRepo, commit: &Commit) -> Fingerprint {
    let tree = commit.tree();
    let parent_tree = commit.parent_tree(repo).expect("parent tree");
    let mut stream = parent_tree.diff_stream(&tree, &EverythingMatcher);
    let mut entries: Vec<TreeDiffEntry<BackendError>> = Vec::new();
    async {
        while let Some(entry) = stream.next().await {
            entries.push(TreeDiffEntry {
                path: RepoPath::from_internal_string(
                    entry.path.as_internal_file_string().to_owned(),
                )
                .expect("valid path"),
                values: entry.values.map(|diff| Diff {
                    before: terms(&diff.before),
                    after: terms(&diff.after),
                }),
            });
        }
    }
    .block_on();
    commit_diff_fingerprint(entries).expect("readable diff")
}

fn walk_evolog(
    repo: &ReadonlyRepo,
    commit: &Commit,
    evolog: &[Commit],
    mut walk: EvologWalk,
) -> Option<StalenessInfo> {
    for step in evolog {
        if !walk.step(step.description()) {
            break;
        }
    }
    let check = walk.finish()?;
    let described = fingerprint(repo, &evolog[check.described_step()]);
    check.finish(&described, &fingerprint(repo, commit))
}

/// Checks a commit step by step, and from a record of its whole evolution.
fn check_staleness(repo: &ReadonlyRepo, commit_id: &CommitId) -> Option<StalenessInfo> {
    let commit = repo.store().get_commit(commit_id).expect("commit");
    let evolog: Vec<Commit> = walk_predecessors(repo, std::slice::from_ref(commit_id))
        .map(|entry| entry.expect("evolog entry").commit)
        .collect();
    assert_eq!(evolog[0].id(), commit_id);

    let change_id = commit.change_id().to_bytes();
    let stepwise = match StalenessCheck::new(&change_id, commit.description()) {
        StalenessCheck::Undescribed(check) => match check.finish(&fingerprint(repo, &commit)) {
            UndescribedStep::Stale(info) => Some(info),
            UndescribedStep::Walk(walk) => walk_evolog(repo, &commit, &evolog, walk),
        },
        StalenessCheck::Described(walk) => walk_evolog(repo, &commit, &evolog, walk),
    };

    let recorded = check_recorded(
        &Change {
            change_id,
            description: commit.description().to_owned(),
            content: fingerprint(repo, &commit),
        },
        &evolog
            .iter()
            .map(|step| EvologEntry {
                description: step.description().to_owned(),
                content: fingerprint(repo, step),
            })
            .collect(),
    );
    assert_eq!(stepwise, recorded);
    recorded
}

fn changed_files(info: &StalenessInfo) -> Vec<String> {
    info.changed_files
        .iter()
        .map(|f| f.as_internal_file_string().to_owned())
        .collect()
}

#[test]
fn empty_description_is_stale() {
    let test_repo = TestRepo::init();
    let repo = &test_repo.repo;

    let t = tree(repo, &[("file.txt", "content")]);
    let mut tx = repo.start_transaction();
    let commit = tx
        .repo_mut()
        .new_commit(vec![repo.store().root_commit_id().clone()], t)
        .write()
        .expect("write commit");
    let repo = tx.commit("create").expect("commit tx");

    let info = check_staleness(&repo, commit.id());
    assert!(info.is_some());
    assert_eq!(changed_files(&info.expect("stale")), vec!["file.txt"]);
}

#[test]
fn described_at_creation_not_stale() {
    let test_repo = TestRepo::init();
    let repo = &test_repo.repo;

    let t = tree(repo, &[("file.txt", "content")]);
    let mut tx = repo.start_transaction();
    let commit = tx
        .repo_mut()
        .new_commit(vec![repo.store().root_commit_id().clone()], t)
        .set_description("feat: add file")
        .write()
        .expect("write commit");
    let repo = tx.commit("create").expect("commit tx");

    assert!(check_staleness(&repo, commit.id()).is_none());
}

#[test]
fn content_edit_after_describe_is_stale() {
    let test_repo = TestRepo::init();
    let repo = &test_repo.repo;

    // Create commit with content + description.
    let t = tree(repo, &[("file.txt", "v1")]);
    let mut tx = repo.start_transaction();
    let c1 = tx
        .repo_mut()
        .new_commit(vec![repo.store().root_commit_id().clone()], t)
        .set_description("feat: initial")
        .write()
        .expect("write");
    let repo = tx.commit("create").expect("tx");

    // Edit content without updating description.
    let t2 = tree(&repo, &[("file.txt", "v2")]);
    let mut tx = repo.start_transaction();
    let c2 = tx
        .repo_mut()
        .rewrite_commit(&c1)
        .set_tree(t2)
        .write()
        .expect("rewrite");
    tx.repo_mut()
        .rebase_descendants()
        .expect("rebase descendants");
    let repo = tx.commit("edit").expect("tx");

    let info = check_staleness(&repo, c2.id()).expect("should be stale");
    assert_eq!(changed_files(&info), vec!["file.txt"]);
}

#[test]
fn describe_after_content_edit_not_stale() {
    let test_repo = TestRepo::init();
    let repo = &test_repo.repo;

    // Create commit with content.
    let t = tree(repo, &[("file.txt", "v1")]);
    let mut tx = repo.start_transaction();
    let c1 = tx
        .repo_mut()
        .new_commit(vec![repo.store().root_commit_id().clone()], t)
        .set_description("feat: initial")
        .write()
        .expect("write");
    let repo = tx.commit("create").expect("tx");

    // Edit content.
    let t2 = tree(&repo, &[("file.txt", "v2")]);
    let mut tx = repo.start_transaction();
    let c2 = tx
        .repo_mut()
        .rewrite_commit(&c1)
        .set_tree(t2)
        .write()
        .expect("rewrite");
    tx.repo_mut()
        .rebase_descendants()
        .expect("rebase descendants");
    let repo = tx.commit("edit content").expect("tx");

    // Update description to match.
    let mut tx = repo.start_transaction();
    let c3 = tx
        .repo_mut()
        .rewrite_commit(&c2)
        .set_description("feat: updated")
        .write()
        .expect("describe");
    tx.repo_mut()
        .rebase_descendants()
        .expect("rebase descendants");
    let repo = tx.commit("describe").expect("tx");

    assert!(check_staleness(&repo, c3.id()).is_none());
}

#[test]
fn rebase_without_content_change_not_stale() {
    let test_repo = TestRepo::init();
    let repo = &test_repo.repo;
    let root_id = repo.store().root_commit_id().clone();

    // Create parent commit.
    let parent_tree = tree(repo, &[("base.txt", "base")]);
    let mut tx = repo.start_transaction();
    let parent = tx
        .repo_mut()
        .new_commit(vec![root_id.clone()], parent_tree)
        .set_description("base")
        .write()
        .expect("write parent");
    let repo = tx.commit("create parent").expect("tx");

    // Create child commit with description.
    let child_tree = tree(&repo, &[("base.txt", "base"), ("feat.txt", "feature")]);
    let mut tx = repo.start_transaction();
    let child = tx
        .repo_mut()
        .new_commit(vec![parent.id().clone()], child_tree)
        .set_description("feat: add feature")
        .write()
        .expect("write child");
    let repo = tx.commit("create child").expect("tx");

    // Simulate rebase: change parent but keep same diff (feat.txt added).
    let new_parent_tree = tree(&repo, &[("base.txt", "base"), ("other.txt", "other")]);
    let mut tx = repo.start_transaction();
    let new_parent = tx
        .repo_mut()
        .new_commit(vec![root_id.clone()], new_parent_tree)
        .set_description("base v2")
        .write()
        .expect("write new parent");

    // Rebased child: new parent, but still adds feat.txt.
    let rebased_tree = tree(
        tx.repo().base_repo(),
        &[
            ("base.txt", "base"),
            ("other.txt", "other"),
            ("feat.txt", "feature"),
        ],
    );
    let rebased = tx
        .repo_mut()
        .rewrite_commit(&child)
        .set_parents(vec![new_parent.id().clone()])
        .set_tree(rebased_tree)
        .write()
        .expect("rebase");
    tx.repo_mut()
        .rebase_descendants()
        .expect("rebase descendants");
    let repo = tx.commit("rebase").expect("tx");

    // Diff is still just "add feat.txt": not stale.
    assert!(check_staleness(&repo, rebased.id()).is_none());
}

#[test]
fn split_preserving_diff_not_stale() {
    let test_repo = TestRepo::init();
    let repo = &test_repo.repo;
    let root_id = repo.store().root_commit_id().clone();

    // Create commit with two files and a description.
    let t = tree(repo, &[("a.txt", "aaa"), ("b.txt", "bbb")]);
    let mut tx = repo.start_transaction();
    let original = tx
        .repo_mut()
        .new_commit(vec![root_id.clone()], t)
        .set_description("feat: add a and b")
        .write()
        .expect("write");
    let repo = tx.commit("create").expect("tx");

    // Simulate split: first commit gets b.txt, second (rewrite of original)
    // gets a.txt but is reparented onto first.
    let first_tree = tree(&repo, &[("b.txt", "bbb")]);
    let mut tx = repo.start_transaction();
    let first = tx
        .repo_mut()
        .new_commit(vec![root_id.clone()], first_tree)
        .set_description("feat: add b")
        .write()
        .expect("write first");

    // Remaining commit: reparented, full tree holds parent's b.txt.
    let remaining_tree = tree(tx.repo().base_repo(), &[("a.txt", "aaa"), ("b.txt", "bbb")]);
    let remaining = tx
        .repo_mut()
        .rewrite_commit(&original)
        .set_parents(vec![first.id().clone()])
        .set_tree(remaining_tree)
        .set_description("feat: add a")
        .write()
        .expect("write remaining");
    tx.repo_mut()
        .rebase_descendants()
        .expect("rebase descendants");
    let repo = tx.commit("split").expect("tx");

    // The remaining commit's diff is "add a.txt", and its description was set
    // in the same operation. Not stale.
    assert!(check_staleness(&repo, remaining.id()).is_none());
}

#[test]
fn squash_changing_diff_is_stale() {
    let test_repo = TestRepo::init();
    let repo = &test_repo.repo;
    let root_id = repo.store().root_commit_id().clone();

    // Create commit with description covering one file.
    let t = tree(repo, &[("original.txt", "content")]);
    let mut tx = repo.start_transaction();
    let c1 = tx
        .repo_mut()
        .new_commit(vec![root_id.clone()], t)
        .set_description("feat: add original")
        .write()
        .expect("write");
    let repo = tx.commit("create").expect("tx");

    // Squash new content in without updating description.
    let t2 = tree(
        &repo,
        &[("original.txt", "content"), ("extra.txt", "extra")],
    );
    let mut tx = repo.start_transaction();
    let c2 = tx
        .repo_mut()
        .rewrite_commit(&c1)
        .set_tree(t2)
        .write()
        .expect("squash");
    tx.repo_mut()
        .rebase_descendants()
        .expect("rebase descendants");
    let repo = tx.commit("squash").expect("tx");

    // Diff changed (now with extra.txt) but description wasn't updated.
    let info = check_staleness(&repo, c2.id()).expect("should be stale");
    assert_eq!(changed_files(&info), vec!["extra.txt"]);
}

#[test]
fn empty_description_without_content_not_stale() {
    let test_repo = TestRepo::init();
    let repo = &test_repo.repo;

    let t = tree(repo, &[]);
    let mut tx = repo.start_transaction();
    let commit = tx
        .repo_mut()
        .new_commit(vec![repo.store().root_commit_id().clone()], t)
        .write()
        .expect("write commit");
    let repo = tx.commit("create").expect("commit tx");

    assert!(check_staleness(&repo, commit.id()).is_none());
}

#[test]
fn short_identifier_is_the_start_of_the_shown_one() {
    let test_repo = TestRepo::init();
    let repo = &test_repo.repo;

    let t = tree(repo, &[("file.txt", "content")]);
    let mut tx = repo.start_transaction();
    let commit = tx
        .repo_mut()
        .new_commit(vec![repo.store().root_commit_id().clone()], t)
        .write()
        .expect("write commit");
    let repo = tx.commit("create").expect("commit tx");

    let info = check_staleness(&repo, commit.id()).expect("should be stale");
    let shown = commit.change_id().to_string();
    assert_eq!(info.change_id_short, shown[..12]);
    assert_eq!(
        change_id_short(&commit.change_id().to_bytes()),
        info.change_id_short
    );
}

#[test]
fn files_are_listed_in_the_order_of_the_repository() {
    let test_repo = TestRepo::init();
    let repo = &test_repo.repo;

    let t = tree(repo, &[("a.txt", "1"), ("a/b", "2"), ("a0", "3"), ("a/b.c/d", "4")]);
    let mut tx = repo.start_transaction();
    let commit = tx
        .repo_mut()
        .new_commit(vec![repo.store().root_commit_id().clone()], t)
        .write()
        .expect("write commit");
    let repo = tx.commit("create").expect("commit tx");

    let info = check_staleness(&repo, commit.id()).expect("should be stale");
    assert_eq!(
        changed_files(&info),
        vec!["a/b", "a/b.c/d", "a.txt", "a0"]
    );
}
