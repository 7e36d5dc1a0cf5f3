//! What a tree holds at a path, and how a change alters it.

use vstd::prelude::*;

verus! {

/// What a tree holds at one path. Identifiers are the backend's bytes.
#[derive(Debug, PartialEq, Eq)]
pub enum TreeValue {
    File { id: Vec<u8>, executable: bool, copy_id: Vec<u8> },
    Symlink(Vec<u8>),
    Tree(Vec<u8>),
    GitSubmodule(Vec<u8>),
}

/// The model of a [`TreeValue`].
pub enum TreeValueView {
    File { id: Seq<u8>, executable: bool, copy_id: Seq<u8> },
    Symlink(Seq<u8>),
    Tree(Seq<u8>),
    GitSubmodule(Seq<u8>),
}

impl DeepView for TreeValue {
    type V = TreeValueView;

    open spec fn deep_view(&self) -> TreeValueView {
        match self {
            TreeValue::File { id, executable, copy_id } => TreeValueView::File {
                id: id@,
                executable: *executable,
                copy_id: copy_id@,
            },
            TreeValue::Symlink(id) => TreeValueView::Symlink(id@),
            TreeValue::Tree(id) => TreeValueView::Tree(id@),
            TreeValue::GitSubmodule(id) => TreeValueView::GitSubmodule(id@),
        }
    }
}

/// What stands at a path before and after a change. Each side is a merge: its
/// terms in turn add and remove a value, and `None` is an absent one. A side
/// without conflict has a single term.
#[derive(Debug, PartialEq, Eq)]
pub struct Diff {
    pub before: Vec<Option<TreeValue>>,
    pub after: Vec<Option<TreeValue>>,
}

/// The model of a [`Diff`].
pub struct DiffView {
    pub before: Seq<Option<TreeValueView>>,
    pub after: Seq<Option<TreeValueView>>,
}

impl View for Diff {
    type V = DiffView;

    open spec fn view(&self) -> DiffView {
        DiffView { before: self.before.deep_view(), after: self.after.deep_view() }
    }
}

fn same_bytes(a: &Vec<u8>, b: &Vec<u8>) -> (same: bool)
    ensures
        same == (a@ == b@),
{
    if a.len() != b.len() {
        return false;
    }
    for i in 0..a.len()
        invariant
            a.len() == b.len(),
            forall|j: int| 0 <= j < i ==> a[j] == b[j],
    {
        if a[i] != b[i] {
            return false;
        }
    }
    assert(a@ =~= b@);
    true
}

impl TreeValue {
    /// Whether the two values are of one kind and agree in every field.
    pub fn same(&self, other: &TreeValue) -> (same: bool)
        ensures
            same == (self.deep_view() == other.deep_view()),
    {
        match (self, other) {
            (
                TreeValue::File { id, executable, copy_id },
                TreeValue::File { id: id2, executable: executable2, copy_id: copy_id2 },
            ) => same_bytes(id, id2) && *executable == *executable2 && same_bytes(
                copy_id,
                copy_id2,
            ),
            (TreeValue::Symlink(id), TreeValue::Symlink(id2)) => same_bytes(id, id2),
            (TreeValue::Tree(id), TreeValue::Tree(id2)) => same_bytes(id, id2),
            (TreeValue::GitSubmodule(id), TreeValue::GitSubmodule(id2)) => same_bytes(id, id2),
            _ => false,
        }
    }
}

fn same_terms(a: &Vec<Option<TreeValue>>, b: &Vec<Option<TreeValue>>) -> (same: bool)
    ensures
        same == (a.deep_view() == b.deep_view()),
{
    if a.len() != b.len() {
        assert(a.deep_view().len() != b.deep_view().len());
        return false;
    }
    for i in 0..a.len()
        invariant
            a.len() == b.len(),
            forall|j: int| 0 <= j < i ==> a.deep_view()[j] == b.deep_view()[j],
    {
        let same = match (&a[i], &b[i]) {
            (Some(x), Some(y)) => x.same(y),
            (None, None) => true,
            _ => false,
        };
        assert(same == (a.deep_view()[i as int] == b.deep_view()[i as int]));
        if !same {
            return false;
        }
    }
    assert(a.deep_view() =~= b.deep_view());
    true
}

impl Diff {
    /// Whether the two diffs agree, term by term, on both sides.
    pub fn same(&self, other: &Diff) -> (same: bool)
        ensures
            same == (self@ == other@),
    {
        same_terms(&self.before, &other.before) && same_terms(&self.after, &other.after)
    }
}

/// Two tree values are the same just when they are of one kind and agree in
/// every field of it.
pub proof fn law_same_value(a: TreeValue, b: TreeValue, same: bool)
    requires
        call_ensures(TreeValue::same, (&a, &b), same),
    ensures
        same <==> match (a, b) {
            (
                TreeValue::File { id, executable, copy_id },
                TreeValue::File { id: id2, executable: executable2, copy_id: copy_id2 },
            ) => id@ == id2@ && executable == executable2 && copy_id@ == copy_id2@,
            (TreeValue::Symlink(id), TreeValue::Symlink(id2)) => id@ == id2@,
            (TreeValue::Tree(id), TreeValue::Tree(id2)) => id@ == id2@,
            (TreeValue::GitSubmodule(id), TreeValue::GitSubmodule(id2)) => id@ == id2@,
            _ => false,
        },
        same <==> a.deep_view() == b.deep_view(),
{
}

/// Two diffs are the same just when they agree before and after, term by term,
/// in what is absent and in what is there.
pub proof fn law_same_diff(a: Diff, b: Diff, same: bool)
    requires
        call_ensures(Diff::same, (&a, &b), same),
    ensures
        same <==> {
            &&& a.before.len() == b.before.len()
            &&& a.after.len() == b.after.len()
            &&& forall|i: int|
                0 <= i < a.before.len() ==> match (#[trigger] a.before[i], b.before[i]) {
                    (None, None) => true,
                    (Some(x), Some(y)) => x.deep_view() == y.deep_view(),
                    _ => false,
                }
            &&& forall|i: int|
                0 <= i < a.after.len() ==> match (#[trigger] a.after[i], b.after[i]) {
                    (None, None) => true,
                    (Some(x), Some(y)) => x.deep_view() == y.deep_view(),
                    _ => false,
                }
        },
        same <==> a@ == b@,
{
    lemma_same_terms(a.before, b.before);
    lemma_same_terms(a.after, b.after);
}

proof fn lemma_same_terms(a: Vec<Option<TreeValue>>, b: Vec<Option<TreeValue>>)
    ensures
        a.deep_view() == b.deep_view() <==> a.len() == b.len() && forall|i: int|
            0 <= i < a.len() ==> match (#[trigger] a[i], b[i]) {
                (None, None) => true,
                (Some(x), Some(y)) => x.deep_view() == y.deep_view(),
                _ => false,
            },
{
    let (x, y) = (a.deep_view(), b.deep_view());
    assert(x.len() == a.len() && y.len() == b.len());
    assert forall|i: int| 0 <= i < a.len() && a.len() == b.len() implies (x[i] == y[i] <==> match (
        #[trigger] a[i],
        b[i],
    ) {
        (None, None) => true,
        (Some(x), Some(y)) => x.deep_view() == y.deep_view(),
        _ => false,
    }) by {
        assert(x[i] == a[i].deep_view() && y[i] == b[i].deep_view());
    }
    if a.len() == b.len() && forall|i: int|
        0 <= i < a.len() ==> match (#[trigger] a[i], b[i]) {
            (None, None) => true,
            (Some(x), Some(y)) => x.deep_view() == y.deep_view(),
            _ => false,
        } {
        assert forall|i: int| 0 <= i < x.len() implies x[i] == y[i] by {
            assert(a[i] == a@[i]);
        }
        assert(x =~= y);
    }
}

} // verus!
