//! Fingerprints of a commit's content: what it changes against its parents.

use crate::path::{
    in_order, law_one_listing, law_path_order, lists, path_less, PathOrder, RepoPath,
};
use crate::tree::{Diff, DiffView, TreeValueView};
use vstd::prelude::*;

verus! {

/// The paths at which two fingerprints differ: those that only one of them
/// has, and those at which both have a diff, but not the same one.
pub open spec fn changed_paths(
    described: Map<Seq<char>, DiffView>,
    current: Map<Seq<char>, DiffView>,
) -> Set<Seq<char>> {
    Set::new(
        |p: Seq<char>|
            {
                ||| described.contains_key(p) != current.contains_key(p)
                ||| described.contains_key(p) && current.contains_key(p) && described[p]
                    != current[p]
            },
    )
}

#[derive(Debug, PartialEq, Eq)]
struct Entry {
    path: RepoPath,
    diff: Diff,
}

spec fn paths(entries: Seq<Entry>) -> Seq<Seq<char>> {
    Seq::new(entries.len(), |i: int| entries[i].path@)
}

spec fn as_map(entries: Seq<Entry>) -> Map<Seq<char>, DiffView> {
    Map::new(
        |p: Seq<char>| paths(entries).contains(p),
        |p: Seq<char>| entries[paths(entries).index_of(p)].diff@,
    )
}

/// What a commit changes against its parents: a diff for each path that it
/// touches. Two commits have the same content just when their fingerprints are
/// the same, whatever parents they sit on.
#[derive(Debug, PartialEq, Eq)]
pub struct Fingerprint {
    /// In listing order of the paths.
    entries: Vec<Entry>,
}

impl View for Fingerprint {
    type V = Map<Seq<char>, DiffView>;

    closed spec fn view(&self) -> Map<Seq<char>, DiffView> {
        as_map(self.entries@)
    }
}

proof fn lemma_map_at(entries: Seq<Entry>, i: int)
    requires
        in_order(paths(entries)),
        0 <= i < entries.len(),
    ensures
        as_map(entries).contains_key(entries[i].path@),
        as_map(entries)[entries[i].path@] == entries[i].diff@,
{
    let ps = paths(entries);
    let p = ps[i];
    assert(ps.contains(p));
    let k = ps.index_of(p);
    assert(0 <= k < ps.len() && ps[k] == p);
    law_path_order(p, p, p);
    assert(k == i);
}

/// The paths of the entries list the domain of the map.
proof fn lemma_paths_list_domain(entries: Seq<Entry>)
    requires
        in_order(paths(entries)),
    ensures
        lists(paths(entries), as_map(entries).dom()),
{
}

/// Where `path` stands among the entries, or where it would have to stand.
fn position(entries: &Vec<Entry>, path: &RepoPath) -> (found: (usize, bool))
    requires
        in_order(paths(entries@)),
    ensures
        found.0 <= entries.len(),
        forall|j: int|
            0 <= j < found.0 ==> path_less(#[trigger] paths(entries@)[j], path@),
        found.1 ==> found.0 < entries.len() && entries[found.0 as int].path@ == path@,
        forall|j: int|
            found.0 <= j < entries.len() && !(found.1 && j == found.0)
                ==> path_less(path@, #[trigger] paths(entries@)[j]),
{
    let ghost ps = paths(entries@);
    // Diffs mostly arrive in listing order, so the search starts at the end.
    let mut at: usize = entries.len();
    while at > 0
        invariant
            ps == paths(entries@),
            in_order(ps),
            at <= entries.len(),
            forall|j: int| at <= j < ps.len() ==> path_less(path@, #[trigger] ps[j]),
        decreases at,
    {
        let order = path.order(&entries[at - 1].path);
        assert(ps[at - 1] == entries@[at - 1].path@);
        match order {
            PathOrder::Before => {
                at = at - 1;
            },
            PathOrder::Same => {
                return (at - 1, true);
            },
            PathOrder::After => {
                proof {
                    assert forall|j: int| 0 <= j < at implies path_less(
                        #[trigger] ps[j],
                        path@,
                    ) by {
                        if j < at - 1 {
                            law_path_order(ps[j], ps[at - 1], path@);
                        }
                    }
                }
                return (at, false);
            },
        }
    }
    (0, false)
}

impl Fingerprint {
    #[verifier::type_invariant]
    spec fn well_formed(self) -> bool {
        in_order(paths(self.entries@))
    }

    /// The fingerprint of a commit that changes nothing.
    pub fn new() -> (fingerprint: Fingerprint)
        ensures
            fingerprint@ == Map::<Seq<char>, DiffView>::empty(),
    {
        let entries: Vec<Entry> = Vec::new();
        assert(as_map(entries@) =~= Map::<Seq<char>, DiffView>::empty());
        Fingerprint { entries }
    }

    /// Sets the diff at `path`, in place of one that stands there already.
    pub fn insert(&mut self, path: RepoPath, diff: Diff)
        ensures
            final(self)@ == old(self)@.insert(path@, diff@),
    {
        proof {
            use_type_invariant(&*self);
        }
        let ghost before = self.entries@;
        let mut entries: Vec<Entry> = Vec::new();
        std::mem::swap(&mut entries, &mut self.entries);
        let (at, found) = position(&entries, &path);
        let ghost added = Entry { path, diff };
        if found {
            entries.set(at, Entry { path, diff });
            proof {
                assert(paths(entries@) =~= paths(before));
            }
        } else {
            entries.insert(at, Entry { path, diff });
            proof {
                assert(paths(entries@) =~= paths(before).insert(at as int, added.path@));
            }
        }
        proof {
            law_path_order(added.path@, added.path@, added.path@);
            lemma_inserted(before, entries@, at as int, found, added);
        }
        self.entries = entries;
    }

    /// Whether the two fingerprints touch the same paths, with the same diffs.
    pub fn same(&self, other: &Fingerprint) -> (same: bool)
        ensures
            same == (self@ == other@),
    {
        proof {
            use_type_invariant(self);
            use_type_invariant(other);
            if self@ == other@ {
                lemma_same_entries(self.entries@, other.entries@);
            }
        }
        let ghost equal = self@ == other@;
        if self.entries.len() != other.entries.len() {
            return false;
        }
        for i in 0..self.entries.len()
            invariant
                self.entries.len() == other.entries.len(),
                equal == (self@ == other@),
                equal ==> forall|j: int|
                    0 <= j < self.entries.len() ==> {
                        &&& (#[trigger] self.entries[j]).path@ == other.entries[j].path@
                        &&& self.entries[j].diff@ == other.entries[j].diff@
                    },
                forall|j: int|
                    0 <= j < i ==> {
                        &&& (#[trigger] self.entries[j]).path@ == other.entries[j].path@
                        &&& self.entries[j].diff@ == other.entries[j].diff@
                    },
        {
            let order = self.entries[i].path.order(&other.entries[i].path);
            let same_path = matches!(order, PathOrder::Same);
            if !same_path || !self.entries[i].diff.same(&other.entries[i].diff) {
                return false;
            }
        }
        proof {
            lemma_same_map(self.entries@, other.entries@);
        }
        true
    }

    /// Whether the commit changes nothing.
    pub fn is_empty(&self) -> (empty: bool)
        ensures
            empty == (self@.dom() == Set::<Seq<char>>::empty()),
    {
        proof {
            if self.entries@.len() == 0 {
                assert(self@.dom() =~= Set::<Seq<char>>::empty());
            } else {
                assert(paths(self.entries@).contains(paths(self.entries@)[0]));
                assert(self@.dom().contains(paths(self.entries@)[0]));
            }
        }
        self.entries.is_empty()
    }

    /// The paths that the commit touches, in listing order.
    pub fn paths(&self) -> (listed: Vec<RepoPath>)
        ensures
            lists(listed.deep_view(), self@.dom()),
    {
        proof {
            use_type_invariant(self);
        }
        let mut listed: Vec<RepoPath> = Vec::new();
        for i in 0..self.entries.len()
            invariant
                listed.len() == i,
                forall|j: int| 0 <= j < i ==> (#[trigger] listed[j])@ == self.entries[j].path@,
        {
            listed.push(self.entries[i].path.clone());
        }
        proof {
            assert(listed.deep_view() =~= paths(self.entries@));
            lemma_paths_list_domain(self.entries@);
        }
        listed
    }
}

/// Equal maps have their entries in common, one by one.
proof fn lemma_same_entries(a: Seq<Entry>, b: Seq<Entry>)
    requires
        in_order(paths(a)),
        in_order(paths(b)),
        as_map(a) == as_map(b),
    ensures
        a.len() == b.len(),
        forall|j: int|
            0 <= j < a.len() ==> (#[trigger] a[j]).path@ == b[j].path@ && a[j].diff@ == b[j].diff@,
{
    lemma_paths_list_domain(a);
    lemma_paths_list_domain(b);
    law_one_listing(paths(a), paths(b), as_map(a).dom());
    assert(paths(a).len() == paths(b).len());
    assert forall|j: int| 0 <= j < a.len() implies (#[trigger] a[j]).path@ == b[j].path@
        && a[j].diff@ == b[j].diff@ by {
        assert(paths(a)[j] == paths(b)[j]);
        lemma_map_at(a, j);
        lemma_map_at(b, j);
    }
}

/// Entries that agree one by one hold the same map.
proof fn lemma_same_map(a: Seq<Entry>, b: Seq<Entry>)
    requires
        a.len() == b.len(),
        forall|j: int|
            0 <= j < a.len() ==> (#[trigger] a[j]).path@ == b[j].path@ && a[j].diff@ == b[j].diff@,
    ensures
        as_map(a) == as_map(b),
{
    assert(paths(a) =~= paths(b));
    assert forall|p: Seq<char>| as_map(a).contains_key(p) implies as_map(a)[p] == as_map(b)[p] by {
        let i = paths(a).index_of(p);
        assert(0 <= i < a.len());
        assert(a[i].diff@ == b[i].diff@);
    }
    assert(as_map(a) =~= as_map(b));
}

/// Entries that an entry was added to, in its place, hold the map with that
/// entry inserted.
proof fn lemma_inserted(before: Seq<Entry>, after: Seq<Entry>, at: int, found: bool, added: Entry)
    requires
        in_order(paths(before)),
        in_order(paths(after)),
        found ==> 0 <= at < before.len() && before[at].path@ == added.path@ && after
            == before.update(at, added),
        !found ==> 0 <= at <= before.len() && after == before.insert(at, added),
        !found ==> !paths(before).contains(added.path@),
    ensures
        as_map(after) == as_map(before).insert(added.path@, added.diff@),
{
    let m = as_map(before).insert(added.path@, added.diff@);
    let n = as_map(after);
    assert(after[at] == added);
    lemma_map_at(after, at);
    assert forall|p: Seq<char>| n.contains_key(p) <==> m.contains_key(p) by {
        if n.contains_key(p) {
            let j = paths(after).index_of(p);
            let i = if found || j < at { j } else { j - 1 };
            if j != at {
                assert(paths(before)[i] == p);
            }
        }
        if m.contains_key(p) && p != added.path@ {
            let i = paths(before).index_of(p);
            let j = if found || i < at { i } else { i + 1 };
            assert(paths(after)[j] == p);
        }
    }
    assert forall|p: Seq<char>| m.contains_key(p) implies n[p] == m[p] by {
        if p != added.path@ {
            let i = paths(before).index_of(p);
            let j = if found || i < at { i } else { i + 1 };
            assert(paths(before)[i] == p);
            assert(after[j] == before[i]);
            lemma_map_at(before, i);
            lemma_map_at(after, j);
        }
    }
    assert(n =~= m);
}

/// The state of a walk through two fingerprints, `i` entries into the first
/// and `k` into the second, that has put the paths `out` down as changed.
spec fn walked(
    d: Seq<Seq<char>>,
    c: Seq<Seq<char>>,
    i: int,
    k: int,
    changed: Set<Seq<char>>,
    out: Seq<Seq<char>>,
) -> bool {
    &&& in_order(d)
    &&& in_order(c)
    &&& 0 <= i <= d.len()
    &&& 0 <= k <= c.len()
    &&& forall|a: int, b: int|
        0 <= a < i && k <= b < c.len() ==> path_less(#[trigger] d[a], #[trigger] c[b])
    &&& forall|a: int, b: int|
        i <= a < d.len() && 0 <= b < k ==> path_less(#[trigger] c[b], #[trigger] d[a])
    &&& in_order(out)
    &&& forall|t: int, a: int|
        0 <= t < out.len() && i <= a < d.len() ==> path_less(
            #[trigger] out[t],
            #[trigger] d[a],
        )
    &&& forall|t: int, b: int|
        0 <= t < out.len() && k <= b < c.len() ==> path_less(
            #[trigger] out[t],
            #[trigger] c[b],
        )
    &&& forall|t: int| 0 <= t < out.len() ==> changed.contains(#[trigger] out[t])
    &&& forall|a: int| 0 <= a < i && changed.contains(#[trigger] d[a]) ==> out.contains(d[a])
    &&& forall|b: int| 0 <= b < k && changed.contains(#[trigger] c[b]) ==> out.contains(c[b])
}

/// The walk passes an entry of the first fingerprint that the second lacks.
proof fn lemma_pass_first(
    d: Seq<Seq<char>>,
    c: Seq<Seq<char>>,
    i: int,
    k: int,
    changed: Set<Seq<char>>,
    out: Seq<Seq<char>>,
)
    requires
        walked(d, c, i, k, changed, out),
        i < d.len(),
        k < c.len() ==> path_less(d[i], c[k]),
    ensures
        !c.contains(d[i]),
        changed.contains(d[i]) ==> walked(d, c, i + 1, k, changed, out.push(d[i])),
{
    assert forall|b: int| 0 <= b < c.len() implies c[b] != d[i] && (k <= b
        ==> path_less(d[i], #[trigger] c[b])) by {
        law_path_order(d[i], d[i], d[i]);
        if k < b {
            law_path_order(d[i], c[k], c[b]);
        }
    }
    let next = out.push(d[i]);
    assert(next[out.len() as int] == d[i]);
    assert forall|p: Seq<char>| out.contains(p) implies next.contains(p) by {
        let t = choose|t: int| 0 <= t < out.len() && out[t] == p;
        assert(next[t] == p);
    }
}

/// The walk passes an entry of both fingerprints, and puts its path down where
/// it is changed.
proof fn lemma_pass_both(
    d: Seq<Seq<char>>,
    c: Seq<Seq<char>>,
    i: int,
    k: int,
    changed: Set<Seq<char>>,
    out: Seq<Seq<char>>,
)
    requires
        walked(d, c, i, k, changed, out),
        i < d.len(),
        k < c.len(),
        d[i] == c[k],
    ensures
        changed.contains(d[i]) ==> walked(d, c, i + 1, k + 1, changed, out.push(d[i])),
        !changed.contains(d[i]) ==> walked(d, c, i + 1, k + 1, changed, out),
{
    let next = out.push(d[i]);
    assert(next[out.len() as int] == d[i]);
    assert forall|p: Seq<char>| out.contains(p) implies next.contains(p) by {
        let t = choose|t: int| 0 <= t < out.len() && out[t] == p;
        assert(next[t] == p);
    }
}

/// Swapping the two fingerprints keeps the state of the walk.
proof fn lemma_walk_swapped(
    d: Seq<Seq<char>>,
    c: Seq<Seq<char>>,
    i: int,
    k: int,
    changed: Set<Seq<char>>,
    out: Seq<Seq<char>>,
)
    ensures
        walked(d, c, i, k, changed, out) <==> walked(c, d, k, i, changed, out),
{
}

/// The paths at which the two fingerprints differ, in listing order: the files
/// that changed between two points in a commit's evolution.
pub fn diff_fingerprint_changes(described: &Fingerprint, current: &Fingerprint) -> (changed: Vec<
    RepoPath,
>)
    ensures
        lists(changed.deep_view(), changed_paths(described@, current@)),
{
    proof {
        use_type_invariant(described);
        use_type_invariant(current);
    }
    let ghost d = paths(described.entries@);
    let ghost c = paths(current.entries@);
    let ghost set = changed_paths(described@, current@);
    let mut changed: Vec<RepoPath> = Vec::new();
    let mut i: usize = 0;
    let mut k: usize = 0;
    assert(changed.deep_view() =~= Seq::empty());
    while i < described.entries.len() || k < current.entries.len()
        invariant
            d == paths(described.entries@),
            c == paths(current.entries@),
            set == changed_paths(described@, current@),
            i <= described.entries.len(),
            k <= current.entries.len(),
            walked(d, c, i as int, k as int, set, changed.deep_view()),
        decreases described.entries.len() - i + current.entries.len() - k,
    {
        let order = if k == current.entries.len() {
            PathOrder::Before
        } else if i == described.entries.len() {
            PathOrder::After
        } else {
            described.entries[i].path.order(&current.entries[k].path)
        };
        let ghost out = changed.deep_view();
        match order {
            PathOrder::Before => {
                proof {
                    lemma_pass_first(d, c, i as int, k as int, set, out);
                    assert(d.contains(d[i as int]));
                }
                changed.push(described.entries[i].path.clone());
                assert(changed.deep_view() =~= out.push(d[i as int]));
                i = i + 1;
            },
            PathOrder::After => {
                proof {
                    lemma_walk_swapped(d, c, i as int, k as int, set, out);
                    lemma_pass_first(c, d, k as int, i as int, set, out);
                    assert(c.contains(c[k as int]));
                    lemma_walk_swapped(
                        d,
                        c,
                        i as int,
                        k + 1,
                        set,
                        out.push(c[k as int]),
                    );
                }
                changed.push(current.entries[k].path.clone());
                assert(changed.deep_view() =~= out.push(c[k as int]));
                k = k + 1;
            },
            PathOrder::Same => {
                proof {
                    lemma_pass_both(d, c, i as int, k as int, set, out);
                    lemma_map_at(described.entries@, i as int);
                    lemma_map_at(current.entries@, k as int);
                }
                if !described.entries[i].diff.same(&current.entries[k].diff) {
                    changed.push(current.entries[k].path.clone());
                    assert(changed.deep_view() =~= out.push(d[i as int]));
                }
                i = i + 1;
                k = k + 1;
            },
        }
    }
    proof {
        let out = changed.deep_view();
        assert forall|p: Seq<char>| #[trigger] out.contains(p) <==> set.contains(p) by {
            if set.contains(p) {
                if d.contains(p) {
                    let a = d.index_of(p);
                    assert(d[a] == p);
                } else {
                    assert(c.contains(p));
                    let b = c.index_of(p);
                    assert(c[b] == p);
                }
            }
        }
    }
    changed
}

/// One item of a tree diff: a path that the trees differ at and, where it could
/// be read, how they differ there.
pub struct TreeDiffEntry<E> {
    pub path: RepoPath,
    pub values: Result<Diff, E>,
}

/// The diffs in `entries`, by path. Of two for one path the later one counts.
pub open spec fn collected<E>(entries: Seq<TreeDiffEntry<E>>) -> Map<Seq<char>, DiffView>
    decreases entries.len(),
{
    if entries.len() == 0 {
        Map::empty()
    } else {
        collected(entries.drop_last()).insert(
            entries.last().path@,
            (entries.last().values->Ok_0)@,
        )
    }
}

/// The fingerprint of a commit, from the diff of its parents' tree against its
/// own tree. An entry that could not be read is an error, the first one that
/// there is.
pub fn commit_diff_fingerprint<E>(entries: Vec<TreeDiffEntry<E>>) -> (result: Result<
    Fingerprint,
    E,
>)
    ensures
        result is Ok <==> forall|i: int|
            0 <= i < entries.len() ==> (#[trigger] entries[i]).values is Ok,
        result matches Ok(fingerprint) ==> fingerprint@ == collected(entries@),
        result matches Err(error) ==> exists|k: int|
            {
                &&& 0 <= k < entries.len()
                &&& (#[trigger] entries[k]).values == Err::<Diff, E>(error)
                &&& forall|i: int| 0 <= i < k ==> (#[trigger] entries[i]).values is Ok
            },
{
    let mut fingerprint = Fingerprint::new();
    let ghost all = entries@;
    for entry in it: entries
        invariant
            it.seq() == all,
            forall|i: int| 0 <= i < it.index() ==> (#[trigger] all[i]).values is Ok,
            fingerprint@ == collected(all.take(it.index() as int)),
    {
        let ghost n = it.index() as int;
        assert(all[n] == entry);
        match entry.values {
            Ok(diff) => {
                assert(all.take(n + 1).drop_last() =~= all.take(n));
                fingerprint.insert(entry.path, diff);
            },
            Err(error) => {
                return Err(error);
            },
        }
    }
    assert(all.take(all.len() as int) =~= all);
    Ok(fingerprint)
}

/// Nothing changed between two fingerprints just when they are the same.
pub proof fn law_no_changes(
    described: Map<Seq<char>, DiffView>,
    current: Map<Seq<char>, DiffView>,
)
    ensures
        changed_paths(described, current) == Set::<Seq<char>>::empty() <==> described == current,
{
    let changed = changed_paths(described, current);
    if changed == Set::<Seq<char>>::empty() {
        assert forall|p: Seq<char>| described.contains_key(p) <==> current.contains_key(p) by {
            assert(!changed.contains(p));
        }
        assert forall|p: Seq<char>| described.contains_key(p) implies described[p]
            == current[p] by {
            assert(!changed.contains(p));
        }
        assert(described =~= current);
    } else if described == current {
        assert(changed =~= Set::<Seq<char>>::empty());
    }
}

/// What changed from one fingerprint to another changed back from the other to
/// the one.
pub proof fn law_changes_are_symmetric(
    a: Map<Seq<char>, DiffView>,
    b: Map<Seq<char>, DiffView>,
)
    ensures
        changed_paths(a, b) == changed_paths(b, a),
{
    assert(changed_paths(a, b) =~= changed_paths(b, a));
}

/// The order in which a tree diff brings two paths makes no difference to the
/// fingerprint.
pub proof fn law_entry_order_is_irrelevant<E>(
    entries: Seq<TreeDiffEntry<E>>,
    x: TreeDiffEntry<E>,
    y: TreeDiffEntry<E>,
)
    requires
        x.path@ != y.path@,
    ensures
        collected(entries.push(x).push(y)) == collected(entries.push(y).push(x)),
{
    reveal_with_fuel(collected, 3);
    assert(entries.push(x).push(y).drop_last() =~= entries.push(x));
    assert(entries.push(y).push(x).drop_last() =~= entries.push(y));
    assert(entries.push(x).drop_last() =~= entries);
    assert(entries.push(y).drop_last() =~= entries);
    assert(collected(entries.push(x).push(y)) =~= collected(entries.push(y).push(x)));
}

/// What a tree holds at the path `p`. A path that it does not have is absent.
pub open spec fn value_at(
    tree: Map<Seq<char>, Seq<Option<TreeValueView>>>,
    p: Seq<char>,
) -> Seq<Option<TreeValueView>> {
    if tree.contains_key(p) {
        tree[p]
    } else {
        seq![None]
    }
}

/// What a commit with this tree changes against its parents' tree: the values
/// before and after, at each path where they are not the same.
pub open spec fn content(
    parent: Map<Seq<char>, Seq<Option<TreeValueView>>>,
    tree: Map<Seq<char>, Seq<Option<TreeValueView>>>,
) -> Map<Seq<char>, DiffView> {
    Map::new(
        |p: Seq<char>| value_at(parent, p) != value_at(tree, p),
        |p: Seq<char>| DiffView { before: value_at(parent, p), after: value_at(tree, p) },
    )
}

/// Whether the entry tells a difference that there is between the two trees.
pub open spec fn is_difference<E>(
    entry: TreeDiffEntry<E>,
    parent: Map<Seq<char>, Seq<Option<TreeValueView>>>,
    tree: Map<Seq<char>, Seq<Option<TreeValueView>>>,
) -> bool {
    &&& entry.values is Ok
    &&& content(parent, tree).contains_key(entry.path@)
    &&& content(parent, tree)[entry.path@] == (entry.values->Ok_0)@
}

/// Whether `entries` are the diff of the two trees: they tell every difference,
/// and nothing else.
pub open spec fn is_tree_diff<E>(
    entries: Seq<TreeDiffEntry<E>>,
    parent: Map<Seq<char>, Seq<Option<TreeValueView>>>,
    tree: Map<Seq<char>, Seq<Option<TreeValueView>>>,
) -> bool {
    &&& forall|i: int| 0 <= i < entries.len() ==> is_difference(#[trigger] entries[i], parent, tree)
    &&& forall|p: Seq<char>| #[trigger]
        content(parent, tree).contains_key(p) ==> exists|i: int|
            0 <= i < entries.len() && (#[trigger] entries[i]).path@ == p
}

/// Entries that tell differences between two trees collect to a part of what
/// the commit changes, their own paths with it.
proof fn lemma_collected<E>(
    entries: Seq<TreeDiffEntry<E>>,
    parent: Map<Seq<char>, Seq<Option<TreeValueView>>>,
    tree: Map<Seq<char>, Seq<Option<TreeValueView>>>,
)
    requires
        forall|i: int|
            0 <= i < entries.len() ==> is_difference(#[trigger] entries[i], parent, tree),
    ensures
        forall|p: Seq<char>| #[trigger]
            collected(entries).contains_key(p) ==> content(parent, tree).contains_key(p)
                && collected(entries)[p] == content(parent, tree)[p],
        forall|i: int|
            0 <= i < entries.len() ==> collected(entries).contains_key(
                (#[trigger] entries[i]).path@,
            ),
    decreases entries.len(),
{
    if entries.len() > 0 {
        let before = entries.drop_last();
        lemma_collected(before, parent, tree);
        assert(is_difference(entries[entries.len() - 1], parent, tree));
        assert forall|p: Seq<char>| #[trigger]
            collected(entries).contains_key(p) implies content(parent, tree).contains_key(p)
            && collected(entries)[p] == content(parent, tree)[p] by {
            if p != entries.last().path@ {
                assert(collected(before).contains_key(p));
            }
        }
        assert forall|i: int| 0 <= i < entries.len() implies collected(entries).contains_key(
            (#[trigger] entries[i]).path@,
        ) by {
            if i < before.len() {
                assert(before[i] == entries[i]);
            }
        }
    }
}

/// The fingerprint of a commit is what its tree changes against its parents'
/// tree, however the diff of the two orders its entries.
pub proof fn law_fingerprint_is_content<E>(
    entries: Seq<TreeDiffEntry<E>>,
    parent: Map<Seq<char>, Seq<Option<TreeValueView>>>,
    tree: Map<Seq<char>, Seq<Option<TreeValueView>>>,
)
    requires
        is_tree_diff(entries, parent, tree),
    ensures
        collected(entries) == content(parent, tree),
{
    lemma_collected(entries, parent, tree);
    assert forall|p: Seq<char>| content(parent, tree).contains_key(p) implies collected(
        entries,
    ).contains_key(p) by {
        let i = choose|i: int| 0 <= i < entries.len() && (#[trigger] entries[i]).path@ == p;
        assert(collected(entries).contains_key(entries[i].path@));
    }
    assert(collected(entries) =~= content(parent, tree));
}

/// Whether two commits do the same at the path `p`: both go from the same value
/// to the same value, or neither changes what is there.
pub open spec fn same_change_at(
    parent_a: Map<Seq<char>, Seq<Option<TreeValueView>>>,
    tree_a: Map<Seq<char>, Seq<Option<TreeValueView>>>,
    parent_b: Map<Seq<char>, Seq<Option<TreeValueView>>>,
    tree_b: Map<Seq<char>, Seq<Option<TreeValueView>>>,
    p: Seq<char>,
) -> bool {
    ||| value_at(parent_a, p) == value_at(parent_b, p) && value_at(tree_a, p) == value_at(tree_b, p)
    ||| value_at(parent_a, p) == value_at(tree_a, p) && value_at(parent_b, p) == value_at(tree_b, p)
}

/// Two commits have the same fingerprint just when they do the same at every
/// path. What their parents hold at paths that neither touches does not matter.
pub proof fn law_same_fingerprint_same_content<E>(
    a: Seq<TreeDiffEntry<E>>,
    parent_a: Map<Seq<char>, Seq<Option<TreeValueView>>>,
    tree_a: Map<Seq<char>, Seq<Option<TreeValueView>>>,
    b: Seq<TreeDiffEntry<E>>,
    parent_b: Map<Seq<char>, Seq<Option<TreeValueView>>>,
    tree_b: Map<Seq<char>, Seq<Option<TreeValueView>>>,
)
    requires
        is_tree_diff(a, parent_a, tree_a),
        is_tree_diff(b, parent_b, tree_b),
    ensures
        collected(a) == collected(b) <==> forall|p: Seq<char>| #[trigger]
            same_change_at(parent_a, tree_a, parent_b, tree_b, p),
{
    law_fingerprint_is_content(a, parent_a, tree_a);
    law_fingerprint_is_content(b, parent_b, tree_b);
    let x = content(parent_a, tree_a);
    let y = content(parent_b, tree_b);
    if x == y {
        assert forall|p: Seq<char>| #[trigger]
            same_change_at(parent_a, tree_a, parent_b, tree_b, p) by {
            assert(x.contains_key(p) == y.contains_key(p));
            if x.contains_key(p) {
                assert(x[p] == y[p]);
            }
        }
    }
    if forall|p: Seq<char>| #[trigger] same_change_at(parent_a, tree_a, parent_b, tree_b, p) {
        assert forall|p: Seq<char>| x.contains_key(p) == y.contains_key(p) && (x.contains_key(p)
            ==> x[p] == y[p]) by {
            assert(same_change_at(parent_a, tree_a, parent_b, tree_b, p));
        }
        assert(x =~= y);
    }
}

/// A path is among those that changed just when one of the two fingerprints has
/// it and the other has not, or both have it, with diffs that are not the same.
pub proof fn law_changed_path(
    described: Map<Seq<char>, DiffView>,
    current: Map<Seq<char>, DiffView>,
    p: Seq<char>,
)
    ensures
        !described.contains_key(p) && !current.contains_key(p) ==> !changed_paths(
            described,
            current,
        ).contains(p),
        !described.contains_key(p) && current.contains_key(p) ==> changed_paths(
            described,
            current,
        ).contains(p),
        described.contains_key(p) && !current.contains_key(p) ==> changed_paths(
            described,
            current,
        ).contains(p),
        described.contains_key(p) && current.contains_key(p) ==> (changed_paths(
            described,
            current,
        ).contains(p) <==> described[p] != current[p]),
{
}

/// The files that are listed as changed are those at which the two fingerprints
/// differ: a path that both have with the same diff is not listed, whatever else
/// changed, nor one that neither has, and every other path of theirs is. Each is
/// listed once, in listing order.
pub proof fn law_listed_changes(
    described: Fingerprint,
    current: Fingerprint,
    changed: Vec<RepoPath>,
)
    requires
        call_ensures(diff_fingerprint_changes, (&described, &current), changed),
    ensures
        forall|p: Seq<char>|
            (exists|j: int| 0 <= j < changed.len() && (#[trigger] changed[j])@ == p) <==> {
                ||| #[trigger] described@.contains_key(p) && !current@.contains_key(p)
                ||| !described@.contains_key(p) && current@.contains_key(p)
                ||| described@.contains_key(p) && current@.contains_key(p) && described@[p]
                    != current@[p]
            },
        forall|i: int, j: int|
            0 <= i < j < changed.len() ==> path_less(
                (#[trigger] changed[i])@,
                (#[trigger] changed[j])@,
            ),
{
    let set = changed_paths(described@, current@);
    lemma_listed(changed, set);
    assert forall|p: Seq<char>|
        (exists|j: int| 0 <= j < changed.len() && (#[trigger] changed[j])@ == p) <==> {
            ||| #[trigger] described@.contains_key(p) && !current@.contains_key(p)
            ||| !described@.contains_key(p) && current@.contains_key(p)
            ||| described@.contains_key(p) && current@.contains_key(p) && described@[p]
                != current@[p]
        } by {
        assert(set.contains(p) <==> (exists|j: int|
            0 <= j < changed.len() && (#[trigger] changed[j])@ == p));
    }
}

/// What a listing of paths says about the paths themselves.
pub(crate) proof fn lemma_listed(listed: Vec<RepoPath>, set: Set<Seq<char>>)
    requires
        lists(listed.deep_view(), set),
    ensures
        forall|p: Seq<char>|
            (exists|j: int| 0 <= j < listed.len() && (#[trigger] listed[j])@ == p)
                <==> #[trigger] set.contains(p),
        forall|i: int, j: int|
            0 <= i < j < listed.len() ==> path_less(
                (#[trigger] listed[i])@,
                (#[trigger] listed[j])@,
            ),
{
    let s = listed.deep_view();
    assert(s.len() == listed.len());
    assert forall|j: int| 0 <= j < listed.len() implies s[j] == (#[trigger] listed[j])@ by {}
    assert forall|p: Seq<char>|
        (exists|j: int| 0 <= j < listed.len() && (#[trigger] listed[j])@ == p)
            <==> #[trigger] set.contains(p) by {
        if exists|j: int| 0 <= j < listed.len() && (#[trigger] listed[j])@ == p {
            let j = choose|j: int| 0 <= j < listed.len() && (#[trigger] listed[j])@ == p;
            assert(s[j] == p);
            assert(s.contains(p));
        }
        if set.contains(p) {
            assert(s.contains(p));
            let j = choose|j: int| 0 <= j < s.len() && s[j] == p;
            assert(listed[j]@ == p);
        }
    }
    assert forall|i: int, j: int| 0 <= i < j < listed.len() implies path_less(
        (#[trigger] listed[i])@,
        (#[trigger] listed[j])@,
    ) by {
        assert(path_less(s[i], s[j]));
    }
}

/// The paths of a fingerprint are all those that have a diff in it, each of them
/// once, in listing order. There are none just when it is empty.
pub proof fn law_paths(fingerprint: Fingerprint, listed: Vec<RepoPath>, empty: bool)
    requires
        call_ensures(Fingerprint::paths, (&fingerprint,), listed),
        call_ensures(Fingerprint::is_empty, (&fingerprint,), empty),
    ensures
        forall|p: Seq<char>|
            (exists|j: int| 0 <= j < listed.len() && (#[trigger] listed[j])@ == p)
                <==> #[trigger] fingerprint@.contains_key(p),
        forall|i: int, j: int|
            0 <= i < j < listed.len() ==> path_less(
                (#[trigger] listed[i])@,
                (#[trigger] listed[j])@,
            ),
        empty <==> forall|p: Seq<char>| !#[trigger] fingerprint@.contains_key(p),
        empty <==> listed.len() == 0,
{
    lemma_listed(listed, fingerprint@.dom());
    if listed.len() > 0 {
        assert(fingerprint@.dom().contains(listed[0]@));
    }
    if !empty {
        assert(!(fingerprint@.dom() =~= Set::<Seq<char>>::empty()));
    }
}

/// Two fingerprints are the same just when they have the same paths, and at each
/// of them the same diff.
pub proof fn law_same_fingerprints(a: Fingerprint, b: Fingerprint, same: bool)
    requires
        call_ensures(Fingerprint::same, (&a, &b), same),
    ensures
        same <==> forall|p: Seq<char>|
            {
                &&& #[trigger] a@.contains_key(p) <==> b@.contains_key(p)
                &&& a@.contains_key(p) ==> a@[p] == b@[p]
            },
{
    if forall|p: Seq<char>|
        {
            &&& #[trigger] a@.contains_key(p) <==> b@.contains_key(p)
            &&& a@.contains_key(p) ==> a@[p] == b@[p]
        } {
        assert(a@ =~= b@);
    }
}

/// A new fingerprint has no path.
pub proof fn law_new_fingerprint(new: Fingerprint, p: Seq<char>)
    requires
        call_ensures(Fingerprint::new, (), new),
    ensures
        !new@.contains_key(p),
{
}

/// A fingerprint that a diff was set in has that diff at its path, and everywhere
/// else what it had before.
pub proof fn law_insert(fingerprint: &mut Fingerprint, path: RepoPath, diff: Diff, p: Seq<char>)
    requires
        call_ensures(Fingerprint::insert, (fingerprint, path, diff), ()),
    ensures
        final(fingerprint)@.contains_key(p) <==> p == path@ || old(fingerprint)@.contains_key(p),
        p == path@ ==> final(fingerprint)@[p] == diff@,
        p != path@ && old(fingerprint)@.contains_key(p) ==> final(fingerprint)@[p] == old(
            fingerprint,
        )@[p],
{
}

/// The fingerprint of a commit has the paths of the entries and, at each path,
/// the diff of the last entry for it.
pub proof fn law_fingerprint_of_entries<E>(
    entries: Vec<TreeDiffEntry<E>>,
    result: Result<Fingerprint, E>,
)
    requires
        call_ensures(commit_diff_fingerprint::<E>, (entries,), result),
    ensures
        result is Ok <==> forall|i: int|
            0 <= i < entries.len() ==> (#[trigger] entries[i]).values is Ok,
        result matches Ok(fingerprint) ==> {
            &&& forall|p: Seq<char>| #[trigger]
                fingerprint@.contains_key(p) <==> exists|i: int|
                    0 <= i < entries.len() && (#[trigger] entries[i]).path@ == p
            &&& forall|i: int|
                0 <= i < entries.len() && (forall|j: int|
                    i < j < entries.len() ==> (#[trigger] entries[j]).path@ != entries[i].path@)
                    ==> fingerprint@[(#[trigger] entries[i]).path@] == (entries[i].values->Ok_0)@
        },
        result matches Err(error) ==> exists|k: int|
            {
                &&& 0 <= k < entries.len()
                &&& (#[trigger] entries[k]).values == Err::<Diff, E>(error)
                &&& forall|i: int| 0 <= i < k ==> (#[trigger] entries[i]).values is Ok
            },
{
    lemma_last_entry_counts(entries@);
}

proof fn lemma_last_entry_counts<E>(entries: Seq<TreeDiffEntry<E>>)
    ensures
        forall|p: Seq<char>| #[trigger]
            collected(entries).contains_key(p) <==> exists|i: int|
                0 <= i < entries.len() && (#[trigger] entries[i]).path@ == p,
        forall|i: int|
            0 <= i < entries.len() && (forall|j: int|
                i < j < entries.len() ==> (#[trigger] entries[j]).path@ != entries[i].path@)
                ==> collected(entries)[(#[trigger] entries[i]).path@] == (entries[i].values->Ok_0)@,
    decreases entries.len(),
{
    if entries.len() > 0 {
        let rest = entries.drop_last();
        let n = rest.len() as int;
        lemma_last_entry_counts(rest);
        assert(entries[n] == entries.last());
        assert forall|p: Seq<char>| #[trigger]
            collected(entries).contains_key(p) <==> exists|i: int|
                0 <= i < entries.len() && (#[trigger] entries[i]).path@ == p by {
            if collected(rest).contains_key(p) {
                let i = choose|i: int| 0 <= i < rest.len() && (#[trigger] rest[i]).path@ == p;
                assert(entries[i].path@ == p);
            }
            if exists|i: int| 0 <= i < entries.len() && (#[trigger] entries[i]).path@ == p {
                let i = choose|i: int| 0 <= i < entries.len() && (#[trigger] entries[i]).path@ == p;
                if i < n {
                    assert(rest[i].path@ == p);
                    assert(collected(rest).contains_key(p));
                }
            }
        }
        assert forall|i: int|
            0 <= i < entries.len() && (forall|j: int|
                i < j < entries.len() ==> (#[trigger] entries[j]).path@
                    != entries[i].path@) implies collected(entries)[(
        #[trigger] entries[i]).path@] == (entries[i].values->Ok_0)@ by {
            if i < n {
                assert(entries[n].path@ != entries[i].path@);
                assert(rest[i] == entries[i]);
                assert forall|j: int| i < j < rest.len() implies (#[trigger] rest[j]).path@
                    != rest[i].path@ by {
                    assert(entries[j] == rest[j]);
                }
            }
        }
    }
}

/// What a commit changes, path by path: nothing where its tree holds what its
/// parents' tree holds, or where neither holds anything, and else a diff from
/// the one to the other.
pub proof fn law_content_at(
    parent: Map<Seq<char>, Seq<Option<TreeValueView>>>,
    tree: Map<Seq<char>, Seq<Option<TreeValueView>>>,
    p: Seq<char>,
)
    ensures
        parent.contains_key(p) && tree.contains_key(p) ==> {
            &&& content(parent, tree).contains_key(p) <==> parent[p] != tree[p]
            &&& parent[p] != tree[p] ==> content(parent, tree)[p].before == parent[p] && content(
                parent,
                tree,
            )[p].after == tree[p]
        },
        !parent.contains_key(p) && !tree.contains_key(p) ==> !content(parent, tree).contains_key(p),
        !parent.contains_key(p) && tree.contains_key(p) && tree[p] != seq![
            None::<TreeValueView>,
        ] ==> {
            &&& content(parent, tree).contains_key(p)
            &&& content(parent, tree)[p].before == seq![None::<TreeValueView>]
            &&& content(parent, tree)[p].after == tree[p]
        },
        parent.contains_key(p) && !tree.contains_key(p) && parent[p] != seq![
            None::<TreeValueView>,
        ] ==> {
            &&& content(parent, tree).contains_key(p)
            &&& content(parent, tree)[p].before == parent[p]
            &&& content(parent, tree)[p].after == seq![None::<TreeValueView>]
        },
{
}

} // verus!
