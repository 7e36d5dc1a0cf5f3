//! Paths inside a repository, and the order in which they are listed.

use crate::text::position_of;
use vstd::prelude::*;

verus! {

/// The names that a path's text consists of, outermost directory first.
pub open spec fn components(s: Seq<char>) -> Seq<Seq<char>>
    decreases s.len(),
{
    let k = position_of(s, '/') as int;
    if s.len() == 0 {
        Seq::empty()
    } else if k < s.len() {
        seq![s.take(k)] + components(s.skip(k + 1))
    } else {
        seq![s]
    }
}

/// Whether `a` comes before `b`, character by character.
pub open spec fn text_less(a: Seq<char>, b: Seq<char>) -> bool
    decreases b.len(),
{
    if b.len() == 0 {
        false
    } else if a.len() == 0 {
        true
    } else if a[0] != b[0] {
        a[0] < b[0]
    } else {
        text_less(a.drop_first(), b.drop_first())
    }
}

/// Whether the names `a` come before the names `b`, name by name.
pub open spec fn names_less(a: Seq<Seq<char>>, b: Seq<Seq<char>>) -> bool
    decreases b.len(),
{
    if b.len() == 0 {
        false
    } else if a.len() == 0 {
        true
    } else if a[0] != b[0] {
        text_less(a[0], b[0])
    } else {
        names_less(a.drop_first(), b.drop_first())
    }
}

/// Whether the path `a` comes before the path `b`: a directory's entries stay
/// together, and the root comes first.
pub open spec fn path_less(a: Seq<char>, b: Seq<char>) -> bool {
    names_less(components(a), components(b))
}

/// Whether `s` is the text of a path: no name in it is empty.
pub open spec fn valid_path(s: Seq<char>) -> bool {
    &&& s.len() > 0 ==> s[0] != '/' && s.last() != '/'
    &&& forall|i: int| 0 <= i < s.len() - 1 && s[i] == '/' ==> #[trigger] s[i + 1] != '/'
}

/// Whether the paths `s` stand in listing order, each of them once.
pub open spec fn in_order(s: Seq<Seq<char>>) -> bool {
    forall|i: int, j: int| 0 <= i < j < s.len() ==> path_less(#[trigger] s[i], #[trigger] s[j])
}

/// Whether `s` lists the paths in `set`: all of them, no other, in order.
pub open spec fn lists(s: Seq<Seq<char>>, set: Set<Seq<char>>) -> bool {
    &&& in_order(s)
    &&& forall|p: Seq<char>| #[trigger] s.contains(p) <==> set.contains(p)
}

proof fn lemma_text_irreflexive(a: Seq<char>)
    ensures
        !text_less(a, a),
    decreases a.len(),
{
    if a.len() > 0 {
        lemma_text_irreflexive(a.drop_first());
    }
}

proof fn lemma_text_transitive(a: Seq<char>, b: Seq<char>, c: Seq<char>)
    requires
        text_less(a, b),
        text_less(b, c),
    ensures
        text_less(a, c),
    decreases c.len(),
{
    if a.len() > 0 && a[0] == b[0] && b[0] == c[0] {
        lemma_text_transitive(a.drop_first(), b.drop_first(), c.drop_first());
    }
}

proof fn lemma_names_irreflexive(a: Seq<Seq<char>>)
    ensures
        !names_less(a, a),
    decreases a.len(),
{
    if a.len() > 0 {
        lemma_names_irreflexive(a.drop_first());
    }
}

proof fn lemma_names_transitive(a: Seq<Seq<char>>, b: Seq<Seq<char>>, c: Seq<Seq<char>>)
    requires
        names_less(a, b),
        names_less(b, c),
    ensures
        names_less(a, c),
    decreases c.len(),
{
    if a.len() > 0 {
        if a[0] == b[0] && b[0] == c[0] {
            lemma_names_transitive(a.drop_first(), b.drop_first(), c.drop_first());
        } else if a[0] != b[0] && b[0] != c[0] {
            lemma_text_transitive(a[0], b[0], c[0]);
            lemma_text_irreflexive(a[0]);
        }
    }
}

/// No path comes before itself, and the order is transitive.
pub proof fn law_path_order(a: Seq<char>, b: Seq<char>, c: Seq<char>)
    ensures
        !path_less(a, a),
        path_less(a, b) && path_less(b, c) ==> path_less(a, c),
{
    lemma_names_irreflexive(components(a));
    if path_less(a, b) && path_less(b, c) {
        lemma_names_transitive(components(a), components(b), components(c));
    }
}

/// A set of paths has one listing at most: what is listed decides the list.
pub proof fn law_one_listing(s: Seq<Seq<char>>, t: Seq<Seq<char>>, set: Set<Seq<char>>)
    requires
        lists(s, set),
        lists(t, set),
    ensures
        s == t,
    decreases s.len(),
{
    if s.len() == 0 {
        if t.len() > 0 {
            assert(t.contains(t[0]));
            assert(s.contains(t[0]));
        }
    } else {
        assert(s.contains(s[0]));
        assert(t.contains(s[0]));
        assert(t.contains(t[0]));
        assert(s.contains(t[0]));
        let i = choose|i: int| 0 <= i < s.len() && s[i] == t[0];
        let j = choose|j: int| 0 <= j < t.len() && t[j] == s[0];
        law_path_order(s[0], t[0], s[0]);
        law_path_order(t[0], s[0], t[0]);
        assert(s[0] == t[0]);
        let rest = set.remove(s[0]);
        lemma_listing_tail(s, set);
        lemma_listing_tail(t, set);
        law_one_listing(s.drop_first(), t.drop_first(), rest);
        assert(s =~= seq![s[0]] + s.drop_first());
        assert(t =~= seq![t[0]] + t.drop_first());
    }
}

/// A listing without its first path lists the other paths.
proof fn lemma_listing_tail(s: Seq<Seq<char>>, set: Set<Seq<char>>)
    requires
        lists(s, set),
        s.len() > 0,
    ensures
        lists(s.drop_first(), set.remove(s[0])),
{
    let tail = s.drop_first();
    assert forall|p: Seq<char>| #[trigger] tail.contains(p) <==> set.remove(s[0]).contains(p) by {
        if tail.contains(p) {
            let i = choose|i: int| 0 <= i < tail.len() && tail[i] == p;
            assert(s[i + 1] == p);
            assert(s.contains(p));
            law_path_order(s[0], p, p);
        }
        if set.remove(s[0]).contains(p) {
            assert(s.contains(p));
            let i = choose|i: int| 0 <= i < s.len() && s[i] == p;
            assert(tail[i - 1] == p);
        }
    }
}

/// How one path stands to another in a listing.
#[derive(Clone, Copy, Debug, PartialEq, Eq, Structural)]
pub enum PathOrder {
    Before,
    Same,
    After,
}

/// `RepoPath::cmp` of jj-lib on the paths whose texts are `a` and `b`: paths
/// are compared name by name, names character by character. Two valid paths
/// compare as equal just when their texts are equal.
#[verifier::external_body]
fn compare_texts(a: &str, b: &str) -> (order: PathOrder)
    requires
        valid_path(a@),
        valid_path(b@),
    ensures
        order is Before <==> path_less(a@, b@),
        order is After <==> path_less(b@, a@),
        order is Same <==> a@ == b@,
{
    let left = jj_lib::repo_path::RepoPath::from_internal_string(a).unwrap();
    let right = jj_lib::repo_path::RepoPath::from_internal_string(b).unwrap();
    match left.cmp(right) {
        std::cmp::Ordering::Less => PathOrder::Before,
        std::cmp::Ordering::Equal => PathOrder::Same,
        std::cmp::Ordering::Greater => PathOrder::After,
    }
}

/// `RepoPathBuf::from_internal_string` of jj-lib: it keeps a valid path's text
/// as it is, and refuses a text with an empty name in it.
#[verifier::external_body]
fn check_text(value: String) -> (text: Option<String>)
    ensures
        text is Some <==> valid_path(value@),
        text matches Some(t) ==> t@ == value@,
{
    match jj_lib::repo_path::RepoPathBuf::from_internal_string(value) {
        Ok(path) => Some(path.into_internal_string()),
        Err(_) => None,
    }
}

/// A path in the repository, written with `/` between its names on every
/// platform. The root is the empty text.
#[derive(Debug, PartialEq, Eq)]
pub struct RepoPath {
    text: String,
}

impl View for RepoPath {
    type V = Seq<char>;

    closed spec fn view(&self) -> Seq<char> {
        self.text@
    }
}

impl DeepView for RepoPath {
    type V = Seq<char>;

    open spec fn deep_view(&self) -> Seq<char> {
        self@
    }
}

impl Clone for RepoPath {
    fn clone(&self) -> (copy: RepoPath)
        ensures
            copy@ == self@,
    {
        proof {
            use_type_invariant(self);
        }
        RepoPath { text: self.text.clone() }
    }
}

impl RepoPath {
    #[verifier::type_invariant]
    spec fn well_formed(self) -> bool {
        valid_path(self.text@)
    }

    /// The path whose text is `value`, or `None` where a name in it is empty
    /// (`/`, `/foo`, `foo/`, `foo//bar`).
    pub fn from_internal_string(value: String) -> (path: Option<RepoPath>)
        ensures
            path is Some <==> valid_path(value@),
            path matches Some(p) ==> p@ == value@,
    {
        match check_text(value) {
            Some(text) => Some(RepoPath { text }),
            None => None,
        }
    }

    /// The path's text.
    pub fn as_internal_file_string(&self) -> (text: &str)
        ensures
            text@ == self@,
            valid_path(text@),
    {
        proof {
            use_type_invariant(self);
        }
        self.text.as_str()
    }

    /// Where this path stands to `other` in a listing.
    pub fn order(&self, other: &RepoPath) -> (order: PathOrder)
        ensures
            order is Before <==> path_less(self@, other@),
            order is After <==> path_less(other@, self@),
            order is Same <==> self@ == other@,
    {
        proof {
            use_type_invariant(self);
            use_type_invariant(other);
        }
        compare_texts(self.text.as_str(), other.text.as_str())
    }
}

/// Text with a common beginning is ordered by the first character at which it
/// differs, and text that ends there comes first.
proof fn lemma_text_less_at(a: Seq<char>, b: Seq<char>, k: int)
    requires
        0 <= k <= a.len(),
        k < b.len(),
        a.take(k) == b.take(k),
        k == a.len() || a[k] < b[k],
    ensures
        text_less(a, b),
        a != b,
    decreases k,
{
    if k > 0 {
        assert(a[0] == a.take(k)[0] && b[0] == b.take(k)[0]);
        let (x, y) = (a.drop_first(), b.drop_first());
        assert(x.take(k - 1) =~= a.take(k).drop_first());
        assert(y.take(k - 1) =~= b.take(k).drop_first());
        lemma_text_less_at(x, y, k - 1);
    }
}

/// What follows a name in a path is a path, and not empty.
proof fn lemma_path_tail(s: Seq<char>, p: int)
    requires
        valid_path(s),
        0 <= p < s.len(),
        s[p] == '/',
    ensures
        p + 1 < s.len(),
        valid_path(s.skip(p + 1)),
{
    let t = s.skip(p + 1);
    assert(s[s.len() - 1] != '/');
    assert(s[p + 1] != '/');
    assert forall|i: int| 0 <= i < t.len() - 1 && t[i] == '/' implies #[trigger] t[i + 1]
        != '/' by {
        assert(s[p + 1 + i + 1] != '/');
    }
}

/// Whether `a` comes before `b` by the characters at `k`, up to which they are
/// the same.
spec fn less_at(a: Seq<char>, b: Seq<char>, k: int) -> bool {
    &&& 0 <= k <= a.len()
    &&& k < b.len()
    &&& a.take(k) == b.take(k)
    &&& {
        ||| k == a.len()
        ||| a[k] == '/' && b[k] != '/'
        ||| a[k] != '/' && b[k] != '/' && a[k] < b[k]
    }
}

proof fn lemma_path_less_at(a: Seq<char>, b: Seq<char>, k: int)
    requires
        valid_path(a),
        valid_path(b),
        less_at(a, b, k),
    ensures
        path_less(a, b),
    decreases k,
{
    let (pa, pb) = (position_of(a, '/') as int, position_of(b, '/') as int);
    crate::text::law_position_of(a, '/');
    crate::text::law_position_of(b, '/');
    assert forall|i: int| 0 <= i < k implies a[i] == b[i] by {
        assert(a.take(k)[i] == b.take(k)[i]);
    }
    if pa < k {
        // The first name is the same.
        assert(b[pa] == '/');
        assert(pb == pa);
        let (x, y) = (a.skip(pa + 1), b.skip(pa + 1));
        lemma_path_tail(a, pa);
        lemma_path_tail(b, pa);
        assert(x.take(k - pa - 1) =~= y.take(k - pa - 1));
        lemma_path_less_at(x, y, k - pa - 1);
        assert(a.take(pa) =~= b.take(pa));
        assert(components(a).drop_first() =~= components(x));
        assert(components(b).drop_first() =~= components(y));
    } else if a.len() > 0 {
        // The paths differ in the first name, or `a` has no other.
        if pb < k {
            assert(a[pb] == '/');
        }
        let (x, y) = (components(a)[0], components(b)[0]);
        assert(x =~= a.take(pa));
        assert(y =~= b.take(pb));
        if k == a.len() && pb == k {
            let rest = b.skip(pb + 1);
            lemma_path_tail(b, pb);
            assert(x =~= y);
            assert(components(a).drop_first() =~= Seq::empty());
            assert(components(b).drop_first() =~= components(rest));
            assert(names_less(components(a).drop_first(), components(rest)));
        } else {
            assert(x.take(k) =~= y.take(k));
            lemma_text_less_at(x, y, k);
        }
    }
}

/// Two paths that are not the same differ at some character first.
proof fn lemma_first_difference(a: Seq<char>, b: Seq<char>, k: int) -> (d: int)
    requires
        a != b,
        0 <= k <= a.len(),
        k <= b.len(),
        a.take(k) == b.take(k),
    ensures
        k <= d <= a.len(),
        d <= b.len(),
        a.take(d) == b.take(d),
        d < a.len() || d < b.len(),
        d < a.len() && d < b.len() ==> a[d] != b[d],
    decreases a.len() - k,
{
    if k < a.len() && k < b.len() && a[k] == b[k] {
        assert(a.take(k + 1) =~= a.take(k).push(a[k]));
        assert(b.take(k + 1) =~= b.take(k).push(b[k]));
        lemma_first_difference(a, b, k + 1)
    } else {
        if k == a.len() && k == b.len() {
            assert(a.take(k) =~= a);
            assert(b.take(k) =~= b);
        }
        k
    }
}

/// One path comes before another just when, at the first character at which
/// their texts differ, it ends, or has the `/` of the two, or has no `/` and the
/// lesser of the two characters.
pub proof fn law_path_order_by_text(a: Seq<char>, b: Seq<char>)
    requires
        valid_path(a),
        valid_path(b),
    ensures
        path_less(a, b) <==> exists|k: int|
            {
                &&& 0 <= k <= a.len()
                &&& k < b.len()
                &&& #[trigger] a.take(k) == b.take(k)
                &&& {
                    ||| k == a.len()
                    ||| a[k] == '/' && b[k] != '/'
                    ||| a[k] != '/' && b[k] != '/' && a[k] < b[k]
                }
            },
        a != b ==> path_less(a, b) || path_less(b, a),
        !(path_less(a, b) && path_less(b, a)),
{
    law_path_order(a, b, a);
    if exists|k: int|
        {
            &&& 0 <= k <= a.len()
            &&& k < b.len()
            &&& #[trigger] a.take(k) == b.take(k)
            &&& {
                ||| k == a.len()
                ||| a[k] == '/' && b[k] != '/'
                ||| a[k] != '/' && b[k] != '/' && a[k] < b[k]
            }
        } {
        let k = choose|k: int|
            {
                &&& 0 <= k <= a.len()
                &&& k < b.len()
                &&& #[trigger] a.take(k) == b.take(k)
                &&& {
                    ||| k == a.len()
                    ||| a[k] == '/' && b[k] != '/'
                    ||| a[k] != '/' && b[k] != '/' && a[k] < b[k]
                }
            };
        lemma_path_less_at(a, b, k);
    }
    if a != b {
        assert(a.take(0) =~= b.take(0));
        let d = lemma_first_difference(a, b, 0);
        if less_at(a, b, d) {
            lemma_path_less_at(a, b, d);
            assert(a.take(d) == b.take(d));
        } else {
            lemma_path_less_at(b, a, d);
        }
    }
}

/// The order of two paths is that of [`law_path_order_by_text`], and paths with
/// the same text are the same.
pub proof fn law_order(a: RepoPath, b: RepoPath, order: PathOrder)
    requires
        call_ensures(RepoPath::order, (&a, &b), order),
    ensures
        order is Same <==> a@ == b@,
        order is Before <==> path_less(a@, b@),
        order is After <==> path_less(b@, a@),
{
}

/// A text is a path just when it does not begin or end with `/`, and has no two
/// of them in a row. The path keeps the text as it is.
pub proof fn law_valid_paths(value: String, path: Option<RepoPath>)
    requires
        call_ensures(RepoPath::from_internal_string, (value,), path),
    ensures
        path is None <==> {
            ||| value@.len() > 0 && value@[0] == '/'
            ||| value@.len() > 0 && value@[value@.len() - 1] == '/'
            ||| exists|i: int|
                0 <= i && i + 1 < value@.len() && value@[i] == '/' && #[trigger] value@[i + 1] == '/'
        },
        path is Some <==> valid_path(value@),
        path matches Some(p) ==> p@ == value@,
{
}

/// The text of a path is a valid one, and the path's own.
pub proof fn law_path_text(path: RepoPath, text: &str)
    requires
        call_ensures(RepoPath::as_internal_file_string, (&path,), text),
    ensures
        text@ == path@,
        text@.len() > 0 ==> text@[0] != '/' && text@[text@.len() - 1] != '/',
        forall|i: int|
            0 <= i && i + 1 < text@.len() && text@[i] == '/' ==> #[trigger] text@[i + 1] != '/',
{
}

/// A listing has the paths of the set, each of them once, and of any two the one
/// that comes first before the other.
pub proof fn law_listing(s: Seq<Seq<char>>, set: Set<Seq<char>>)
    ensures
        lists(s, set) <==> {
            &&& forall|p: Seq<char>|
                set.contains(p) <==> exists|j: int| 0 <= j < s.len() && #[trigger] s[j] == p
            &&& forall|i: int, j: int|
                0 <= i < j < s.len() ==> path_less(#[trigger] s[i], #[trigger] s[j])
        },
        lists(s, set) ==> s.no_duplicates(),
{
    if lists(s, set) {
        assert forall|p: Seq<char>| set.contains(p) implies exists|j: int|
            0 <= j < s.len() && #[trigger] s[j] == p by {
            assert(s.contains(p));
        }
        assert forall|j: int| 0 <= j < s.len() implies set.contains(#[trigger] s[j]) by {
            assert(s.contains(s[j]));
        }
        assert forall|i: int, j: int| 0 <= i < s.len() && 0 <= j < s.len() && i != j implies s[i]
            != s[j] by {
            law_path_order(s[i], s[j], s[i]);
        }
    }
}

} // verus!
