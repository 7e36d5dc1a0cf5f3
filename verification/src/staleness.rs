//! Whether a change's description still covers its content.
//!
//! A description is stale where the change has content but no description, or
//! where its content, what it changes against its parents, is no longer what it
//! was when the description was last set. When that was, its evolution shows.

use crate::fingerprint::{Fingerprint, changed_paths, diff_fingerprint_changes, lemma_listed};
use crate::id::{change_id_short, short_id};
use crate::path::{RepoPath, lists, path_less};
use crate::tree::DiffView;
use vstd::prelude::*;

verus! {

/// How many entries of a change's evolution are looked at.
pub const MAX_EVOLOG_ENTRIES: usize = 200;

/// A change whose description is stale.
#[derive(Debug, PartialEq, Eq)]
pub struct StalenessInfo {
    pub change_id_short: String,
    /// The files whose diff against the parents is no longer the one that was
    /// described.
    pub changed_files: Vec<RepoPath>,
}

/// The model of a [`StalenessInfo`].
pub struct StalenessView {
    pub change_id_short: Seq<char>,
    pub changed_files: Seq<Seq<char>>,
}

impl DeepView for StalenessInfo {
    type V = StalenessView;

    open spec fn deep_view(&self) -> StalenessView {
        StalenessView {
            change_id_short: self.change_id_short@,
            changed_files: self.changed_files.deep_view(),
        }
    }
}

/// One step in the evolution of a change: the description that it had then, and
/// the content.
pub struct EvologView {
    pub description: Seq<char>,
    pub content: Map<Seq<char>, DiffView>,
}

/// The part of an evolution, newest step first, that is looked at.
pub open spec fn recent<T>(evolog: Seq<T>) -> Seq<T> {
    if evolog.len() <= MAX_EVOLOG_ENTRIES {
        evolog
    } else {
        evolog.take(MAX_EVOLOG_ENTRIES as int)
    }
}

/// Whether the step at `k` is the one that set the description which the newest
/// step has: all since have that description, and the one before it has another,
/// or there is none before it.
pub open spec fn is_described_at(descriptions: Seq<Seq<char>>, k: int) -> bool {
    &&& 0 <= k < descriptions.len()
    &&& forall|i: int| 0 <= i <= k ==> #[trigger] descriptions[i] == descriptions[0]
    &&& k + 1 < descriptions.len() ==> descriptions[k + 1] != descriptions[0]
}

/// The step that set the description which the newest step has.
pub open spec fn described_at(descriptions: Seq<Seq<char>>) -> int {
    choose|k: int| is_described_at(descriptions, k)
}

pub open spec fn descriptions(evolog: Seq<EvologView>) -> Seq<Seq<char>> {
    evolog.map_values(|step: EvologView| step.description)
}

/// Whether a change has content, but no description.
pub open spec fn lacks_description(
    description: Seq<char>,
    content: Map<Seq<char>, DiffView>,
) -> bool {
    description.len() == 0 && content.dom() != Set::<Seq<char>>::empty()
}

/// The files to report of a change, or `None` where its description is current.
/// `evolog` holds the steps of its evolution, newest first, the change as it is
/// among them.
pub open spec fn stale_files(
    description: Seq<char>,
    content: Map<Seq<char>, DiffView>,
    evolog: Seq<EvologView>,
) -> Option<Set<Seq<char>>> {
    let steps = recent(evolog);
    let described = steps[described_at(descriptions(steps))].content;
    if lacks_description(description, content) {
        Some(content.dom())
    } else if steps.len() < 2 || described == content {
        None
    } else {
        Some(changed_paths(described, content))
    }
}

/// Whether `verdict` reports `files`, and the change `id` that they belong to;
/// or nothing, where there is nothing to report.
pub open spec fn reports(
    verdict: Option<StalenessInfo>,
    id: Seq<u8>,
    files: Option<Set<Seq<char>>>,
) -> bool {
    match verdict {
        Some(info) => {
            &&& files is Some
            &&& info.change_id_short@ == short_id(id)
            &&& lists(info.changed_files.deep_view(), files->Some_0)
        },
        None => files is None,
    }
}

proof fn lemma_described_at(descriptions: Seq<Seq<char>>, k: int)
    requires
        is_described_at(descriptions, k),
    ensures
        described_at(descriptions) == k,
{
    let c = described_at(descriptions);
    assert(is_described_at(descriptions, c));
    if c < k {
        assert(descriptions[c + 1] == descriptions[0]);
    } else if k < c {
        assert(descriptions[k + 1] == descriptions[0]);
    }
}

/// A check that waits for what it has to read next.
pub enum StalenessCheck {
    /// The change has no description: its content is to be read first.
    Undescribed(UndescribedCheck),
    /// The change has a description: its evolution is to be walked.
    Described(EvologWalk),
}

/// A check of a change without description.
pub struct UndescribedCheck {
    change_id_short: String,
}

/// What the content of a change without description leads to.
pub enum UndescribedStep {
    /// There is content, and all of it is to be reported.
    Stale(StalenessInfo),
    /// There is no content that could lack a description: the change's evolution
    /// is to be walked.
    Walk(EvologWalk),
}

/// A check that walks the evolution of a change, newest step first.
pub struct EvologWalk {
    change_id_short: String,
    descriptions: Vec<String>,
}

/// A check that has found the step at which the description was set, and is to
/// compare its content with the current one.
pub struct ContentCheck {
    change_id_short: String,
    described: usize,
}

impl StalenessCheck {
    /// Begins the check of the change `change_id`.
    pub fn new(change_id: &Vec<u8>, description: &str) -> (check: StalenessCheck)
        ensures
            check is Undescribed <==> description@.len() == 0,
            check matches StalenessCheck::Undescribed(c) ==> c.change_id_short() == short_id(
                change_id@,
            ),
            check matches StalenessCheck::Described(walk) ==> {
                &&& walk.change_id_short() == short_id(change_id@)
                &&& walk@ == Seq::<Seq<char>>::empty()
            },
    {
        let change_id_short = change_id_short(change_id);
        if description.is_empty() {
            StalenessCheck::Undescribed(UndescribedCheck { change_id_short })
        } else {
            StalenessCheck::Described(EvologWalk::new(change_id_short))
        }
    }
}

impl UndescribedCheck {
    pub closed spec fn change_id_short(self) -> Seq<char> {
        self.change_id_short@
    }

    /// Reports every file of the change's current content, where there is any.
    pub fn finish(self, current: &Fingerprint) -> (step: UndescribedStep)
        ensures
            step is Stale <==> current@.dom() != Set::<Seq<char>>::empty(),
            step matches UndescribedStep::Stale(info) ==> {
                &&& info.change_id_short@ == self.change_id_short()
                &&& lists(info.changed_files.deep_view(), current@.dom())
            },
            step matches UndescribedStep::Walk(walk) ==> {
                &&& walk.change_id_short() == self.change_id_short()
                &&& walk@ == Seq::<Seq<char>>::empty()
            },
    {
        let change_id_short = self.change_id_short;
        if current.is_empty() {
            UndescribedStep::Walk(EvologWalk::new(change_id_short))
        } else {
            UndescribedStep::Stale(
                StalenessInfo { change_id_short, changed_files: current.paths() },
            )
        }
    }
}

impl View for EvologWalk {
    type V = Seq<Seq<char>>;

    closed spec fn view(&self) -> Seq<Seq<char>> {
        self.descriptions.deep_view()
    }
}

impl EvologWalk {
    #[verifier::type_invariant]
    spec fn well_formed(self) -> bool {
        self.descriptions.len() <= MAX_EVOLOG_ENTRIES
    }

    pub closed spec fn change_id_short(self) -> Seq<char> {
        self.change_id_short@
    }

    /// A walk that has seen no step yet.
    fn new(change_id_short: String) -> (walk: EvologWalk)
        ensures
            walk.change_id_short() == change_id_short@,
            walk@ == Seq::<Seq<char>>::empty(),
    {
        let descriptions: Vec<String> = Vec::new();
        assert(descriptions.deep_view() =~= Seq::empty());
        EvologWalk { change_id_short, descriptions }
    }

    /// Takes the description that the next step has, and says whether to walk
    /// on. Steps beyond [`MAX_EVOLOG_ENTRIES`] are left out.
    pub fn step(&mut self, description: &str) -> (more: bool)
        ensures
            final(self)@ == recent(old(self)@.push(description@)),
            final(self).change_id_short() == old(self).change_id_short(),
            more == (final(self)@.len() < MAX_EVOLOG_ENTRIES),
    {
        proof {
            use_type_invariant(&*self);
        }
        let ghost before = self@;
        if self.descriptions.len() >= MAX_EVOLOG_ENTRIES {
            assert(recent(before.push(description@)) =~= before);
            return false;
        }
        let mut descriptions: Vec<String> = Vec::new();
        std::mem::swap(&mut descriptions, &mut self.descriptions);
        descriptions.push(description.to_owned());
        assert(descriptions.deep_view() =~= before.push(description@));
        self.descriptions = descriptions;
        self.descriptions.len() < MAX_EVOLOG_ENTRIES
    }

    /// Ends the walk. A change that has just been created, with a description,
    /// needs no further check.
    pub fn finish(self) -> (check: Option<ContentCheck>)
        ensures
            check is Some <==> self@.len() >= 2,
            check matches Some(c) ==> {
                &&& c.change_id_short() == self.change_id_short()
                &&& is_described_at(self@, c.described())
            },
    {
        let descriptions = &self.descriptions;
        if descriptions.len() < 2 {
            return None;
        }
        let ghost all = self@;
        let mut k: usize = 0;
        while k + 1 < descriptions.len() && descriptions[k] == descriptions[k + 1]
            invariant
                all == descriptions.deep_view(),
                k < descriptions.len(),
                forall|i: int| 0 <= i <= k ==> #[trigger] all[i] == all[0],
            decreases descriptions.len() - k,
        {
            assert(all[k as int] == all[k + 1]);
            k = k + 1;
        }
        assert(k + 1 < descriptions.len() ==> all[k as int] != all[k + 1]);
        Some(ContentCheck { change_id_short: self.change_id_short, described: k })
    }
}

impl ContentCheck {
    pub closed spec fn change_id_short(self) -> Seq<char> {
        self.change_id_short@
    }

    pub closed spec fn described(self) -> int {
        self.described as int
    }

    /// The step, counted from the newest, at which the description was set.
    pub fn described_step(&self) -> (k: usize)
        ensures
            k == self.described(),
    {
        self.described
    }

    /// Compares the content that was described with the current one.
    pub fn finish(self, described: &Fingerprint, current: &Fingerprint) -> (verdict: Option<
        StalenessInfo,
    >)
        ensures
            verdict is None <==> described@ == current@,
            verdict matches Some(info) ==> {
                &&& info.change_id_short@ == self.change_id_short()
                &&& lists(info.changed_files.deep_view(), changed_paths(described@, current@))
            },
    {
        if described.same(current) {
            return None;
        }
        let changed_files = diff_fingerprint_changes(described, current);
        Some(StalenessInfo { change_id_short: self.change_id_short, changed_files })
    }
}

/// A change, as it is now.
pub struct Change {
    pub change_id: Vec<u8>,
    pub description: String,
    pub content: Fingerprint,
}

/// One step in the evolution of a change.
pub struct EvologEntry {
    pub description: String,
    pub content: Fingerprint,
}

impl DeepView for EvologEntry {
    type V = EvologView;

    open spec fn deep_view(&self) -> EvologView {
        EvologView { description: self.description@, content: self.content@ }
    }
}

/// Checks whether a change's description is stale relative to its content.
///
/// `evolog` holds the steps of the change's evolution, newest first. Returns
/// `None` where the description is current.
pub fn check_staleness(change: &Change, evolog: &Vec<EvologEntry>) -> (verdict: Option<
    StalenessInfo,
>)
    ensures
        reports(
            verdict,
            change.change_id@,
            stale_files(change.description@, change.content@, evolog.deep_view()),
        ),
{
    let ghost steps = recent(evolog.deep_view());
    let mut walk = match StalenessCheck::new(&change.change_id, change.description.as_str()) {
        StalenessCheck::Undescribed(check) => match check.finish(&change.content) {
            UndescribedStep::Stale(info) => {
                return Some(info);
            },
            UndescribedStep::Walk(walk) => walk,
        },
        StalenessCheck::Described(walk) => walk,
    };
    let mut i: usize = 0;
    let mut more = true;
    while more && i < evolog.len()
        invariant
            i <= evolog.len(),
            i <= MAX_EVOLOG_ENTRIES,
            more == (i < MAX_EVOLOG_ENTRIES),
            walk.change_id_short() == short_id(change.change_id@),
            walk@ =~= descriptions(evolog.deep_view().take(i as int)),
        decreases evolog.len() - i,
    {
        let ghost before = walk@;
        more = walk.step(evolog[i].description.as_str());
        assert(recent(before.push(evolog[i as int].description@)) =~= before.push(
            evolog[i as int].description@,
        ));
        i = i + 1;
    }
    assert(evolog.deep_view().take(i as int) =~= steps);
    match walk.finish() {
        None => None,
        Some(check) => {
            let k = check.described_step();
            proof {
                lemma_described_at(descriptions(steps), k as int);
            }
            assert(steps[k as int] == evolog[k as int].deep_view());
            check.finish(&evolog[k].content, &change.content)
        },
    }
}

/// There is always a step that set the description of the newest one.
proof fn lemma_described_at_exists(descriptions: Seq<Seq<char>>, k: int)
    requires
        0 <= k < descriptions.len(),
        forall|i: int| 0 <= i <= k ==> #[trigger] descriptions[i] == descriptions[0],
    ensures
        is_described_at(descriptions, described_at(descriptions)),
        k <= described_at(descriptions),
    decreases descriptions.len() - k,
{
    if k + 1 < descriptions.len() && descriptions[k + 1] == descriptions[0] {
        lemma_described_at_exists(descriptions, k + 1);
    } else {
        assert(is_described_at(descriptions, k));
        lemma_described_at(descriptions, k);
    }
}

/// A change that has content, but no description, is stale, whatever its
/// evolution, and all of its files are reported.
pub proof fn law_empty_description_is_stale(
    content: Map<Seq<char>, DiffView>,
    evolog: Seq<EvologView>,
)
    requires
        content.dom() != Set::<Seq<char>>::empty(),
    ensures
        stale_files(Seq::empty(), content, evolog) == Some(content.dom()),
{
}

/// A change that has neither content nor description, and has not evolved, is
/// not stale.
pub proof fn law_empty_change_is_current(
    content: Map<Seq<char>, DiffView>,
    evolog: Seq<EvologView>,
)
    requires
        content.dom() == Set::<Seq<char>>::empty(),
        evolog.len() < 2,
    ensures
        stale_files(Seq::empty(), content, evolog) is None,
{
}

/// A stale change has a file to report.
pub proof fn law_stale_change_reports_a_file(
    description: Seq<char>,
    content: Map<Seq<char>, DiffView>,
    evolog: Seq<EvologView>,
)
    ensures
        stale_files(description, content, evolog) matches Some(files) ==> files
            != Set::<Seq<char>>::empty(),
{
    let steps = recent(evolog);
    crate::fingerprint::law_no_changes(
        steps[described_at(descriptions(steps))].content,
        content,
    );
}

/// A change that was described when it was created, and has not evolved since,
/// is not stale.
pub proof fn law_described_at_creation_is_current(
    description: Seq<char>,
    content: Map<Seq<char>, DiffView>,
    evolog: Seq<EvologView>,
)
    requires
        description.len() > 0,
        evolog.len() < 2,
    ensures
        stale_files(description, content, evolog) is None,
{
}

/// A change that is described, whatever the description, or has no content, is
/// stale just when its content is not that of the step which set its
/// description, and the files to report are then those at which the two differ,
/// one at least.
pub proof fn law_stale_when_content_moved_on(
    description: Seq<char>,
    content: Map<Seq<char>, DiffView>,
    evolog: Seq<EvologView>,
    k: int,
)
    requires
        description.len() > 0 || content.dom() == Set::<Seq<char>>::empty(),
        recent(evolog).len() >= 2,
        is_described_at(descriptions(recent(evolog)), k),
    ensures
        stale_files(description, content, evolog) is None <==> evolog[k].content == content,
        stale_files(description, content, evolog) matches Some(files) ==> {
            &&& files == changed_paths(evolog[k].content, content)
            &&& files != Set::<Seq<char>>::empty()
        },
{
    lemma_described_at(descriptions(recent(evolog)), k);
    crate::fingerprint::law_no_changes(evolog[k].content, content);
}

/// A change whose newest step gave it its description is not stale: whoever
/// describes a change describes what is in it then.
pub proof fn law_just_described_is_current(
    description: Seq<char>,
    content: Map<Seq<char>, DiffView>,
    evolog: Seq<EvologView>,
)
    requires
        description.len() > 0 || content.dom() == Set::<Seq<char>>::empty(),
        evolog.len() >= 2,
        evolog[0].description != evolog[1].description,
        evolog[0].content == content,
    ensures
        stale_files(description, content, evolog) is None,
{
    assert(is_described_at(descriptions(recent(evolog)), 0));
    lemma_described_at(descriptions(recent(evolog)), 0);
}

/// A change that kept its content through all of its evolution is not stale,
/// whatever else happened to it: parents do not matter, only content does.
pub proof fn law_kept_content_is_current(
    description: Seq<char>,
    content: Map<Seq<char>, DiffView>,
    evolog: Seq<EvologView>,
)
    requires
        description.len() > 0 || content.dom() == Set::<Seq<char>>::empty(),
        forall|i: int| 0 <= i < evolog.len() ==> (#[trigger] evolog[i]).content == content,
    ensures
        stale_files(description, content, evolog) is None,
{
    let steps = recent(evolog);
    if steps.len() >= 2 {
        lemma_described_at_exists(descriptions(steps), 0);
        let k = described_at(descriptions(steps));
        assert(steps[k] == evolog[k]);
    }
}

/// A step that keeps description and content, a rebase, leaves the verdict as
/// it was, as long as it pushes no other step out of view.
pub proof fn law_rebase_keeps_verdict(
    description: Seq<char>,
    content: Map<Seq<char>, DiffView>,
    evolog: Seq<EvologView>,
    rebased: EvologView,
)
    requires
        0 < evolog.len() < MAX_EVOLOG_ENTRIES,
        evolog[0].content == content,
        rebased.description == evolog[0].description,
        rebased.content == content,
    ensures
        stale_files(description, content, seq![rebased] + evolog) == stale_files(
            description,
            content,
            evolog,
        ),
{
    let longer = seq![rebased] + evolog;
    let d = descriptions(evolog);
    let e = descriptions(longer);
    lemma_described_at_exists(d, 0);
    let k = described_at(d);
    assert forall|i: int| 0 <= i <= k + 1 implies #[trigger] e[i] == e[0] by {
        if i > 0 {
            assert(e[i] == d[i - 1]);
        }
    }
    assert(e[1] == d[0]);
    if k + 2 < e.len() {
        assert(e[k + 2] == d[k + 1]);
    }
    assert(is_described_at(e, k + 1));
    lemma_described_at(e, k + 1);
    assert(longer[k + 1] == evolog[k]);
}

/// Steps of an evolution that are not looked at make no difference.
pub proof fn law_older_steps_are_irrelevant(
    description: Seq<char>,
    content: Map<Seq<char>, DiffView>,
    evolog: Seq<EvologView>,
)
    ensures
        stale_files(description, content, evolog) == stale_files(
            description,
            content,
            recent(evolog),
        ),
{
    assert(recent(recent(evolog)) =~= recent(evolog));
}

/// There is one verdict on a change: two that report the same agree in the
/// identifier and in the list of files.
pub proof fn law_one_verdict(
    a: Option<StalenessInfo>,
    b: Option<StalenessInfo>,
    id: Seq<u8>,
    files: Option<Set<Seq<char>>>,
)
    requires
        reports(a, id, files),
        reports(b, id, files),
    ensures
        a.deep_view() == b.deep_view(),
{
    if let (Some(x), Some(y)) = (a, b) {
        crate::path::law_one_listing(
            x.changed_files.deep_view(),
            y.changed_files.deep_view(),
            files->Some_0,
        );
    }
}

/// What a walk has taken down after the steps with these descriptions.
pub open spec fn walked(descriptions: Seq<Seq<char>>) -> Seq<Seq<char>>
    decreases descriptions.len(),
{
    if descriptions.len() == 0 {
        Seq::empty()
    } else {
        recent(walked(descriptions.drop_last()).push(descriptions.last()))
    }
}

/// A walk through a whole evolution takes down the steps that are looked at,
/// whether or not it ends where it may.
pub proof fn law_walk_takes_recent_steps(descriptions: Seq<Seq<char>>)
    ensures
        walked(descriptions) == recent(descriptions),
    decreases descriptions.len(),
{
    if descriptions.len() > 0 {
        law_walk_takes_recent_steps(descriptions.drop_last());
    }
    assert(walked(descriptions) =~= recent(descriptions));
}

/// A change lacks a description just when it has none, and changes some file.
pub proof fn law_lacks_description(description: Seq<char>, content: Map<Seq<char>, DiffView>)
    ensures
        lacks_description(description, content) <==> description.len() == 0 && exists|p: Seq<char>|
            #[trigger] content.contains_key(p),
{
    if description.len() == 0 && !lacks_description(description, content) {
        assert forall|p: Seq<char>| !#[trigger] content.contains_key(p) by {
            assert(!content.dom().contains(p));
        }
    } else if lacks_description(description, content) {
        assert(!(content.dom() =~= Set::<Seq<char>>::empty()));
    }
}

/// The steps that are looked at are the newest 200, or all where there are
/// fewer.
pub proof fn law_recent<T>(evolog: Seq<T>)
    ensures
        recent(evolog).len() == if evolog.len() < 200 {
            evolog.len()
        } else {
            200
        },
        forall|i: int| 0 <= i < recent(evolog).len() ==> #[trigger] recent(evolog)[i] == evolog[i],
{
}

/// The model of a stale change has its identifier, and its files one by one.
pub proof fn law_info_model(info: StalenessInfo)
    ensures
        info.deep_view().change_id_short == info.change_id_short@,
        info.deep_view().changed_files.len() == info.changed_files.len(),
        forall|i: int|
            0 <= i < info.changed_files.len() ==> info.deep_view().changed_files[i] == (
            #[trigger] info.changed_files[i])@,
{
}

/// A change without description that changes some file is stale, whatever its
/// evolution. What is reported are all of its files, and its identifier.
pub proof fn law_undescribed_change_is_stale(
    change: Change,
    evolog: Vec<EvologEntry>,
    verdict: Option<StalenessInfo>,
    short: String,
    p: Seq<char>,
)
    requires
        call_ensures(check_staleness, (&change, &evolog), verdict),
        call_ensures(change_id_short, (&change.change_id,), short),
        change.description@.len() == 0,
        change.content@.contains_key(p),
    ensures
        verdict matches Some(info) && {
            &&& info.change_id_short@ == short@
            &&& forall|q: Seq<char>|
                (exists|j: int|
                    0 <= j < info.changed_files.len() && (#[trigger] info.changed_files[j])@ == q)
                    <==> #[trigger] change.content@.contains_key(q)
        },
{
    law_lacks_description(change.description@, change.content@);
    assert(verdict is Some);
    lemma_listed(verdict->Some_0.changed_files, change.content@.dom());
}

/// A change that is described, or changes no file, and has not evolved is not
/// stale.
pub proof fn law_unevolved_change_is_current(
    change: Change,
    evolog: Vec<EvologEntry>,
    verdict: Option<StalenessInfo>,
)
    requires
        call_ensures(check_staleness, (&change, &evolog), verdict),
        change.description@.len() > 0 || forall|p: Seq<char>|
            !#[trigger] change.content@.contains_key(p),
        evolog.len() < 2,
    ensures
        verdict is None,
{
    law_lacks_description(change.description@, change.content@);
    assert(evolog.deep_view().len() == evolog.len());
}

/// A change that is described, whatever the description says, or changes no
/// file, is stale just when its content is not that of the step `k` which set
/// the description: the last one, from the newest on and among the newest 200,
/// up to which all have the same description. What is reported are the files at
/// which the two contents differ, and the change's identifier.
pub proof fn law_verdict(
    change: Change,
    evolog: Vec<EvologEntry>,
    k: int,
    verdict: Option<StalenessInfo>,
    short: String,
)
    requires
        call_ensures(check_staleness, (&change, &evolog), verdict),
        call_ensures(change_id_short, (&change.change_id,), short),
        change.description@.len() > 0 || forall|p: Seq<char>|
            !#[trigger] change.content@.contains_key(p),
        evolog.len() >= 2,
        0 <= k < evolog.len(),
        k < 200,
        forall|i: int|
            0 <= i <= k ==> (#[trigger] evolog[i]).description@ == evolog[0].description@,
        k + 1 < evolog.len() && k + 1 < 200 ==> evolog[k + 1].description@
            != evolog[0].description@,
    ensures
        verdict is None <==> change.content@ == evolog[k].content@,
        verdict matches Some(info) ==> {
            &&& info.change_id_short@ == short@
            &&& forall|p: Seq<char>|
                (exists|j: int|
                    0 <= j < info.changed_files.len() && (#[trigger] info.changed_files[j])@ == p)
                    <==> {
                    ||| #[trigger] evolog[k].content@.contains_key(p)
                        && !change.content@.contains_key(p)
                    ||| !evolog[k].content@.contains_key(p) && change.content@.contains_key(p)
                    ||| evolog[k].content@.contains_key(p) && change.content@.contains_key(p)
                        && evolog[k].content@[p] != change.content@[p]
                }
        },
{
    law_lacks_description(change.description@, change.content@);
    let all = evolog.deep_view();
    let steps = recent(all);
    let d = descriptions(steps);
    assert(all.len() == evolog.len());
    assert forall|i: int| 0 <= i < steps.len() implies d[i] == (
    #[trigger] evolog[i]).description@ by {
        assert(steps[i] == evolog[i].deep_view());
    }
    assert forall|i: int| 0 <= i <= k implies #[trigger] d[i] == d[0] by {
        assert(d[i] == evolog[i].description@);
        assert(d[0] == evolog[0].description@);
    }
    if k + 1 < d.len() {
        assert(d[k + 1] == evolog[k + 1].description@);
        assert(d[0] == evolog[0].description@);
    }
    assert(is_described_at(d, k));
    lemma_described_at(d, k);
    assert(steps[k] == evolog[k].deep_view());
    if let Some(info) = verdict {
        let (a, b) = (evolog[k].content@, change.content@);
        let set = changed_paths(a, b);
        lemma_listed(info.changed_files, set);
        assert forall|p: Seq<char>|
            (exists|j: int|
                0 <= j < info.changed_files.len() && (#[trigger] info.changed_files[j])@ == p)
                <==> {
                ||| #[trigger] a.contains_key(p) && !b.contains_key(p)
                ||| !a.contains_key(p) && b.contains_key(p)
                ||| a.contains_key(p) && b.contains_key(p) && a[p] != b[p]
            } by {
            assert(set.contains(p) <==> (exists|j: int|
                0 <= j < info.changed_files.len() && (#[trigger] info.changed_files[j])@ == p));
        }
    }
}

/// What is reported of a change is in listing order, each file once.
pub proof fn law_reported_files_are_in_order(
    change: Change,
    evolog: Vec<EvologEntry>,
    verdict: Option<StalenessInfo>,
)
    requires
        call_ensures(check_staleness, (&change, &evolog), verdict),
    ensures
        verdict matches Some(info) ==> forall|i: int, j: int|
            0 <= i < j < info.changed_files.len() ==> path_less(
                (#[trigger] info.changed_files[i])@,
                (#[trigger] info.changed_files[j])@,
            ),
{
    if let Some(info) = verdict {
        let files = stale_files(change.description@, change.content@, evolog.deep_view());
        lemma_listed(info.changed_files, files->Some_0);
    }
}

/// Every evolution has a step that set the description, among those that are
/// looked at.
pub proof fn law_some_step_set_the_description(evolog: Vec<EvologEntry>) -> (k: int)
    requires
        evolog.len() > 0,
    ensures
        0 <= k < evolog.len(),
        k < 200,
        forall|i: int|
            0 <= i <= k ==> (#[trigger] evolog[i]).description@ == evolog[0].description@,
        k + 1 < evolog.len() && k + 1 < 200 ==> evolog[k + 1].description@
            != evolog[0].description@,
{
    let steps = recent(evolog.deep_view());
    let d = descriptions(steps);
    assert(evolog.deep_view().len() == evolog.len());
    lemma_described_at_exists(d, 0);
    let k = described_at(d);
    assert forall|i: int| 0 <= i < d.len() implies d[i] == (#[trigger] evolog[i]).description@ by {
        assert(steps[i] == evolog[i].deep_view());
    }
    assert forall|i: int| 0 <= i <= k implies (#[trigger] evolog[i]).description@
        == evolog[0].description@ by {
        assert(d[i] == d[0]);
    }
    if k + 1 < d.len() {
        assert(d[k + 1] == evolog[k + 1].description@);
    }
    k
}

/// A check of a change without description waits for its content, and any other
/// for its evolution. Both are about the change, and have seen no step.
pub proof fn law_check_begins(
    change_id: Vec<u8>,
    description: &str,
    check: StalenessCheck,
    short: String,
)
    requires
        call_ensures(StalenessCheck::new, (&change_id, description), check),
        call_ensures(change_id_short, (&change_id,), short),
    ensures
        description@.len() == 0 ==> (check matches StalenessCheck::Undescribed(c)
            && c.change_id_short() == short@),
        description@.len() > 0 ==> (check matches StalenessCheck::Described(walk)
            && walk.change_id_short() == short@ && walk@.len() == 0),
{
}

/// A change without description is stale at once where it changes some file, and
/// all of its files are reported. Where it changes none, its evolution decides.
pub proof fn law_undescribed_step(
    check: UndescribedCheck,
    current: Fingerprint,
    step: UndescribedStep,
)
    requires
        call_ensures(UndescribedCheck::finish, (check, &current), step),
    ensures
        (forall|p: Seq<char>| !#[trigger] current@.contains_key(p)) ==> (
        step matches UndescribedStep::Walk(walk) && walk.change_id_short()
            == check.change_id_short() && walk@.len() == 0),
        (exists|p: Seq<char>| #[trigger] current@.contains_key(p)) ==> (
        step matches UndescribedStep::Stale(info) && {
            &&& info.change_id_short@ == check.change_id_short()
            &&& forall|p: Seq<char>|
                (exists|j: int|
                    0 <= j < info.changed_files.len() && (#[trigger] info.changed_files[j])@ == p)
                    <==> #[trigger] current@.contains_key(p)
        }),
{
    law_lacks_description(Seq::empty(), current@);
    if let UndescribedStep::Stale(info) = step {
        lemma_listed(info.changed_files, current@.dom());
    }
}

/// A walk takes down the description of every step that it is given, in turn, up
/// to 200 of them, and asks for more as long as it has fewer.
pub proof fn law_walk_step(walk: &mut EvologWalk, description: &str, more: bool)
    requires
        call_ensures(EvologWalk::step, (walk, description), more),
        old(walk)@.len() <= 200,
    ensures
        final(walk).change_id_short() == old(walk).change_id_short(),
        old(walk)@.len() < 200 ==> final(walk)@ == old(walk)@.push(description@),
        old(walk)@.len() == 200 ==> final(walk)@ == old(walk)@,
        more <==> final(walk)@.len() < 200,
{
    let all = old(walk)@.push(description@);
    if all.len() > 200 {
        assert(all.take(200) =~= old(walk)@);
    }
}

/// A walk of two steps or more ends at the one that set the description: up to
/// it all have the description of the newest, and the next has another.
pub proof fn law_walk_finds_description(
    walk: EvologWalk,
    check: Option<ContentCheck>,
    k: usize,
)
    requires
        call_ensures(EvologWalk::finish, (walk,), check),
        check matches Some(c) ==> call_ensures(ContentCheck::described_step, (&c,), k),
    ensures
        check is Some <==> walk@.len() >= 2,
        check matches Some(c) ==> {
            &&& c.change_id_short() == walk.change_id_short()
            &&& k < walk@.len()
            &&& forall|i: int| 0 <= i <= k ==> #[trigger] walk@[i] == walk@[0]
            &&& k + 1 < walk@.len() ==> walk@[k + 1] != walk@[0]
        },
{
}

/// A change is stale just when its content is not the one that was described,
/// and what is reported are the files at which the two differ.
pub proof fn law_content_check(
    check: ContentCheck,
    described: Fingerprint,
    current: Fingerprint,
    verdict: Option<StalenessInfo>,
)
    requires
        call_ensures(ContentCheck::finish, (check, &described, &current), verdict),
    ensures
        verdict is None <==> described@ == current@,
        verdict matches Some(info) ==> {
            &&& info.change_id_short@ == check.change_id_short()
            &&& forall|p: Seq<char>|
                (exists|j: int|
                    0 <= j < info.changed_files.len() && (#[trigger] info.changed_files[j])@ == p)
                    <==> {
                    ||| #[trigger] described@.contains_key(p) && !current@.contains_key(p)
                    ||| !described@.contains_key(p) && current@.contains_key(p)
                    ||| described@.contains_key(p) && current@.contains_key(p) && described@[p]
                        != current@[p]
                }
        },
{
    if let Some(info) = verdict {
        let set = changed_paths(described@, current@);
        lemma_listed(info.changed_files, set);
        assert forall|p: Seq<char>|
            (exists|j: int|
                0 <= j < info.changed_files.len() && (#[trigger] info.changed_files[j])@ == p)
                <==> {
                ||| #[trigger] described@.contains_key(p) && !current@.contains_key(p)
                ||| !described@.contains_key(p) && current@.contains_key(p)
                ||| described@.contains_key(p) && current@.contains_key(p) && described@[p]
                    != current@[p]
            } by {
            assert(set.contains(p) <==> (exists|j: int|
                0 <= j < info.changed_files.len() && (#[trigger] info.changed_files[j])@ == p));
        }
    }
}

} // verus!
