//! A run of the hook: which commits it checks, and what comes of it.
//!
//! The run says what to do next, and is told what came of that. It stops at the
//! first candidate that is no commit identifier.

use crate::id::{commit_id_from_hex, decoded_hex};
use crate::staleness::{StalenessInfo, StalenessView};
use vstd::prelude::*;

verus! {

/// The stale changes without those that directly follow one with the same
/// identifier.
pub open spec fn deduplicated(stale: Seq<StalenessView>) -> Seq<StalenessView>
    decreases stale.len(),
{
    if stale.len() <= 1 {
        stale
    } else {
        let before = deduplicated(stale.drop_last());
        if stale.last().change_id_short == stale[stale.len() - 2].change_id_short {
            before
        } else {
            before.push(stale.last())
        }
    }
}

/// Drops each stale change that directly follows one with the same identifier.
pub fn deduplicate(stale: Vec<StalenessInfo>) -> (kept: Vec<StalenessInfo>)
    ensures
        kept.deep_view() == deduplicated(stale.deep_view()),
{
    let ghost all = stale.deep_view();
    let ghost infos = stale@;
    let mut kept: Vec<StalenessInfo> = Vec::new();
    assert(kept.deep_view() =~= all.take(0));
    for info in it: stale
        invariant
            it.seq() == infos,
            all.len() == infos.len(),
            forall|i: int| 0 <= i < infos.len() ==> all[i] == (#[trigger] infos[i]).deep_view(),
            kept.deep_view() == deduplicated(all.take(it.index() as int)),
            it.index() > 0 ==> kept.len() > 0 && kept.deep_view().last().change_id_short
                == all[it.index() - 1].change_id_short,
    {
        let ghost n = it.index() as int;
        let ghost before = kept.deep_view();
        assert(info == infos[n]);
        assert(all.take(n + 1).drop_last() =~= all.take(n));
        assert(n > 0 ==> all.take(n + 1)[n - 1] == all[n - 1]);
        let repeated = kept.len() > 0 && kept[kept.len() - 1].change_id_short
            == info.change_id_short;
        if !repeated {
            kept.push(info);
            assert(kept.deep_view() =~= before.push(all[n]));
        }
        proof {
            if n == 0 {
                assert(before =~= Seq::empty());
                assert(kept.deep_view() =~= all.take(1));
            }
        }
    }
    assert(all.take(all.len() as int) =~= all);
    kept
}

/// What a run has to know: the commits to check, how many of them were, and
/// which changes were found stale.
pub struct RunView {
    pub candidates: Seq<Seq<char>>,
    pub checked: nat,
    pub stale: Seq<StalenessView>,
    pub stop_mode: bool,
}

/// What to do next in a run.
pub enum RunStep {
    /// Load the repository.
    LoadRepo(UnloadedRun),
    /// Check the commit with this identifier.
    Check(Run, Vec<u8>),
    /// Fail with this error.
    Fail(String),
    /// Every description is current: let the hook that blocks start afresh.
    ResetRetries,
    /// End the run, with nothing to say.
    Exit,
    /// Report the stale changes.
    Report(Vec<StalenessInfo>),
}

/// A run that waits for the repository.
pub struct UnloadedRun {
    candidates: Vec<String>,
    stop_mode: bool,
}

/// A run that waits for the verdict on a commit.
pub struct Run {
    candidates: Vec<String>,
    checked: usize,
    stale: Vec<StalenessInfo>,
    stop_mode: bool,
}

impl View for UnloadedRun {
    type V = RunView;

    closed spec fn view(&self) -> RunView {
        RunView {
            candidates: self.candidates.deep_view(),
            checked: 0,
            stale: Seq::empty(),
            stop_mode: self.stop_mode,
        }
    }
}

impl View for Run {
    type V = RunView;

    closed spec fn view(&self) -> RunView {
        RunView {
            candidates: self.candidates.deep_view(),
            checked: self.checked as nat,
            stale: self.stale.deep_view(),
            stop_mode: self.stop_mode,
        }
    }
}

/// Whether `step` is what to do next in a run in the state `run`.
pub open spec fn is_next_step(run: RunView, step: RunStep) -> bool {
    if run.checked < run.candidates.len() {
        let candidate = run.candidates[run.checked as int];
        match decoded_hex(candidate) {
            Some(id) => {
                &&& step is Check
                &&& step->Check_0@ == run
                &&& step->Check_1@ == id
            },
            None => {
                &&& step is Fail
                &&& step->Fail_0@ == "invalid commit id hex: "@ + candidate
            },
        }
    } else if deduplicated(run.stale).len() > 0 {
        &&& step is Report
        &&& step->Report_0.deep_view() == deduplicated(run.stale)
    } else if run.stop_mode {
        step is ResetRetries
    } else {
        step is Exit
    }
}

/// The state of a run after a verdict on the commit that it waits for.
pub open spec fn after_verdict(run: RunView, verdict: Option<StalenessView>) -> RunView {
    RunView {
        checked: run.checked + 1,
        stale: match verdict {
            Some(info) => run.stale.push(info),
            None => run.stale,
        },
        ..run
    }
}

/// Begins a run over the candidates. Without any there is nothing to do.
pub fn begin(candidates: Vec<String>, stop_mode: bool) -> (step: RunStep)
    ensures
        candidates.len() == 0 ==> step is Exit,
        candidates.len() > 0 ==> {
            &&& step is LoadRepo
            &&& step->LoadRepo_0@ == (RunView {
                candidates: candidates.deep_view(),
                checked: 0,
                stale: Seq::empty(),
                stop_mode,
            })
        },
{
    if candidates.is_empty() {
        RunStep::Exit
    } else {
        RunStep::LoadRepo(UnloadedRun { candidates, stop_mode })
    }
}

/// What to do next in a run in this state.
fn next_step(
    candidates: Vec<String>,
    checked: usize,
    stale: Vec<StalenessInfo>,
    stop_mode: bool,
) -> (step: RunStep)
    requires
        checked <= candidates.len(),
    ensures
        is_next_step(
            (RunView {
                candidates: candidates.deep_view(),
                checked: checked as nat,
                stale: stale.deep_view(),
                stop_mode,
            }),
            step,
        ),
{
    if checked < candidates.len() {
        let candidate = &candidates[checked];
        match commit_id_from_hex(candidate.as_str()) {
            Some(id) => RunStep::Check(Run { candidates, checked, stale, stop_mode }, id),
            None => {
                let mut error: String = "invalid commit id hex: ".to_owned();
                error.append(candidate.as_str());
                RunStep::Fail(error)
            },
        }
    } else {
        let kept = deduplicate(stale);
        assert(kept.deep_view().len() == kept.len());
        if !kept.is_empty() {
            RunStep::Report(kept)
        } else if stop_mode {
            RunStep::ResetRetries
        } else {
            RunStep::Exit
        }
    }
}

impl UnloadedRun {
    /// Goes on once the repository is loaded.
    pub fn repo_loaded(self) -> (step: RunStep)
        ensures
            is_next_step(self@, step),
    {
        let stale: Vec<StalenessInfo> = Vec::new();
        assert(stale.deep_view() =~= Seq::empty());
        next_step(self.candidates, 0, stale, self.stop_mode)
    }
}

impl Run {
    #[verifier::type_invariant]
    spec fn well_formed(self) -> bool {
        self.checked < self.candidates.len()
    }

    /// Takes the verdict on the commit that the run waits for, and goes on.
    pub fn checked(self, verdict: Option<StalenessInfo>) -> (step: RunStep)
        ensures
            is_next_step(after_verdict(self@, verdict.deep_view()), step),
    {
        proof {
            use_type_invariant(&self);
        }
        let ghost before = self.stale.deep_view();
        let mut stale = self.stale;
        if let Some(info) = verdict {
            stale.push(info);
            assert(stale.deep_view() =~= before.push(info.deep_view()));
        }
        next_step(self.candidates, self.checked + 1, stale, self.stop_mode)
    }
}

/// The stale changes among the verdicts.
pub open spec fn stale_among(verdicts: Seq<Option<StalenessView>>) -> Seq<StalenessView>
    decreases verdicts.len(),
{
    if verdicts.len() == 0 {
        Seq::empty()
    } else {
        let before = stale_among(verdicts.drop_last());
        match verdicts.last() {
            Some(info) => before.push(info),
            None => before,
        }
    }
}

/// The state of a run after some verdicts, one after the other.
pub open spec fn after_verdicts(run: RunView, verdicts: Seq<Option<StalenessView>>) -> RunView
    decreases verdicts.len(),
{
    if verdicts.len() == 0 {
        run
    } else {
        after_verdict(after_verdicts(run, verdicts.drop_last()), verdicts.last())
    }
}

/// A run that got a verdict on every candidate has found just the changes that
/// the verdicts call stale, in the order of the candidates, and has none left to
/// check.
pub proof fn law_run_collects_verdicts(run: RunView, verdicts: Seq<Option<StalenessView>>)
    requires
        run.checked == 0,
        run.stale == Seq::<StalenessView>::empty(),
        verdicts.len() == run.candidates.len(),
    ensures
        after_verdicts(run, verdicts) == (RunView {
            checked: run.candidates.len(),
            stale: stale_among(verdicts),
            ..run
        }),
{
    lemma_after_verdicts(run, verdicts);
}

proof fn lemma_after_verdicts(run: RunView, verdicts: Seq<Option<StalenessView>>)
    requires
        run.checked == 0,
        run.stale == Seq::<StalenessView>::empty(),
    ensures
        after_verdicts(run, verdicts) == (RunView {
            checked: verdicts.len(),
            stale: stale_among(verdicts),
            ..run
        }),
    decreases verdicts.len(),
{
    if verdicts.len() > 0 {
        lemma_after_verdicts(run, verdicts.drop_last());
    }
}

/// Nothing is reported just when nothing is stale.
pub proof fn law_report_unless_current(stale: Seq<StalenessView>)
    ensures
        deduplicated(stale).len() == 0 <==> stale.len() == 0,
    decreases stale.len(),
{
    if stale.len() > 1 {
        law_report_unless_current(stale.drop_last());
    }
}

/// What is reported was found stale.
pub proof fn law_reports_are_stale(stale: Seq<StalenessView>, j: int)
    requires
        0 <= j < deduplicated(stale).len(),
    ensures
        stale.contains(deduplicated(stale)[j]),
    decreases stale.len(),
{
    let kept = deduplicated(stale)[j];
    if stale.len() <= 1 {
        assert(stale[j] == kept);
    } else {
        let rest = stale.drop_last();
        if j < deduplicated(rest).len() {
            law_reports_are_stale(rest, j);
            let i = choose|i: int| 0 <= i < rest.len() && rest[i] == kept;
            assert(stale[i] == kept);
        } else {
            assert(stale[stale.len() - 1] == kept);
        }
    }
}

/// Whether some change among `kept` has the identifier `id`.
pub open spec fn mentions(kept: Seq<StalenessView>, id: Seq<char>) -> bool {
    exists|j: int| 0 <= j < kept.len() && (#[trigger] kept[j]).change_id_short == id
}

/// No stale change goes unreported: its identifier is among those reported.
pub proof fn law_every_stale_change_is_reported(stale: Seq<StalenessView>, i: int)
    requires
        0 <= i < stale.len(),
    ensures
        mentions(deduplicated(stale), stale[i].change_id_short),
    decreases stale.len(),
{
    let kept = deduplicated(stale);
    let id = stale[i].change_id_short;
    if stale.len() <= 1 {
        assert(kept[i].change_id_short == id);
    } else {
        let rest = stale.drop_last();
        let before = deduplicated(rest);
        let repeated = stale.last().change_id_short == stale[stale.len() - 2].change_id_short;
        if i < rest.len() || repeated {
            let k = if i < rest.len() {
                i
            } else {
                stale.len() - 2
            };
            law_every_stale_change_is_reported(rest, k);
            let j = choose|j: int|
                0 <= j < before.len() && (#[trigger] before[j]).change_id_short == id;
            assert(kept[j].change_id_short == id);
        } else {
            assert(kept[kept.len() - 1].change_id_short == id);
        }
    }
}

/// No two reports in a row have the same identifier.
pub proof fn law_reports_in_a_row_differ(stale: Seq<StalenessView>, j: int)
    requires
        0 < j < deduplicated(stale).len(),
    ensures
        deduplicated(stale)[j - 1].change_id_short != deduplicated(stale)[j].change_id_short,
    decreases stale.len(),
{
    let rest = stale.drop_last();
    let before = deduplicated(rest);
    if j < before.len() {
        law_reports_in_a_row_differ(rest, j);
    } else {
        lemma_last_is_kept(rest);
        assert(rest.last() == stale[stale.len() - 2]);
    }
}

proof fn lemma_last_is_kept(stale: Seq<StalenessView>)
    requires
        stale.len() > 0,
    ensures
        deduplicated(stale).len() > 0,
        deduplicated(stale).last().change_id_short == stale.last().change_id_short,
    decreases stale.len(),
{
    if stale.len() > 1 {
        lemma_last_is_kept(stale.drop_last());
        assert(stale.drop_last().last() == stale[stale.len() - 2]);
    }
}

/// Dropping repeated changes a second time drops nothing.
pub proof fn law_deduplicated_once(stale: Seq<StalenessView>)
    ensures
        deduplicated(deduplicated(stale)) == deduplicated(stale),
{
    let kept = deduplicated(stale);
    assert forall|j: int| 0 < j < kept.len() implies kept[j - 1].change_id_short != (
    #[trigger] kept[j]).change_id_short by {
        law_reports_in_a_row_differ(stale, j);
    }
    lemma_nothing_repeated(kept);
}

proof fn lemma_nothing_repeated(stale: Seq<StalenessView>)
    requires
        forall|j: int|
            0 < j < stale.len() ==> stale[j - 1].change_id_short != (
            #[trigger] stale[j]).change_id_short,
    ensures
        deduplicated(stale) == stale,
    decreases stale.len(),
{
    if stale.len() > 1 {
        let rest = stale.drop_last();
        assert forall|j: int| 0 < j < rest.len() implies rest[j - 1].change_id_short != (
        #[trigger] rest[j]).change_id_short by {
            assert(stale[j] == rest[j]);
        }
        lemma_nothing_repeated(rest);
        assert(stale[stale.len() - 1] == stale.last());
        assert(deduplicated(stale) =~= stale);
    }
}

/// The positions at which no change with the same identifier stands right
/// before.
proof fn lemma_kept_positions(stale: Seq<StalenessView>) -> (at: Seq<int>)
    ensures
        at.len() == deduplicated(stale).len(),
        forall|j: int, k: int| 0 <= j < k < at.len() ==> #[trigger] at[j] < #[trigger] at[k],
        forall|j: int|
            0 <= j < at.len() ==> 0 <= #[trigger] at[j] < stale.len() && deduplicated(stale)[j]
                == stale[at[j]],
        forall|i: int|
            0 <= i < stale.len() ==> (#[trigger] at.contains(i) <==> i == 0 || stale[i
                - 1].change_id_short != stale[i].change_id_short),
    decreases stale.len(),
{
    if stale.len() == 0 {
        Seq::empty()
    } else if stale.len() == 1 {
        let at = seq![0int];
        assert(at[0] == 0);
        at
    } else {
        let rest = stale.drop_last();
        let n = rest.len() as int;
        let before = lemma_kept_positions(rest);
        let repeated = stale[n].change_id_short == stale[n - 1].change_id_short;
        let at = if repeated {
            before
        } else {
            before.push(n)
        };
        assert forall|i: int| 0 <= i < stale.len() implies (#[trigger] at.contains(i) <==> i == 0
            || stale[i - 1].change_id_short != stale[i].change_id_short) by {
            if i < n {
                assert(before.contains(i) <==> i == 0 || rest[i - 1].change_id_short
                    != rest[i].change_id_short);
                if before.contains(i) {
                    let j = choose|j: int| 0 <= j < before.len() && before[j] == i;
                    assert(at[j] == i);
                }
                if at.contains(i) {
                    let j = choose|j: int| 0 <= j < at.len() && at[j] == i;
                    assert(before[j] == i);
                }
            } else if repeated {
                if at.contains(i) {
                    let j = choose|j: int| 0 <= j < at.len() && at[j] == i;
                    assert(before[j] < n);
                }
            } else {
                assert(at[before.len() as int] == n);
            }
        }
        assert forall|j: int| 0 <= j < at.len() implies 0 <= #[trigger] at[j] < stale.len()
            && deduplicated(stale)[j] == stale[at[j]] by {
            if j < before.len() {
                assert(before[j] == at[j]);
                assert(rest[before[j]] == stale[before[j]]);
            }
        }
        at
    }
}

/// Of stale changes in a row with one identifier the first is kept, as it is,
/// and the others are dropped. What is kept stays in order.
pub proof fn law_first_of_a_row_is_kept(stale: Vec<StalenessInfo>, kept: Vec<StalenessInfo>)
    requires
        call_ensures(deduplicate, (stale,), kept),
    ensures
        exists|at: Seq<int>|
            {
                &&& #[trigger] at.len() == kept.len()
                &&& forall|j: int, k: int|
                    0 <= j < k < at.len() ==> #[trigger] at[j] < #[trigger] at[k]
                &&& forall|j: int|
                    0 <= j < at.len() ==> 0 <= #[trigger] at[j] < stale.len()
                        && kept[j].change_id_short@ == stale[at[j]].change_id_short@
                        && kept[j].changed_files.deep_view()
                        == stale[at[j]].changed_files.deep_view()
                &&& forall|i: int|
                    0 <= i < stale.len() ==> (#[trigger] at.contains(i) <==> i == 0 || stale[i
                        - 1].change_id_short@ != stale[i].change_id_short@)
            },
{
    let all = stale.deep_view();
    let at = lemma_kept_positions(all);
    assert(all.len() == stale.len());
    assert(kept.deep_view().len() == kept.len());
    assert forall|j: int| 0 <= j < at.len() implies 0 <= #[trigger] at[j] < stale.len()
        && kept[j].change_id_short@ == stale[at[j]].change_id_short@
        && kept[j].changed_files.deep_view() == stale[at[j]].changed_files.deep_view() by {
        assert(kept.deep_view()[j] == kept[j].deep_view());
        assert(all[at[j]] == stale[at[j]].deep_view());
    }
    assert forall|i: int| 0 <= i < stale.len() implies (#[trigger] at.contains(i) <==> i == 0
        || stale[i - 1].change_id_short@ != stale[i].change_id_short@) by {
        assert(all[i] == stale[i].deep_view());
        if i > 0 {
            assert(all[i - 1] == stale[i - 1].deep_view());
        }
    }
    assert(at.len() == kept.len());
}

/// Where among the verdicts the stale changes stand.
proof fn lemma_stale_positions(verdicts: Seq<Option<StalenessView>>) -> (at: Seq<int>)
    ensures
        at.len() == stale_among(verdicts).len(),
        forall|j: int, k: int| 0 <= j < k < at.len() ==> #[trigger] at[j] < #[trigger] at[k],
        forall|j: int|
            0 <= j < at.len() ==> 0 <= #[trigger] at[j] < verdicts.len() && verdicts[at[j]] == Some(
                stale_among(verdicts)[j],
            ),
        forall|i: int|
            0 <= i < verdicts.len() ==> (#[trigger] at.contains(i) <==> verdicts[i] is Some),
    decreases verdicts.len(),
{
    if verdicts.len() == 0 {
        Seq::empty()
    } else {
        let rest = verdicts.drop_last();
        let n = rest.len() as int;
        let before = lemma_stale_positions(rest);
        let at = if verdicts[n] is Some {
            before.push(n)
        } else {
            before
        };
        assert forall|i: int| 0 <= i < verdicts.len() implies (#[trigger] at.contains(i)
            <==> verdicts[i] is Some) by {
            if i < n {
                assert(before.contains(i) <==> rest[i] is Some);
                if before.contains(i) {
                    let j = choose|j: int| 0 <= j < before.len() && before[j] == i;
                    assert(at[j] == i);
                }
                if at.contains(i) {
                    let j = choose|j: int| 0 <= j < at.len() && at[j] == i;
                    assert(before[j] == i);
                }
            } else if verdicts[n] is Some {
                assert(at[before.len() as int] == n);
            } else if at.contains(i) {
                let j = choose|j: int| 0 <= j < at.len() && at[j] == i;
                assert(before[j] < n);
            }
        }
        assert forall|j: int| 0 <= j < at.len() implies 0 <= #[trigger] at[j] < verdicts.len()
            && verdicts[at[j]] == Some(stale_among(verdicts)[j]) by {
            if j < before.len() {
                assert(before[j] == at[j]);
                assert(rest[before[j]] == verdicts[before[j]]);
            }
        }
        at
    }
}

/// Whether `steps` are those of a run over the candidates that got the verdicts,
/// one after the other: the repository is loaded first, and after each check the
/// verdict on it is taken.
pub open spec fn is_run(
    candidates: Vec<String>,
    stop_mode: bool,
    first: RunStep,
    verdicts: Seq<Option<StalenessInfo>>,
    steps: Seq<RunStep>,
) -> bool {
    &&& call_ensures(begin, (candidates, stop_mode), first)
    &&& first is LoadRepo
    &&& steps.len() == verdicts.len() + 1
    &&& call_ensures(UnloadedRun::repo_loaded, (first->LoadRepo_0,), steps[0])
    &&& forall|i: int|
        0 <= i < verdicts.len() ==> (#[trigger] steps[i]) is Check && call_ensures(
            Run::checked,
            (steps[i]->Check_0, verdicts[i]),
            steps[i + 1],
        )
}

/// What the operations return one after the other, with a verdict for each check
/// that they ask for, are the steps of a run.
pub proof fn law_operations_make_a_run(
    candidates: Vec<String>,
    stop_mode: bool,
    first: RunStep,
    verdicts: Seq<Option<StalenessInfo>>,
    steps: Seq<RunStep>,
)
    requires
        call_ensures(begin, (candidates, stop_mode), first),
        candidates.len() > 0,
        steps.len() == verdicts.len() + 1,
        call_ensures(UnloadedRun::repo_loaded, (first->LoadRepo_0,), steps[0]),
        forall|i: int|
            0 <= i < verdicts.len() ==> (#[trigger] steps[i]) is Check && call_ensures(
                Run::checked,
                (steps[i]->Check_0, verdicts[i]),
                steps[i + 1],
            ),
    ensures
        is_run(candidates, stop_mode, first, verdicts, steps),
{
}

spec fn views(verdicts: Seq<Option<StalenessInfo>>) -> Seq<Option<StalenessView>> {
    verdicts.map_values(|v: Option<StalenessInfo>| v.deep_view())
}

/// The state that a run is in after `n` verdicts.
spec fn state_after(
    candidates: Vec<String>,
    stop_mode: bool,
    verdicts: Seq<Option<StalenessInfo>>,
    n: int,
) -> RunView {
    RunView {
        candidates: candidates.deep_view(),
        checked: n as nat,
        stale: stale_among(views(verdicts).take(n)),
        stop_mode,
    }
}

proof fn lemma_run(
    candidates: Vec<String>,
    stop_mode: bool,
    first: RunStep,
    verdicts: Seq<Option<StalenessInfo>>,
    steps: Seq<RunStep>,
    n: int,
)
    requires
        is_run(candidates, stop_mode, first, verdicts, steps),
        0 <= n <= verdicts.len(),
    ensures
        is_next_step(state_after(candidates, stop_mode, verdicts, n), steps[n]),
        n <= candidates.len(),
    decreases n,
{
    let all = views(verdicts);
    if n == 0 {
        assert(stale_among(all.take(0)) =~= Seq::empty());
    } else {
        lemma_run(candidates, stop_mode, first, verdicts, steps, n - 1);
        let before = state_after(candidates, stop_mode, verdicts, n - 1);
        assert(steps[n - 1] is Check);
        assert(before.checked < before.candidates.len());
        assert(steps[n - 1]->Check_0@ == before);
        assert(all.take(n).drop_last() =~= all.take(n - 1));
        assert(all.take(n).last() == verdicts[n - 1].deep_view());
        assert(after_verdict(before, verdicts[n - 1].deep_view()) == state_after(
            candidates,
            stop_mode,
            verdicts,
            n,
        ));
    }
}

/// A run without candidates ends at once, and any other loads the repository.
pub proof fn law_begin(candidates: Vec<String>, stop_mode: bool, first: RunStep)
    requires
        call_ensures(begin, (candidates, stop_mode), first),
    ensures
        candidates.len() == 0 ==> first is Exit,
        candidates.len() > 0 ==> first is LoadRepo,
{
}

/// As long as there is a candidate without verdict, the next one in turn is
/// checked, by the bytes that it spells, whatever the verdicts were. One that is
/// no commit identifier fails the run, with an error that names it.
pub proof fn law_candidates_are_checked_in_turn(
    candidates: Vec<String>,
    stop_mode: bool,
    first: RunStep,
    verdicts: Seq<Option<StalenessInfo>>,
    steps: Seq<RunStep>,
)
    requires
        is_run(candidates, stop_mode, first, verdicts, steps),
    ensures
        verdicts.len() <= candidates.len(),
        verdicts.len() < candidates.len() ==> {
            let candidate = candidates[verdicts.len() as int]@;
            match decoded_hex(candidate) {
                Some(id) => steps.last() matches RunStep::Check(_, bytes) && bytes@ == id,
                None => steps.last() matches RunStep::Fail(error) && error@
                    == "invalid commit id hex: "@ + candidate,
            }
        },
{
    lemma_run(candidates, stop_mode, first, verdicts, steps, verdicts.len() as int);
    if verdicts.len() < candidates.len() {
        assert(candidates.deep_view()[verdicts.len() as int] == candidates[verdicts.len() as int]@);
    }
}

/// A run that got a verdict on every candidate reports just when some verdict
/// found a change stale, in either mode. Where none did, the count of blocked
/// stops starts afresh in the mode that blocks, and in the other there is nothing
/// to do.
pub proof fn law_run_reports_what_is_stale(
    candidates: Vec<String>,
    stop_mode: bool,
    first: RunStep,
    verdicts: Seq<Option<StalenessInfo>>,
    steps: Seq<RunStep>,
)
    requires
        is_run(candidates, stop_mode, first, verdicts, steps),
        verdicts.len() == candidates.len(),
    ensures
        steps.last() is Report <==> exists|i: int|
            0 <= i < verdicts.len() && (#[trigger] verdicts[i]) is Some,
        steps.last() is ResetRetries <==> stop_mode && forall|i: int|
            0 <= i < verdicts.len() ==> (#[trigger] verdicts[i]) is None,
        steps.last() is Exit <==> !stop_mode && forall|i: int|
            0 <= i < verdicts.len() ==> (#[trigger] verdicts[i]) is None,
{
    let n = verdicts.len() as int;
    let all = views(verdicts);
    lemma_run(candidates, stop_mode, first, verdicts, steps, n);
    assert(all.take(n) =~= all);
    assert(candidates.deep_view().len() == candidates.len());
    let stale = stale_among(all);
    law_report_unless_current(stale);
    let at = lemma_stale_positions(all);
    if stale.len() > 0 {
        assert(all[at[0]] == Some(stale[0]));
        assert(verdicts[at[0]] is Some);
    }
    assert forall|i: int| 0 <= i < n && (#[trigger] verdicts[i]) is Some implies stale.len()
        > 0 by {
        assert(all[i] is Some);
        assert(at.contains(i));
    }
}

/// What a run reports are the stale changes in the order of the candidates, each
/// as its verdict has it. One is left out just when the stale change before it,
/// among the verdicts, has the same identifier.
pub proof fn law_run_reports_in_turn(
    candidates: Vec<String>,
    stop_mode: bool,
    first: RunStep,
    verdicts: Seq<Option<StalenessInfo>>,
    steps: Seq<RunStep>,
)
    requires
        is_run(candidates, stop_mode, first, verdicts, steps),
        verdicts.len() == candidates.len(),
    ensures
        steps.last() matches RunStep::Report(report) ==> exists|at: Seq<int>|
            {
                &&& #[trigger] at.len() == report.len()
                &&& forall|j: int, k: int|
                    0 <= j < k < at.len() ==> #[trigger] at[j] < #[trigger] at[k]
                &&& forall|j: int|
                    0 <= j < at.len() ==> 0 <= #[trigger] at[j] < verdicts.len() && (
                    verdicts[at[j]] matches Some(info) && report[j].change_id_short@
                        == info.change_id_short@ && report[j].changed_files.deep_view()
                        == info.changed_files.deep_view())
                &&& forall|i: int|
                    0 <= i < verdicts.len() ==> (#[trigger] at.contains(i) <==> verdicts[i] is Some
                        && forall|h: int|
                        0 <= h < i && (#[trigger] verdicts[h]) is Some && (forall|m: int|
                            h < m < i ==> (#[trigger] verdicts[m]) is None)
                            ==> verdicts[h]->Some_0.change_id_short@
                            != verdicts[i]->Some_0.change_id_short@)
            },
{
    let n = verdicts.len() as int;
    let all = views(verdicts);
    lemma_run(candidates, stop_mode, first, verdicts, steps, n);
    assert(all.take(n) =~= all);
    assert(candidates.deep_view().len() == candidates.len());
    if let RunStep::Report(report) = steps.last() {
        let stale = stale_among(all);
        let found = lemma_stale_positions(all);
        let kept = lemma_kept_positions(stale);
        let at = Seq::new(kept.len(), |j: int| found[kept[j]]);
        assert(report.deep_view() == deduplicated(stale));
        assert(report.deep_view().len() == report.len());
        assert forall|j: int, k: int| 0 <= j < k < at.len() implies #[trigger] at[j]
            < #[trigger] at[k] by {
            assert(kept[j] < kept[k]);
            assert(found[kept[j]] < found[kept[k]]);
        }
        assert forall|j: int| 0 <= j < at.len() implies 0 <= #[trigger] at[j] < verdicts.len() && (
        verdicts[at[j]] matches Some(info) && report[j].change_id_short@ == info.change_id_short@
            && report[j].changed_files.deep_view() == info.changed_files.deep_view()) by {
            assert(0 <= kept[j] < stale.len());
            assert(all[found[kept[j]]] == Some(stale[kept[j]]));
            assert(report.deep_view()[j] == report[j].deep_view());
            assert(all[at[j]] == verdicts[at[j]].deep_view());
        }
        assert forall|i: int| 0 <= i < verdicts.len() implies (#[trigger] at.contains(i)
            <==> verdicts[i] is Some && forall|h: int|
            0 <= h < i && (#[trigger] verdicts[h]) is Some && (forall|m: int|
                h < m < i ==> (#[trigger] verdicts[m]) is None)
                ==> verdicts[h]->Some_0.change_id_short@
                != verdicts[i]->Some_0.change_id_short@) by {
            assert(found.contains(i) <==> all[i] is Some);
            if verdicts[i] is Some {
                assert(all[i] is Some);
                let x = choose|x: int| 0 <= x < found.len() && found[x] == i;
                lemma_stale_before(verdicts, found, x);
                assert(all[i] == Some(stale[x]));
                assert(kept.contains(x) <==> x == 0 || stale[x - 1].change_id_short
                    != stale[x].change_id_short);
                if kept.contains(x) {
                    let j = choose|j: int| 0 <= j < kept.len() && kept[j] == x;
                    assert(at[j] == i);
                }
                if at.contains(i) {
                    let j = choose|j: int| 0 <= j < at.len() && at[j] == i;
                    assert(found[kept[j]] == i);
                    assert(kept[j] == x) by {
                        if kept[j] < x {
                            assert(found[kept[j]] < found[x]);
                        } else if x < kept[j] {
                            assert(found[x] < found[kept[j]]);
                        }
                    }
                    assert(kept.contains(x));
                }
                if x > 0 {
                    let h = found[x - 1];
                    assert(all[h] == Some(stale[x - 1]));
                    assert(all[h] == verdicts[h].deep_view());
                }
            } else if at.contains(i) {
                let j = choose|j: int| 0 <= j < at.len() && at[j] == i;
                assert(verdicts[at[j]] is Some);
            }
        }
        assert(at.len() == report.len());
    }
}

/// The stale change before the one at `found[x]` is the one at `found[x - 1]`.
proof fn lemma_stale_before(
    verdicts: Seq<Option<StalenessInfo>>,
    found: Seq<int>,
    x: int,
)
    requires
        0 <= x < found.len(),
        forall|j: int, k: int| 0 <= j < k < found.len() ==> #[trigger] found[j] < #[trigger] found[k],
        forall|j: int| 0 <= j < found.len() ==> 0 <= #[trigger] found[j] < verdicts.len(),
        forall|i: int|
            0 <= i < verdicts.len() ==> (#[trigger] found.contains(i) <==> views(verdicts)[i] is Some),
    ensures
        forall|h: int|
            (0 <= h < found[x] && (#[trigger] verdicts[h]) is Some && (forall|m: int|
                h < m < found[x] ==> (#[trigger] verdicts[m]) is None)) <==> x > 0 && h == found[x
                - 1],
{
    assert forall|i: int| 0 <= i < verdicts.len() implies (verdicts[i] is Some
        <==> #[trigger] found.contains(i)) by {
        assert(views(verdicts)[i] == verdicts[i].deep_view());
    }
    assert forall|h: int|
        (0 <= h < found[x] && (#[trigger] verdicts[h]) is Some && (forall|m: int|
            h < m < found[x] ==> (#[trigger] verdicts[m]) is None)) <==> x > 0 && h == found[x
            - 1] by {
        if x > 0 && h == found[x - 1] {
            assert(found.contains(h));
            assert forall|m: int| h < m < found[x] implies (#[trigger] verdicts[m]) is None by {
                if verdicts[m] is Some {
                    assert(found.contains(m));
                    let y = choose|y: int| 0 <= y < found.len() && found[y] == m;
                    if y < x - 1 {
                        assert(found[y] < found[x - 1]);
                    } else if y > x {
                        assert(found[x] < found[y]);
                    }
                }
            }
        }
        if 0 <= h < found[x] && verdicts[h] is Some && (forall|m: int|
            h < m < found[x] ==> (#[trigger] verdicts[m]) is None) {
            assert(found.contains(h));
            let y = choose|y: int| 0 <= y < found.len() && found[y] == h;
            if y >= x {
                if y > x {
                    assert(found[x] < found[y]);
                }
            } else {
                assert(found.contains(found[x - 1]));
                assert(verdicts[found[x - 1]] is Some);
                if y < x - 1 {
                    assert(found[y] < found[x - 1]);
                }
                assert(found[x - 1] < found[x]);
            }
        }
    }
}

/// No stale change goes unreported: its identifier is among those reported.
pub proof fn law_run_mentions_every_stale_change(
    candidates: Vec<String>,
    stop_mode: bool,
    first: RunStep,
    verdicts: Seq<Option<StalenessInfo>>,
    steps: Seq<RunStep>,
    i: int,
)
    requires
        is_run(candidates, stop_mode, first, verdicts, steps),
        verdicts.len() == candidates.len(),
        0 <= i < verdicts.len(),
        verdicts[i] is Some,
    ensures
        steps.last() matches RunStep::Report(report) && exists|j: int|
            0 <= j < report.len() && (#[trigger] report[j]).change_id_short@
                == verdicts[i]->Some_0.change_id_short@,
{
    let n = verdicts.len() as int;
    let all = views(verdicts);
    law_run_reports_what_is_stale(candidates, stop_mode, first, verdicts, steps);
    lemma_run(candidates, stop_mode, first, verdicts, steps, n);
    assert(all.take(n) =~= all);
    assert(candidates.deep_view().len() == candidates.len());
    let stale = stale_among(all);
    let found = lemma_stale_positions(all);
    assert(all[i] == verdicts[i].deep_view());
    assert(found.contains(i));
    let x = choose|x: int| 0 <= x < found.len() && found[x] == i;
    assert(all[i] == Some(stale[x]));
    law_every_stale_change_is_reported(stale, x);
    let kept = deduplicated(stale);
    let j = choose|j: int|
        0 <= j < kept.len() && (#[trigger] kept[j]).change_id_short == stale[x].change_id_short;
    let report = steps.last()->Report_0;
    assert(report.deep_view().len() == report.len());
    assert(report.deep_view()[j] == report[j].deep_view());
    assert(report[j].change_id_short@ == stale[x].change_id_short);
}

/// A verdict moves a run on by one candidate, and adds to the stale changes where
/// it found one. All else stays.
pub proof fn law_after_verdict(run: RunView, verdict: Option<StalenessView>)
    ensures
        after_verdict(run, verdict).candidates == run.candidates,
        after_verdict(run, verdict).stop_mode == run.stop_mode,
        after_verdict(run, verdict).checked == run.checked + 1,
        verdict is None ==> after_verdict(run, verdict).stale == run.stale,
        verdict matches Some(info) ==> {
            let stale = after_verdict(run, verdict).stale;
            &&& stale.len() == run.stale.len() + 1
            &&& stale.drop_last() == run.stale
            &&& stale.last() == info
        },
{
    if let Some(info) = verdict {
        assert(after_verdict(run, verdict).stale.drop_last() =~= run.stale);
    }
}

} // verus!
