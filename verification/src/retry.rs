//! The bound on how often a session is kept from ending.
//!
//! A file for the session holds the number of times that it was. Without it a
//! hook that the descriptions never satisfy would block the session for good.

use crate::text::{decimal, decimal_text, parse_u32, parsed_u32, trim, trimmed};
use vstd::prelude::*;

verus! {

/// How often the end of a session is blocked before the hook gives up.
pub const MAX_STOP_RETRIES: u32 = 3;

/// The exit code that blocks the end of a session.
pub const BLOCK_EXIT_CODE: i32 = 2;

/// The name of the file for a session of the program `agent`, which runs the
/// hook. Sessions without an identifier share one.
pub open spec fn retry_file_text(agent: Seq<char>, session_id: Option<Seq<char>>) -> Seq<char> {
    agent + "-stale-desc-retries-"@ + match session_id {
        Some(id) => id,
        None => "unknown"@,
    }
}

/// The name of the file for a session.
pub fn retry_file_name(agent: &str, session_id: &Option<String>) -> (name: String)
    ensures
        name@ == retry_file_text(agent@, session_id.deep_view()),
{
    let mut name: String = agent.to_owned();
    name.append("-stale-desc-retries-");
    match session_id {
        Some(id) => name.append(id.as_str()),
        None => name.append("unknown"),
    }
    name
}

/// How often the session was blocked so far, by what its file holds. A file
/// that is missing, or holds no number, counts as 0.
pub open spec fn retries(record: Option<Seq<char>>) -> u32 {
    match record {
        Some(text) => match parsed_u32(trimmed(text)) {
            Some(n) => n,
            None => 0,
        },
        None => 0,
    }
}

/// How often the session was blocked so far.
pub fn read_retries(record: &Option<String>) -> (n: u32)
    ensures
        n == retries(record.deep_view()),
{
    match record {
        Some(text) => match parse_u32(trim(text.as_str())) {
            Some(n) => n,
            None => 0,
        },
        None => 0,
    }
}

/// What to do about a session that is about to end with stale descriptions.
#[derive(Debug, PartialEq, Eq)]
pub enum StopDecision {
    /// Let it end.
    GiveUp,
    /// Write `record` to the session's file, say what is stale, and exit with
    /// `exit_code`.
    Block { record: String, exit_code: i32 },
}

/// Decides whether to block, by what the session's file holds.
pub fn emit_stop(record: &Option<String>) -> (decision: StopDecision)
    ensures
        decision is GiveUp <==> retries(record.deep_view()) >= MAX_STOP_RETRIES,
        decision matches StopDecision::Block { record: text, exit_code } ==> {
            &&& text@ == decimal_text((retries(record.deep_view()) + 1) as nat)
            &&& exit_code == BLOCK_EXIT_CODE
        },
{
    let n = read_retries(record);
    if n >= MAX_STOP_RETRIES {
        StopDecision::GiveUp
    } else {
        StopDecision::Block { record: decimal(n + 1), exit_code: BLOCK_EXIT_CODE }
    }
}

/// What the session's file holds after a stop, given what it held before.
pub open spec fn record_after_stop(record: Option<Seq<char>>) -> Option<Seq<char>> {
    if retries(record) >= MAX_STOP_RETRIES {
        record
    } else {
        Some(decimal_text((retries(record) + 1) as nat))
    }
}

/// What the session's file holds after `n` stops.
pub open spec fn record_after_stops(record: Option<Seq<char>>, n: nat) -> Option<Seq<char>>
    decreases n,
{
    if n == 0 {
        record
    } else {
        record_after_stop(record_after_stops(record, (n - 1) as nat))
    }
}

/// The number that a block wrote down is the number that the next stop reads.
pub proof fn law_record_reads_back(n: u32)
    ensures
        retries(Some(decimal_text(n as nat))) == n,
{
    crate::text::law_decimal_round_trip(n);
    crate::text::law_decimal_is_trimmed(n as nat);
}

/// Of the stops in a row from a fresh start the first [`MAX_STOP_RETRIES`] are
/// blocked, and none after them.
pub proof fn law_retries_are_bounded(n: nat)
    ensures
        retries(record_after_stops(None, n)) == if n < MAX_STOP_RETRIES {
            n
        } else {
            MAX_STOP_RETRIES as nat
        },
    decreases n,
{
    if n > 0 {
        law_retries_are_bounded((n - 1) as nat);
        let before = record_after_stops(None, (n - 1) as nat);
        if retries(before) < MAX_STOP_RETRIES {
            law_record_reads_back((retries(before) + 1) as u32);
        }
    }
}

/// Whatever the session's file held at first, the stops after the first
/// [`MAX_STOP_RETRIES`] are let through.
pub proof fn law_stop_gives_up(record: Option<Seq<char>>, n: nat)
    requires
        n >= MAX_STOP_RETRIES,
    ensures
        retries(record_after_stops(record, n)) >= MAX_STOP_RETRIES,
{
    lemma_retries_grow(record, n);
}

proof fn lemma_retries_grow(record: Option<Seq<char>>, n: nat)
    ensures
        retries(record_after_stops(record, n)) >= MAX_STOP_RETRIES || retries(
            record_after_stops(record, n),
        ) == retries(record) + n,
    decreases n,
{
    if n > 0 {
        lemma_retries_grow(record, (n - 1) as nat);
        let before = record_after_stops(record, (n - 1) as nat);
        if retries(before) < MAX_STOP_RETRIES {
            law_record_reads_back((retries(before) + 1) as u32);
        }
    }
}

/// Once the session's file is removed, the hook blocks again.
pub proof fn law_reset_rearms()
    ensures
        retries(None) < MAX_STOP_RETRIES,
{
}

/// A session's file is named after the agent and the session, and sessions
/// without an identifier share the file of one called `unknown`.
pub proof fn law_retry_file_name(agent: &str, session_id: Option<String>, name: String)
    requires
        call_ensures(retry_file_name, (agent, &session_id), name),
    ensures
        session_id matches Some(id) ==> name@ == agent@ + "-stale-desc-retries-"@ + id@,
        session_id is None ==> name@ == agent@ + "-stale-desc-retries-"@ + "unknown"@,
{
}

/// Two sessions of one agent do not share a file.
pub proof fn law_sessions_have_their_own_files(
    agent: &str,
    a: String,
    name_a: String,
    b: String,
    name_b: String,
)
    requires
        call_ensures(retry_file_name, (agent, &Some(a)), name_a),
        call_ensures(retry_file_name, (agent, &Some(b)), name_b),
        name_a@ == name_b@,
    ensures
        a@ == b@,
{
    let n = (agent@ + "-stale-desc-retries-"@).len() as int;
    assert(name_a@.skip(n) =~= a@);
    assert(name_b@.skip(n) =~= b@);
}

/// The number of times that a session was blocked is the number that its file
/// holds, white space around it aside, and 0 where it holds none or is missing.
pub proof fn law_record_is_the_number_in_it(
    record: Option<String>,
    n: u32,
    s: &str,
    t: &str,
    number: Option<u32>,
)
    requires
        call_ensures(read_retries, (&record,), n),
        record matches Some(text) ==> s@ == text@,
        call_ensures(trim, (s,), t),
        call_ensures(parse_u32, (t,), number),
    ensures
        record is None ==> n == 0,
        record is Some && number is None ==> n == 0,
        record is Some && number is Some ==> n == number->Some_0,
{
}

/// The end of a session is blocked just when it was blocked less than three
/// times. What is then written to its file counts one time more, and the exit
/// code is 2.
pub proof fn law_stop_decision(
    record: Option<String>,
    n: u32,
    decision: StopDecision,
    next: Option<String>,
    m: u32,
)
    requires
        call_ensures(read_retries, (&record,), n),
        call_ensures(emit_stop, (&record,), decision),
        decision matches StopDecision::Block { record: text, .. } ==> next == Some(text),
        call_ensures(read_retries, (&next,), m),
    ensures
        decision is Block <==> n < 3,
        decision matches StopDecision::Block { exit_code, .. } ==> exit_code == 2 && m == n + 1,
{
    if n < 3 {
        law_record_reads_back((n + 1) as u32);
    }
}

/// What is written to a session's file is the number in decimal, and nothing
/// else.
pub proof fn law_record_is_decimal(
    record: Option<String>,
    n: u32,
    decision: StopDecision,
    text: String,
)
    requires
        call_ensures(read_retries, (&record,), n),
        call_ensures(emit_stop, (&record,), decision),
        n < 3,
        call_ensures(decimal, ((n + 1) as u32,), text),
    ensures
        decision matches StopDecision::Block { record: written, .. } && written@ == text@,
{
}

/// Of the stops one after the other, each with what the one before it left in
/// the session's file, none is blocked after the third. From a fresh start the
/// first three are.
pub proof fn law_three_stops_are_blocked(
    records: Seq<Option<String>>,
    decisions: Seq<StopDecision>,
    i: int,
)
    requires
        0 <= i < decisions.len(),
        records.len() == decisions.len(),
        forall|j: int|
            0 <= j < records.len() ==> call_ensures(
                emit_stop,
                (&#[trigger] records[j],),
                decisions[j],
            ),
        forall|j: int|
            0 <= j && j + 1 < records.len() ==> #[trigger] records[j + 1] == match decisions[j] {
                StopDecision::Block { record, .. } => Some(record),
                StopDecision::GiveUp => records[j],
            },
    ensures
        i >= 3 ==> decisions[i] is GiveUp,
        records[0] is None ==> (decisions[i] is Block <==> i < 3),
{
    lemma_stops(records, decisions, i);
}

proof fn lemma_stops(records: Seq<Option<String>>, decisions: Seq<StopDecision>, i: int)
    requires
        0 <= i < decisions.len(),
        records.len() == decisions.len(),
        forall|j: int|
            0 <= j < records.len() ==> call_ensures(
                emit_stop,
                (&#[trigger] records[j],),
                decisions[j],
            ),
        forall|j: int|
            0 <= j && j + 1 < records.len() ==> #[trigger] records[j + 1] == match decisions[j] {
                StopDecision::Block { record, .. } => Some(record),
                StopDecision::GiveUp => records[j],
            },
    ensures
        ({
            let n = retries(records[i].deep_view());
            n >= MAX_STOP_RETRIES || n == retries(records[0].deep_view()) + i
        }),
        i < MAX_STOP_RETRIES && records[0] is None ==> retries(records[i].deep_view()) == i,
        decisions[i] is GiveUp <==> retries(records[i].deep_view()) >= MAX_STOP_RETRIES,
    decreases i,
{
    assert(call_ensures(emit_stop, (&records[i],), decisions[i]));
    if i > 0 {
        lemma_stops(records, decisions, i - 1);
        assert(records[i - 1 + 1] == match decisions[i - 1] {
            StopDecision::Block { record, .. } => Some(record),
            StopDecision::GiveUp => records[i - 1],
        });
        assert(call_ensures(emit_stop, (&records[i - 1],), decisions[i - 1]));
        let before = retries(records[i - 1].deep_view());
        if before < MAX_STOP_RETRIES {
            law_record_reads_back((before + 1) as u32);
        }
    }
}

} // verus!
