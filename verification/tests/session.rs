//! Runs of the hook: candidates, messages, and the bound on blocking.

use active_descriptions::command::{
    discover_workspace_root, gather_candidates, resolve_repo_path, stop_mode_requested,
    CommandOutput, RootError,
};
use active_descriptions::hook::{begin, deduplicate, RunStep};
use active_descriptions::path::RepoPath;
use active_descriptions::report::{
    emit_output, format_single_staleness, format_staleness_message, spill_request, Output,
    STALENESS_SPILL_THRESHOLD,
};
use active_descriptions::retry::{emit_stop, read_retries, retry_file_name, StopDecision};
use active_descriptions::staleness::StalenessInfo;
use active_descriptions::text::{decimal, is_white_space, non_blank_lines, parse_u32, trim};

fn info(id: &str, files: &[&str]) -> StalenessInfo {
    StalenessInfo {
        change_id_short: id.to_owned(),
        changed_files: files
            .iter()
            .map(|f| RepoPath::from_internal_string((*f).to_owned()).expect("valid path"))
            .collect(),
    }
}

fn output(success: bool, stdout: &[u8]) -> CommandOutput {
    CommandOutput {
        success,
        stdout: stdout.to_vec(),
    }
}

#[test]
fn white_space_is_what_unicode_says() {
    for c in '\0'..=char::MAX {
        assert_eq!(is_white_space(c), c.is_whitespace(), "{:?}", c);
    }
}

#[test]
fn trim_takes_white_space_from_both_ends() {
    for s in [
        "",
        " ",
        "\t \r\n",
        "a",
        " a b ",
        "\u{3000}x\u{85}\n",
        "\u{e9} ",
        " \u{200b} ",
    ] {
        assert_eq!(trim(s), s.trim());
        assert_eq!(trim(trim(s)), trim(s));
    }
}

#[test]
fn lines_that_are_not_blank() {
    assert_eq!(non_blank_lines("a\n\n b \r\nc"), vec!["a", "b", "c"]);
    assert_eq!(non_blank_lines("a\rb\n"), vec!["a\rb"]);
    assert_eq!(non_blank_lines("\u{e9}\n\u{4e2d}\u{6587}\n"), vec!["\u{e9}", "\u{4e2d}\u{6587}"]);
    assert!(non_blank_lines("").is_empty());
    assert!(non_blank_lines(" \n\t\n").is_empty());
}

#[test]
fn numbers_are_read_as_std_reads_them() {
    for s in [
        "0",
        "7",
        "+7",
        "007",
        "4294967295",
        "4294967296",
        "99999999999999999999",
        "00000000000000000001",
        "",
        "+",
        "-1",
        "-0",
        "++1",
        "1 ",
        " 1",
        "1a",
        "\u{663}",
        "0x1",
    ] {
        assert_eq!(parse_u32(s), s.parse::<u32>().ok(), "{}", s);
    }
}

#[test]
fn numbers_read_back() {
    for n in [0u32, 1, 9, 10, 19, 100, 4294967295] {
        assert_eq!(decimal(n), n.to_string());
        assert_eq!(parse_u32(&decimal(n)), Some(n));
        assert_eq!(read_retries(&Some(decimal(n))), n);
    }
}

#[test]
fn stop_mode_is_asked_for_by_the_first_argument() {
    assert!(stop_mode_requested(&Some("--stop".to_owned())));
    assert!(!stop_mode_requested(&Some("--stop ".to_owned())));
    assert!(!stop_mode_requested(&Some("stop".to_owned())));
    assert!(!stop_mode_requested(&None));
}

#[test]
fn candidates_are_the_lines_of_a_log() {
    let log = output(true, b"abcd\n ef01 \n\n2345\r\n");
    assert_eq!(gather_candidates(&Some(log)), vec!["abcd", "ef01", "2345"]);
    let log = output(true, b"ab\xffcd\n");
    assert_eq!(gather_candidates(&Some(log)), vec!["ab\u{fffd}cd"]);
}

#[test]
fn failed_log_gives_no_candidates() {
    assert!(gather_candidates(&Some(output(false, b"abcd\n"))).is_empty());
    assert!(gather_candidates(&None).is_empty());
    assert!(gather_candidates(&Some(output(true, b""))).is_empty());
}

#[test]
fn workspace_root_is_what_jj_prints() {
    assert_eq!(
        discover_workspace_root(output(true, b"/home/me/my repo\n")),
        Ok("/home/me/my repo".to_owned())
    );
    assert_eq!(
        discover_workspace_root(output(true, "/\u{e9}\n".as_bytes())),
        Ok("/\u{e9}".to_owned())
    );
    assert_eq!(
        discover_workspace_root(output(false, b"/x\n")),
        Err(RootError::NotARepo)
    );
    assert_eq!(
        discover_workspace_root(output(false, b"\xff")),
        Err(RootError::NotARepo)
    );
    assert_eq!(
        discover_workspace_root(output(true, b"/\xff\n")),
        Err(RootError::NotUtf8)
    );
}

#[test]
fn repository_of_a_secondary_workspace_is_elsewhere() {
    assert_eq!(resolve_repo_path("/w/.jj/repo", &None), "/w/.jj/repo");
    assert_eq!(
        resolve_repo_path("/w/.jj/repo", &Some("/main/.jj/repo\n".to_owned())),
        "/main/.jj/repo"
    );
}

#[test]
fn neighbours_with_one_identifier_are_reported_once() {
    let kept = deduplicate(vec![
        info("a", &["first"]),
        info("a", &["second"]),
        info("b", &[]),
        info("a", &["third"]),
        info("a", &[]),
        info("a", &[]),
    ]);
    assert_eq!(
        kept,
        vec![info("a", &["first"]), info("b", &[]), info("a", &["third"])]
    );
    assert_eq!(
        deduplicate(kept),
        vec![info("a", &["first"]), info("b", &[]), info("a", &["third"])]
    );
    assert!(deduplicate(vec![]).is_empty());
}

fn run(candidates: &[&str], stop_mode: bool) -> RunStep {
    begin(
        candidates.iter().map(|c| (*c).to_owned()).collect(),
        stop_mode,
    )
}

fn loaded(candidates: &[&str], stop_mode: bool) -> RunStep {
    match run(candidates, stop_mode) {
        RunStep::LoadRepo(run) => run.repo_loaded(),
        _ => panic!("the repository is needed"),
    }
}

/// Answers every check with the verdicts in turn.
fn drive(mut step: RunStep, verdicts: Vec<Option<StalenessInfo>>) -> (RunStep, Vec<Vec<u8>>) {
    let mut asked = Vec::new();
    for verdict in verdicts {
        step = match step {
            RunStep::Check(run, id) => {
                asked.push(id);
                run.checked(verdict)
            }
            _ => panic!("a commit is to be checked"),
        };
    }
    (step, asked)
}

#[test]
fn run_without_candidates_ends_at_once() {
    assert!(matches!(run(&[], false), RunStep::Exit));
    assert!(matches!(run(&[], true), RunStep::Exit));
}

#[test]
fn run_checks_each_candidate_and_reports() {
    let (step, asked) = drive(
        loaded(&["00ff", "ABcd", "10"], false),
        vec![Some(info("x", &["f"])), None, Some(info("x", &[]))],
    );
    assert_eq!(asked, vec![vec![0x00, 0xff], vec![0xab, 0xcd], vec![0x10]]);
    match step {
        RunStep::Report(stale) => assert_eq!(stale, vec![info("x", &["f"])]),
        _ => panic!("something is stale"),
    }
}

#[test]
fn run_with_nothing_stale_resets_in_stop_mode() {
    let (step, _) = drive(loaded(&["00"], true), vec![None]);
    assert!(matches!(step, RunStep::ResetRetries));
    let (step, _) = drive(loaded(&["00"], false), vec![None]);
    assert!(matches!(step, RunStep::Exit));
}

#[test]
fn run_fails_at_a_candidate_that_is_no_identifier() {
    for bad in ["xyz0", "abc", "0g", "\u{e9}", "0x"] {
        let (step, asked) = drive(
            loaded(&["00", bad, "11"], true),
            vec![Some(info("a", &[]))],
        );
        assert_eq!(asked, vec![vec![0x00]]);
        match step {
            RunStep::Fail(error) => {
                assert_eq!(error, format!("invalid commit id hex: {}", bad))
            }
            _ => panic!("the candidate is bad"),
        }
    }
}

#[test]
fn detail_names_the_files() {
    assert_eq!(
        format_single_staleness(&info("zyxw", &[])),
        "Stale description: change zyxw modified since last described."
    );
    assert_eq!(
        format_single_staleness(&info("zyxw", &["a.txt"])),
        "Stale description: change zyxw modified since last described.\n  Changed: a.txt"
    );
    assert_eq!(
        format_single_staleness(&info("zyxw", &["a.txt", "b/c", "d"])),
        "Stale description: change zyxw modified since last described.\n  Changed: a.txt, b/c, d"
    );
}

/// A stale change whose detail has just this many bytes.
fn info_of_length(bytes: usize, letter: &str) -> StalenessInfo {
    let head = format_single_staleness(&info("zyxw", &["x"])).len() - 1;
    assert_eq!((bytes - head) % letter.len(), 0);
    let name = letter.repeat((bytes - head) / letter.len());
    info("zyxw", &[name.as_str()])
}

#[test]
fn detail_is_spilled_above_the_threshold() {
    assert_eq!(STALENESS_SPILL_THRESHOLD, 512);
    assert_eq!(spill_request(&info_of_length(512, "x")), None);
    let long = info_of_length(513, "x");
    let request = spill_request(&long).expect("too long");
    assert_eq!(request.prefix, "stale-desc-zyxw-");
    assert_eq!(request.suffix, ".txt");
    assert_eq!(request.contents, format_single_staleness(&long));
    assert_eq!(request.contents.len(), 513);
}

#[test]
fn threshold_counts_bytes() {
    let head = format_single_staleness(&info("zyxw", &["x"])).len() - 1;
    let fits = 512 - (512 - head) % 2;
    assert_eq!(spill_request(&info_of_length(fits, "\u{e9}")), None);
    let long = info_of_length(fits + 2, "\u{e9}");
    let request = spill_request(&long).expect("too long");
    assert!(request.contents.chars().count() < 512);
}

#[test]
fn message_has_a_part_for_each_change() {
    assert_eq!(format_staleness_message(&vec![], &vec![]), "");
    assert_eq!(
        format_staleness_message(&vec![info("a", &["f"]), info("b", &[])], &vec![]),
        "Stale description: change a modified since last described.\n  Changed: f\n\
         Stale description: change b modified since last described."
    );
}

#[test]
fn message_points_to_spilled_details() {
    let long = info_of_length(513, "x");
    let stale = vec![info("a", &[]), long];
    let detail = format_single_staleness(&stale[1]);
    let path = Some("/tmp/stale-desc-zyxw-1.txt".to_owned());
    assert_eq!(
        format_staleness_message(&stale, &vec![None, path]),
        "Stale description: change a modified since last described.\n\
         Stale description: change zyxw modified since last described \
         (full detail: /tmp/stale-desc-zyxw-1.txt)"
    );
    // A detail that could not be written stays in the message.
    for spilled in [vec![], vec![None, None]] {
        assert_eq!(
            format_staleness_message(&stale, &spilled),
            format!(
                "Stale description: change a modified since last described.\n{}",
                detail
            )
        );
    }
    // A short detail stays there in any case.
    assert_eq!(
        format_staleness_message(&vec![info("a", &[])], &vec![Some("/tmp/x".to_owned())]),
        "Stale description: change a modified since last described."
    );
}

#[test]
fn stop_message_says_what_to_do() {
    assert_eq!(
        emit_output("m", true),
        Output::Stop(
            "m\n\nYou MUST update all stale descriptions before stopping. Ensure the \
             active-descriptions:describe skill is loaded, then follow it for each stale change."
                .to_owned()
        )
    );
}

#[test]
fn advice_is_json() {
    assert_eq!(
        emit_output("a\n  b", false),
        Output::Advisory(
            "{\"hookSpecificOutput\":{\"additionalContext\":\"a\\n  b\"}}".to_owned()
        )
    );
}

#[test]
fn advice_escapes_what_json_asks_for() {
    let json = match emit_output("\"\\\u{8}\t\u{c}\r\u{0}\u{b}\u{1f}/\u{7f}\u{e9}\u{2028}", false) {
        Output::Advisory(json) => json,
        Output::Stop(_) => panic!("no stop"),
    };
    assert_eq!(
        json,
        "{\"hookSpecificOutput\":{\"additionalContext\":\
         \"\\\"\\\\\\b\\t\\f\\r\\u0000\\u000b\\u001f/\u{7f}\u{e9}\u{2028}\"}}"
    );
}

#[test]
fn advice_reads_back_and_takes_one_line() {
    let mut message = String::new();
    for n in 0u32..0x300 {
        message.extend(char::from_u32(n));
    }
    let json = match emit_output(&message, false) {
        Output::Advisory(json) => json,
        Output::Stop(_) => panic!("no stop"),
    };
    assert!(!json.contains('\n'));
    let value: serde_json::Value = serde_json::from_str(&json).expect("valid JSON");
    assert_eq!(
        value["hookSpecificOutput"]["additionalContext"].as_str(),
        Some(message.as_str())
    );
}

#[test]
fn retry_file_is_named_after_the_session() {
    assert_eq!(
        retry_file_name("agent", &Some("s-1".to_owned())),
        "agent-stale-desc-retries-s-1"
    );
    assert_eq!(
        retry_file_name("agent", &None),
        "agent-stale-desc-retries-unknown"
    );
}

#[test]
fn retries_are_read_from_the_record() {
    assert_eq!(read_retries(&None), 0);
    assert_eq!(read_retries(&Some("2\n".to_owned())), 2);
    assert_eq!(read_retries(&Some(" +1 ".to_owned())), 1);
    for garbage in ["", "x", "-1", "1.5", "4294967296"] {
        assert_eq!(read_retries(&Some(garbage.to_owned())), 0);
    }
}

#[test]
fn stop_blocks_three_times_and_gives_up() {
    let mut record: Option<String> = None;
    for n in 1..=3 {
        let next = match emit_stop(&record) {
            StopDecision::Block { record, exit_code } => {
                assert_eq!(exit_code, 2);
                record
            }
            StopDecision::GiveUp => panic!("blocks three times"),
        };
        assert_eq!(next, n.to_string());
        record = Some(next);
    }
    for _ in 0..3 {
        assert_eq!(emit_stop(&record), StopDecision::GiveUp);
    }
    assert_eq!(
        emit_stop(&Some("4294967295".to_owned())),
        StopDecision::GiveUp
    );
    // With the record gone it blocks again.
    assert_ne!(emit_stop(&None), StopDecision::GiveUp);
}
