//! What the command line and the output of `jj` say.

use crate::text::{
    lines, lossy_text, non_blank_lines, text_from_utf8, text_from_utf8_lossy, trim, trimmed,
    trimmed_non_blank,
};
use vstd::prelude::*;
use vstd::utf8::{decode_utf8, valid_utf8};

verus! {

/// Whether the first argument asks for the hook that blocks.
pub fn stop_mode_requested(first_argument: &Option<String>) -> (stop: bool)
    ensures
        stop == (first_argument.deep_view() == Some("--stop"@)),
{
    match first_argument {
        Some(argument) => *argument == "--stop".to_owned(),
        None => false,
    }
}

/// What a command left behind.
#[derive(Debug, PartialEq, Eq)]
pub struct CommandOutput {
    pub success: bool,
    pub stdout: Vec<u8>,
}

/// The commits to check, from what `jj log` printed: an identifier on each line.
/// Where the command failed, or could not be run, there are none.
pub fn gather_candidates(output: &Option<CommandOutput>) -> (candidates: Vec<String>)
    ensures
        candidates.deep_view() == match output {
            Some(o) if o.success => trimmed_non_blank(lines(lossy_text(o.stdout@))),
            _ => Seq::empty(),
        },
        output matches Some(o) ==> (o.success && valid_utf8(o.stdout@) ==> candidates.deep_view()
            == trimmed_non_blank(lines(decode_utf8(o.stdout@)))),
{
    match output {
        Some(o) if o.success => {
            let text = text_from_utf8_lossy(&o.stdout);
            non_blank_lines(text.as_str())
        },
        _ => {
            let none: Vec<String> = Vec::new();
            assert(none.deep_view() =~= Seq::empty());
            none
        },
    }
}

/// Why the root of the workspace is not known.
#[derive(Clone, Copy, Debug, PartialEq, Eq)]
pub enum RootError {
    /// `jj root` failed: there is no repository here.
    NotARepo,
    /// What it printed is no UTF-8.
    NotUtf8,
}

/// The root of the workspace, from what `jj root` printed.
pub fn discover_workspace_root(output: CommandOutput) -> (root: Result<String, RootError>)
    ensures
        root == Err::<String, RootError>(RootError::NotARepo) <==> !output.success,
        root == Err::<String, RootError>(RootError::NotUtf8) <==> output.success && !valid_utf8(
            output.stdout@,
        ),
        root matches Ok(text) ==> text@ == trimmed(decode_utf8(output.stdout@)),
{
    if !output.success {
        return Err(RootError::NotARepo);
    }
    match text_from_utf8(output.stdout) {
        Some(text) => Ok(trim(text.as_str()).to_owned()),
        None => Err(RootError::NotUtf8),
    }
}

/// The repository's directory. `path` is where the workspace has it; in a
/// secondary workspace a file stands there, and `pointer` is what it holds: the
/// path of the primary workspace's repository.
pub fn resolve_repo_path(path: &str, pointer: &Option<String>) -> (repo: String)
    ensures
        repo@ == match pointer.deep_view() {
            Some(target) => trimmed(target),
            None => path@,
        },
{
    match pointer {
        Some(target) => trim(target.as_str()).to_owned(),
        None => path.to_owned(),
    }
}

/// The hook that blocks runs just when the first argument is `--stop`, letter
/// for letter.
pub proof fn law_stop_mode(first_argument: Option<String>, stop: bool)
    requires
        call_ensures(stop_mode_requested, (&first_argument,), stop),
    ensures
        stop <==> first_argument is Some && first_argument->Some_0@ == seq![
            '-',
            '-',
            's',
            't',
            'o',
            'p',
        ],
{
    reveal_strlit("--stop");
    assert("--stop"@ =~= seq!['-', '-', 's', 't', 'o', 'p']);
}

/// The commits to check are the lines that a log printed, without the blank ones
/// and without white space around them: all of them, in turn. A log that failed,
/// or was not run, gives none.
pub proof fn law_candidates(
    output: Option<CommandOutput>,
    candidates: Vec<String>,
    text: &str,
    kept: Vec<String>,
)
    requires
        call_ensures(gather_candidates, (&output,), candidates),
        output matches Some(o) ==> text@ == if valid_utf8(o.stdout@) {
            decode_utf8(o.stdout@)
        } else {
            lossy_text(o.stdout@)
        },
        call_ensures(non_blank_lines, (text,), kept),
    ensures
        output is None ==> candidates.len() == 0,
        output matches Some(o) ==> {
            &&& !o.success ==> candidates.len() == 0
            &&& o.success ==> candidates.deep_view() == kept.deep_view()
        },
{
    assert(candidates.deep_view().len() == candidates.len());
}

/// The root of the workspace is what was printed, where it is UTF-8, without the
/// white space around it.
pub proof fn law_workspace_root(
    output: CommandOutput,
    root: Result<String, RootError>,
    text: &str,
    t: &str,
)
    requires
        call_ensures(discover_workspace_root, (output,), root),
        valid_utf8(output.stdout@) ==> text@ == decode_utf8(output.stdout@),
        call_ensures(trim, (text,), t),
    ensures
        !output.success ==> root == Err::<String, RootError>(RootError::NotARepo),
        output.success && !valid_utf8(output.stdout@) ==> root == Err::<String, RootError>(
            RootError::NotUtf8,
        ),
        output.success && valid_utf8(output.stdout@) ==> (root matches Ok(r) && r@ == t@),
{
    if let Err(error) = root {
        match error {
            RootError::NotARepo => assert(root == Err::<String, RootError>(RootError::NotARepo)),
            RootError::NotUtf8 => assert(root == Err::<String, RootError>(RootError::NotUtf8)),
        }
    }
}

/// The repository is where the workspace has it or, in a secondary workspace,
/// where the pointer says, without the white space around that.
pub proof fn law_repo_path(
    path: &str,
    pointer: Option<String>,
    repo: String,
    text: &str,
    t: &str,
)
    requires
        call_ensures(resolve_repo_path, (path, &pointer), repo),
        pointer matches Some(target) ==> text@ == target@,
        call_ensures(trim, (text,), t),
    ensures
        pointer is None ==> repo@ == path@,
        pointer is Some ==> repo@ == t@,
{
}

} // verus!
