//! What is said about stale descriptions, and in which form.

use crate::json::{nested_object, object_text, string_text};
use crate::staleness::{StalenessInfo, StalenessView};
use crate::text::joined;
use vstd::prelude::*;
use vstd::utf8::encode_utf8;

verus! {

/// The length in bytes above which the detail on a change goes to a file, and
/// only the file's path into the message.
pub const STALENESS_SPILL_THRESHOLD: usize = 512;

/// The detail on one change: its identifier and, where there are any, the files
/// that changed.
pub open spec fn detail_text(info: StalenessView) -> Seq<char> {
    let head = "Stale description: change "@ + info.change_id_short
        + " modified since last described."@;
    if info.changed_files.len() == 0 {
        head
    } else {
        head + "\n  Changed: "@ + joined(info.changed_files, ", "@)
    }
}

/// Formats the detail on one change.
pub fn format_single_staleness(info: &StalenessInfo) -> (text: String)
    ensures
        text@ == detail_text(info.deep_view()),
{
    let mut text: String = "Stale description: change ".to_owned();
    text.append(info.change_id_short.as_str());
    text.append(" modified since last described.");
    let ghost head = text@;
    let ghost files = info.changed_files.deep_view();
    if info.changed_files.len() > 0 {
        text.append("\n  Changed: ");
        let ghost start = text@;
        for i in 0..info.changed_files.len()
            invariant
                files == info.changed_files.deep_view(),
                text@ =~= start + joined(files.take(i as int), ", "@),
        {
            assert(files.take(i + 1).drop_last() =~= files.take(i as int));
            if i > 0 {
                text.append(", ");
            }
            text.append(info.changed_files[i].as_internal_file_string());
        }
        assert(files.take(files.len() as int) =~= files);
    }
    text
}

/// Whether the detail on a change is too long for the message.
pub open spec fn is_spilled(info: StalenessView) -> bool {
    encode_utf8(detail_text(info)).len() > STALENESS_SPILL_THRESHOLD
}

/// A file to be written for the detail on a change. Its name starts with
/// `prefix` and ends with `suffix`, and is unique.
#[derive(Debug, PartialEq, Eq)]
pub struct SpillRequest {
    pub prefix: String,
    pub suffix: String,
    pub contents: String,
}

/// The file to be written for a change, where its detail is too long for the
/// message.
pub fn spill_request(info: &StalenessInfo) -> (request: Option<SpillRequest>)
    ensures
        request is Some <==> is_spilled(info.deep_view()),
        request matches Some(r) ==> {
            &&& r.prefix@ == "stale-desc-"@ + info.change_id_short@ + "-"@
            &&& r.suffix@ == ".txt"@
            &&& r.contents@ == detail_text(info.deep_view())
        },
{
    let contents = format_single_staleness(info);
    if contents.as_str().as_bytes().len() <= STALENESS_SPILL_THRESHOLD {
        return None;
    }
    let mut prefix: String = "stale-desc-".to_owned();
    prefix.append(info.change_id_short.as_str());
    prefix.append("-");
    Some(SpillRequest { prefix, suffix: ".txt".to_owned(), contents })
}

/// What the message says about a change. Where its detail is too long, and was
/// written to the file `spilled`, the message points there.
pub open spec fn change_text(info: StalenessView, spilled: Option<Seq<char>>) -> Seq<char> {
    match spilled {
        Some(path) if is_spilled(info) => "Stale description: change "@ + info.change_id_short
            + " modified since last described (full detail: "@ + path + ")"@,
        _ => detail_text(info),
    }
}

/// What the message says about each change. `spilled` holds, for each change in
/// turn, the file that its detail was written to, if it was.
pub open spec fn change_texts(
    stale: Seq<StalenessView>,
    spilled: Seq<Option<Seq<char>>>,
) -> Seq<Seq<char>> {
    Seq::new(
        stale.len(),
        |i: int|
            change_text(
                stale[i],
                if i < spilled.len() {
                    spilled[i]
                } else {
                    None
                },
            ),
    )
}

/// The message about all stale changes.
pub open spec fn message_text(
    stale: Seq<StalenessView>,
    spilled: Seq<Option<Seq<char>>>,
) -> Seq<char> {
    joined(change_texts(stale, spilled), "\n"@)
}

/// Adds what the message says about a change to `message`.
fn push_change(message: &mut String, info: &StalenessInfo, spilled: Option<&String>)
    ensures
        final(message)@ == old(message)@ + change_text(
            info.deep_view(),
            match spilled {
                Some(path) => Some(path@),
                None => None,
            },
        ),
{
    let detail = format_single_staleness(info);
    if detail.as_str().as_bytes().len() > STALENESS_SPILL_THRESHOLD {
        if let Some(path) = spilled {
            let ghost before = message@;
            message.append("Stale description: change ");
            message.append(info.change_id_short.as_str());
            message.append(" modified since last described (full detail: ");
            message.append(path.as_str());
            message.append(")");
            assert(message@ =~= before + change_text(info.deep_view(), Some(path@)));
            return;
        }
    }
    message.append(detail.as_str());
}

/// Builds the message about the stale changes. `spilled` holds, for each change
/// in turn, the file that its detail was written to; a change that it says
/// nothing of, or `None`, has its detail in the message, however long.
pub fn format_staleness_message(stale: &Vec<StalenessInfo>, spilled: &Vec<Option<String>>) -> (text:
    String)
    ensures
        text@ == message_text(stale.deep_view(), spilled.deep_view()),
{
    let mut text = String::new();
    let ghost parts = change_texts(stale.deep_view(), spilled.deep_view());
    for i in 0..stale.len()
        invariant
            parts == change_texts(stale.deep_view(), spilled.deep_view()),
            text@ =~= joined(parts.take(i as int), "\n"@),
    {
        assert(parts.take(i + 1).drop_last() =~= parts.take(i as int));
        if i > 0 {
            text.append("\n");
        }
        let path = if i < spilled.len() {
            spilled[i].as_ref()
        } else {
            None
        };
        push_change(&mut text, &stale[i], path);
    }
    assert(parts.take(parts.len() as int) =~= parts);
    text
}

/// What a hook that blocks the end of a session says: the message, and what has
/// to be done about it.
pub open spec fn stop_text(message: Seq<char>) -> Seq<char> {
    message
        + "\n\nYou MUST update all stale descriptions before stopping. Ensure the active-descriptions:describe skill is loaded, then follow it for each stale change."@
}

/// What a hook that only advises prints: the message as JSON, in the form that
/// the hook protocol asks for.
pub open spec fn advisory_text(message: Seq<char>) -> Seq<char> {
    object_text(
        "hookSpecificOutput"@,
        object_text("additionalContext"@, string_text(message)),
    )
}

/// What a hook has to say.
#[derive(Debug, PartialEq, Eq)]
pub enum Output {
    /// Text that comes with a refusal to end the session.
    Stop(String),
    /// JSON for the standard output.
    Advisory(String),
}

/// Renders the message about stale changes for the hook that runs.
pub fn emit_output(message: &str, stop_mode: bool) -> (output: Output)
    ensures
        output is Stop <==> stop_mode,
        output matches Output::Stop(text) ==> text@ == stop_text(message@),
        output matches Output::Advisory(json) ==> json@ == advisory_text(message@),
{
    if stop_mode {
        let mut text: String = message.to_owned();
        text.append(
            "\n\nYou MUST update all stale descriptions before stopping. Ensure the active-descriptions:describe skill is loaded, then follow it for each stale change.",
        );
        Output::Stop(text)
    } else {
        Output::Advisory(nested_object("hookSpecificOutput", "additionalContext", message))
    }
}

/// Whether `part` stands somewhere in `text`.
pub open spec fn holds(text: Seq<char>, part: Seq<char>) -> bool {
    exists|before: Seq<char>, after: Seq<char>| text == #[trigger] (before + part + after)
}

proof fn lemma_joined_holds(parts: Seq<Seq<char>>, separator: Seq<char>, i: int)
    requires
        0 <= i < parts.len(),
    ensures
        holds(joined(parts, separator), parts[i]),
    decreases parts.len(),
{
    let text = joined(parts, separator);
    let empty = Seq::<char>::empty();
    if parts.len() == 1 {
        assert(text =~= empty + parts[i] + empty);
    } else if i == parts.len() - 1 {
        let before = joined(parts.drop_last(), separator) + separator;
        assert(text =~= before + parts[i] + empty);
    } else {
        let rest = parts.drop_last();
        lemma_joined_holds(rest, separator, i);
        let (before, after) = choose|before: Seq<char>, after: Seq<char>|
            joined(rest, separator) == #[trigger] (before + rest[i] + after);
        assert(text =~= before + parts[i] + (after + separator + parts.last()));
    }
}

/// The message says something about every stale change.
pub proof fn law_message_covers_every_change(
    stale: Seq<StalenessView>,
    spilled: Seq<Option<Seq<char>>>,
    i: int,
)
    requires
        0 <= i < stale.len(),
    ensures
        holds(
            message_text(stale, spilled),
            change_text(
                stale[i],
                if i < spilled.len() {
                    spilled[i]
                } else {
                    None
                },
            ),
        ),
{
    lemma_joined_holds(change_texts(stale, spilled), "\n"@, i);
}

/// The detail on a change names every file that changed.
pub proof fn law_detail_names_every_file(info: StalenessView, i: int)
    requires
        0 <= i < info.changed_files.len(),
    ensures
        holds(detail_text(info), info.changed_files[i]),
{
    let names = joined(info.changed_files, ", "@);
    lemma_joined_holds(info.changed_files, ", "@, i);
    let (before, after) = choose|before: Seq<char>, after: Seq<char>|
        names == #[trigger] (before + info.changed_files[i] + after);
    let head = "Stale description: change "@ + info.change_id_short
        + " modified since last described."@ + "\n  Changed: "@;
    assert(detail_text(info) =~= (head + before) + info.changed_files[i] + after);
}

/// A detail that is short enough stands in the message, whatever was written to
/// files. One that was written to a file for its length is not in it: what the
/// message says is the same whatever the files are.
pub proof fn law_only_long_details_are_spilled(
    a: StalenessView,
    b: StalenessView,
    path: Seq<char>,
)
    requires
        a.change_id_short == b.change_id_short,
    ensures
        !is_spilled(a) ==> change_text(a, Some(path)) == detail_text(a) && encode_utf8(
            detail_text(a),
        ).len() <= STALENESS_SPILL_THRESHOLD,
        is_spilled(a) && is_spilled(b) ==> change_text(a, Some(path)) == change_text(b, Some(path)),
{
}

/// What is printed before the message by a hook that only advises.
pub open spec fn advisory_head() -> Seq<char> {
    seq!['{'] + string_text("hookSpecificOutput"@) + seq![':'] + (seq!['{'] + string_text(
        "additionalContext"@,
    ) + seq![':'] + seq!['"'])
}

/// What a hook that only advises prints carries the whole message, and the
/// message reads back from it as it was.
pub proof fn law_advisory_carries_message(message: Seq<char>)
    ensures
        advisory_text(message) == advisory_head() + crate::json::escaped(message) + seq![
            '"',
            '}',
            '}',
        ],
        crate::json::unescaped(crate::json::escaped(message)) == message,
{
    crate::json::law_string_reads_back(message);
    assert(advisory_text(message) =~= advisory_head() + crate::json::escaped(message) + seq![
        '"',
        '}',
        '}',
    ]);
}

/// What a hook that only advises prints is a single line.
pub proof fn law_advisory_is_one_line(message: Seq<char>)
    ensures
        forall|i: int|
            0 <= i < advisory_text(message).len() ==> #[trigger] advisory_text(message)[i] != '\n',
{
    crate::json::law_string_is_one_line("hookSpecificOutput"@);
    crate::json::law_string_is_one_line("additionalContext"@);
    crate::json::law_string_is_one_line(message);
    let a = string_text("hookSpecificOutput"@);
    let b = string_text("additionalContext"@);
    let c = string_text(message);
    let inner = object_text("additionalContext"@, c);
    assert forall|i: int| 0 <= i < inner.len() implies #[trigger] inner[i] != '\n' by {
        if 1 <= i < 1 + b.len() {
            assert(inner[i] == b[i - 1]);
        } else if 2 + b.len() <= i < 2 + b.len() + c.len() {
            assert(inner[i] == c[i - 2 - b.len()]);
        }
    }
    let text = advisory_text(message);
    assert forall|i: int| 0 <= i < text.len() implies #[trigger] text[i] != '\n' by {
        if 1 <= i < 1 + a.len() {
            assert(text[i] == a[i - 1]);
        } else if 2 + a.len() <= i < 2 + a.len() + inner.len() {
            assert(text[i] == inner[i - 2 - a.len()]);
        }
    }
}

/// The detail on a change without files names the change, and each file more is
/// named after those before it.
pub proof fn law_detail(
    a: StalenessInfo,
    text_a: String,
    b: StalenessInfo,
    text_b: String,
    file: Seq<char>,
)
    requires
        call_ensures(format_single_staleness, (&a,), text_a),
        call_ensures(format_single_staleness, (&b,), text_b),
        a.change_id_short@ == b.change_id_short@,
        b.changed_files.len() == a.changed_files.len() + 1,
        forall|i: int|
            0 <= i < a.changed_files.len() ==> (#[trigger] a.changed_files[i])@
                == b.changed_files[i]@,
        b.changed_files[a.changed_files.len() as int]@ == file,
    ensures
        a.changed_files.len() == 0 ==> text_a@ == "Stale description: change "@
            + a.change_id_short@ + " modified since last described."@,
        a.changed_files.len() == 0 ==> text_b@ == text_a@ + "\n  Changed: "@ + file,
        a.changed_files.len() > 0 ==> text_b@ == text_a@ + ", "@ + file,
{
    let (x, y) = (a.deep_view().changed_files, b.deep_view().changed_files);
    assert(x.len() == a.changed_files.len() && y.len() == b.changed_files.len());
    assert(y.last() == file);
    assert forall|i: int| 0 <= i < x.len() implies x[i] == y[i] by {
        assert(a.changed_files[i]@ == b.changed_files[i]@);
    }
    assert(y.drop_last() =~= x);
    if x.len() > 0 {
        assert(text_b@ =~= text_a@ + ", "@ + file);
    }
}

/// The detail on a change goes to a file just when it has more than 512 bytes.
/// The file holds all of it, and its name has the change's identifier.
pub proof fn law_spill(info: StalenessInfo, request: Option<SpillRequest>, detail: String)
    requires
        call_ensures(spill_request, (&info,), request),
        call_ensures(format_single_staleness, (&info,), detail),
    ensures
        request is Some <==> encode_utf8(detail@).len() > 512,
        request matches Some(r) ==> {
            &&& r.contents@ == detail@
            &&& r.prefix@ == "stale-desc-"@ + info.change_id_short@ + "-"@
            &&& r.suffix@ == ".txt"@
        },
{
}

/// The message about no change is empty, and that about one change more is the
/// message about those before it, and on a line of its own what there is to say
/// of that change: its detail or, where a file was asked for and written, the
/// change's identifier and the file's path.
pub proof fn law_message(
    stale: Vec<StalenessInfo>,
    longer: Vec<StalenessInfo>,
    spilled: Vec<Option<String>>,
    message: String,
    longer_message: String,
    detail: String,
    request: Option<SpillRequest>,
)
    requires
        call_ensures(format_staleness_message, (&stale, &spilled), message),
        call_ensures(format_staleness_message, (&longer, &spilled), longer_message),
        longer.len() == stale.len() + 1,
        forall|i: int| 0 <= i < stale.len() ==> #[trigger] longer[i] == stale[i],
        call_ensures(format_single_staleness, (&longer[stale.len() as int],), detail),
        call_ensures(spill_request, (&longer[stale.len() as int],), request),
    ensures
        stale.len() == 0 ==> message@ == Seq::<char>::empty(),
        ({
            let n = stale.len() as int;
            let path = if n < spilled.len() {
                spilled[n]
            } else {
                None
            };
            let part = if request is Some && path is Some {
                "Stale description: change "@ + longer[n].change_id_short@
                    + " modified since last described (full detail: "@ + path->Some_0@ + ")"@
            } else {
                detail@
            };
            longer_message@ == if n == 0 {
                part
            } else {
                message@ + "\n"@ + part
            }
        }),
{
    let n = stale.len() as int;
    let x = change_texts(stale.deep_view(), spilled.deep_view());
    let y = change_texts(longer.deep_view(), spilled.deep_view());
    assert(stale.deep_view().len() == n && longer.deep_view().len() == n + 1);
    assert(spilled.deep_view().len() == spilled.len());
    assert forall|i: int| 0 <= i < n implies stale.deep_view()[i] == longer.deep_view()[i] by {
        assert(longer[i] == stale[i]);
    }
    assert(y.drop_last() =~= x);
    assert(longer.deep_view()[n] == longer[n].deep_view());
    if n < spilled.len() {
        assert(spilled.deep_view()[n] == spilled[n].deep_view());
    }
}

/// The message names every stale change.
pub proof fn law_message_names_every_change(
    stale: Vec<StalenessInfo>,
    spilled: Vec<Option<String>>,
    message: String,
    i: int,
)
    requires
        call_ensures(format_staleness_message, (&stale, &spilled), message),
        0 <= i < stale.len(),
    ensures
        exists|before: Seq<char>, after: Seq<char>|
            message@ == #[trigger] (before + stale[i].change_id_short@ + after),
{
    let infos = stale.deep_view();
    let paths = spilled.deep_view();
    assert(infos.len() == stale.len());
    assert(infos[i] == stale[i].deep_view());
    law_message_covers_every_change(infos, paths, i);
    let path = if i < paths.len() {
        paths[i]
    } else {
        None
    };
    let part = change_text(infos[i], path);
    let id = stale[i].change_id_short@;
    let (before, after) = choose|before: Seq<char>, after: Seq<char>|
        message@ == #[trigger] (before + part + after);
    let head = "Stale description: change "@;
    let tail = part.skip((head.len() + id.len()) as int);
    assert(part =~= head + id + tail);
    assert(message@ =~= (before + head) + id + (tail + after));
}

/// What the hook that blocks says begins with the whole message, as it is, and
/// what follows is the same for every message: what has to be done.
pub proof fn law_stop_carries_message(message: &str, output: Output)
    requires
        call_ensures(emit_output, (message, true), output),
    ensures
        output matches Output::Stop(text) && {
            &&& message@.is_prefix_of(text@)
            &&& text@.skip(message@.len() as int)
                == "\n\nYou MUST update all stale descriptions before stopping. Ensure the active-descriptions:describe skill is loaded, then follow it for each stale change."@
        },
        holds(stop_text(message@), message@),
{
    let end =
        "\n\nYou MUST update all stale descriptions before stopping. Ensure the active-descriptions:describe skill is loaded, then follow it for each stale change."@;
    let text = stop_text(message@);
    assert(text.take(message@.len() as int) =~= message@);
    assert(text.skip(message@.len() as int) =~= end);
    assert(text =~= Seq::<char>::empty() + message@ + end);
}

/// What the hook that only advises prints is JSON: the message, as a string, in
/// `additionalContext` in `hookSpecificOutput`.
pub proof fn law_advice_is_json(message: &str, output: Output)
    requires
        call_ensures(emit_output, (message, false), output),
    ensures
        output matches Output::Advisory(json) && json@
            == "{\"hookSpecificOutput\":{\"additionalContext\":\""@ + crate::json::escaped(message@)
            + "\"}}"@,
{
    reveal_strlit("{\"hookSpecificOutput\":{\"additionalContext\":\"");
    reveal_strlit("\"}}");
    reveal_strlit("hookSpecificOutput");
    reveal_strlit("additionalContext");
    law_advisory_carries_message(message@);
    crate::json::law_escaped_piece_by_piece("hookSpecificOutput"@, Seq::empty());
    crate::json::law_escaped_piece_by_piece("additionalContext"@, Seq::empty());
    assert(advisory_head() =~= "{\"hookSpecificOutput\":{\"additionalContext\":\""@);
    assert(seq!['"', '}', '}'] =~= "\"}}"@);
}

/// A part stands in a text just when the text has it at some place.
pub proof fn law_holds(text: Seq<char>, part: Seq<char>)
    ensures
        holds(text, part) <==> exists|k: int|
            0 <= k && k + part.len() <= text.len() && #[trigger] text.subrange(k, k + part.len())
                == part,
{
    if holds(text, part) {
        let (before, after) = choose|before: Seq<char>, after: Seq<char>|
            text == #[trigger] (before + part + after);
        let k = before.len() as int;
        assert(text.subrange(k, k + part.len()) =~= part);
    }
    if exists|k: int|
        0 <= k && k + part.len() <= text.len() && #[trigger] text.subrange(k, k + part.len())
            == part {
        let k = choose|k: int|
            0 <= k && k + part.len() <= text.len() && #[trigger] text.subrange(k, k + part.len())
                == part;
        assert(text =~= text.take(k) + part + text.skip(k + part.len()));
    }
}

} // verus!
