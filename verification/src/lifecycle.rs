//! Commands around a benchmark: when they end, and what is shown of their
//! output where they fail.

use crate::text::{lossy_text, read_lossy, trim_end, trimmed_end};
use vstd::prelude::*;

verus! {

/// How many bytes at the end of each output stream are kept.
pub const OUTPUT_LIMIT: u64 = 65_536;

/// The end of an output stream.
#[derive(Clone, Debug)]
pub struct Tail {
    pub bytes: Vec<u8>,
    /// Whether something before it was dropped.
    pub dropped: bool,
}

/// Where the part of a stream starts that is kept, and whether something
/// before it is dropped.
pub fn tail_window(length: u64) -> (window: (u64, bool))
    ensures
        window.1 == (length > 65_536),
        length > 65_536 ==> length - window.0 == 65_536,
        length <= 65_536 ==> window.0 == 0,
        window.1 == (length > OUTPUT_LIMIT),
        window.0 == (if length > OUTPUT_LIMIT {
            length - OUTPUT_LIMIT
        } else {
            0
        }),
{
    if length > OUTPUT_LIMIT {
        (length - OUTPUT_LIMIT, true)
    } else {
        (0, false)
    }
}

/// What is kept of a stream.
pub open spec fn kept(stream: Seq<u8>) -> Seq<u8> {
    if stream.len() > OUTPUT_LIMIT {
        stream.skip(stream.len() - OUTPUT_LIMIT)
    } else {
        stream
    }
}

/// The tail that a window leaves of a stream is no longer than the limit, and
/// it is the stream itself where nothing is dropped.
pub proof fn tails_are_limited(stream: Seq<u8>)
    ensures
        kept(stream).len() <= OUTPUT_LIMIT,
        stream.len() <= OUTPUT_LIMIT ==> kept(stream) == stream,
        stream.len() > OUTPUT_LIMIT ==> kept(stream).len() == OUTPUT_LIMIT,
        stream.len() > 65_536 ==> kept(stream).len() == 65_536,
        stream.len() <= 65_536 ==> kept(stream) == stream,
        stream == stream.take(stream.len() - kept(stream).len()) + kept(stream),
{
    assert(stream =~= stream.take(stream.len() - kept(stream).len()) + kept(stream));
}

/// What is shown of one stream.
pub open spec fn stream_text(label: Seq<char>, name: Seq<char>, bytes: Seq<u8>, dropped: bool) -> Seq<
    char,
> {
    if bytes.len() == 0 && !dropped {
        Seq::empty()
    } else {
        "\n["@ + label + " "@ + name + "]\n"@ + trimmed_end(lossy_text(bytes)) + if dropped {
            "\n[...truncated...]"@
        } else {
            Seq::empty()
        }
    }
}

fn display_stream(label: &str, name: &str, bytes: &Vec<u8>, dropped: bool) -> (text: String)
    ensures
        text@ == stream_text(label@, name@, bytes@, dropped),
{
    if bytes.len() == 0 && !dropped {
        return String::new();
    }
    let body = read_lossy(bytes);
    let text = "\n[".to_owned().concat(label).concat(" ").concat(name).concat("]\n").concat(
        trim_end(body.as_str()).as_str(),
    );
    if dropped {
        text.concat("\n[...truncated...]")
    } else {
        assert(text@ + Seq::<char>::empty() =~= text@);
        text
    }
}

/// What is shown of the output of a command that failed.
pub fn display_tails(label: &str, stdout: &Tail, stderr: &Tail) -> (text: String)
    ensures
        text@ == stream_text(label@, "stdout"@, stdout.bytes@, stdout.dropped) + stream_text(
            label@,
            "stderr"@,
            stderr.bytes@,
            stderr.dropped,
        ),
{
    display_stream(label, "stdout", &stdout.bytes, stdout.dropped).concat(
        display_stream(label, "stderr", &stderr.bytes, stderr.dropped).as_str(),
    )
}

/// What is shown of the whole output of a command that failed.
pub fn display_output(label: &str, stdout: &Vec<u8>, stderr: &Vec<u8>) -> (text: String)
    ensures
        text@ == stream_text(label@, "stdout"@, stdout@, false) + stream_text(
            label@,
            "stderr"@,
            stderr@,
            false,
        ),
{
    display_stream(label, "stdout", stdout, false).concat(
        display_stream(label, "stderr", stderr, false).as_str(),
    )
}

/// What a command that is watched does.
#[derive(Clone, Copy, Debug, PartialEq, Eq, Structural)]
pub enum Watch {
    Succeeded,
    Failed,
    Interrupted,
    TimedOut,
    /// It still runs.
    Running,
}

/// What a command that is watched does: an exit wins over an interrupt, and an
/// interrupt over the time limit.
pub fn watch(exited: Option<bool>, interrupted: bool, expired: bool) -> (state: Watch)
    ensures
        state == (match exited {
            Some(true) => Watch::Succeeded,
            Some(false) => Watch::Failed,
            None => if interrupted {
                Watch::Interrupted
            } else if expired {
                Watch::TimedOut
            } else {
                Watch::Running
            },
        }),
{
    match exited {
        Some(success) => if success {
            Watch::Succeeded
        } else {
            Watch::Failed
        },
        None => if interrupted {
            Watch::Interrupted
        } else if expired {
            Watch::TimedOut
        } else {
            Watch::Running
        },
    }
}

/// What is said of a command that did not succeed, given the program and its
/// status as they are shown and the time limit as it is shown.
pub fn failure_message(
    failure: Watch,
    program: &str,
    status: &str,
    limit: &str,
    tails: &str,
) -> (text: Option<String>)
    ensures
        match failure {
            Watch::Failed => text matches Some(text) && text@ == program@ + " failed with "@
                + status@ + "."@ + tails@,
            Watch::Interrupted => text matches Some(text) && text@ == "Interrupted."@,
            Watch::TimedOut => text matches Some(text) && text@ == program@ + " timed out after "@
                + limit@ + "."@,
            _ => text is None,
        },
{
    match failure {
        Watch::Failed => Some(
            program.to_owned().concat(" failed with ").concat(status).concat(".").concat(tails),
        ),
        Watch::Interrupted => Some("Interrupted.".to_owned()),
        Watch::TimedOut => Some(
            program.to_owned().concat(" timed out after ").concat(limit).concat("."),
        ),
        _ => None,
    }
}

/// What is shown of a stream: nothing where it is empty and nothing of it was
/// dropped, else its label and its text without the white space at the end, and
/// where something was dropped a note of that.
pub proof fn a_stream_is_shown_under_its_label(
    label: Seq<char>,
    name: Seq<char>,
    bytes: Seq<u8>,
    shown: Seq<char>,
    dropped: bool,
)
    requires
        shown == stream_text(label, name, bytes, dropped),
    ensures
        bytes.len() == 0 && !dropped ==> shown.len() == 0,
        bytes.len() > 0 && !dropped ==> shown == "\n["@ + label + " "@ + name + "]\n"@
            + trimmed_end(lossy_text(bytes)),
        dropped ==> shown == "\n["@ + label + " "@ + name + "]\n"@ + trimmed_end(lossy_text(bytes))
            + "\n[...truncated...]"@,
{
    if bytes.len() > 0 && !dropped {
        assert(shown =~= "\n["@ + label + " "@ + name + "]\n"@ + trimmed_end(lossy_text(bytes)));
    }
}

} // verus!
