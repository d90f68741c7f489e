use vstd::prelude::*;

use crate::text::{ends_with_newline, str_eq};

verus! {

/// The names of the top-level fields of the JSON text `text`, in the order
/// `serde_json` keeps them; no names for JSON that is not an object, and
/// `None` when `serde_json` does not parse `text`: when it is not JSON, and
/// also when it is JSON nested deeper than `serde_json`'s recursion limit
/// (128 levels).
pub uninterp spec fn json_top_level_keys(text: Seq<char>) -> Option<Seq<Seq<char>>>;

/// Calls `serde_json::from_str::<serde_json::Value>` and lists the keys of
/// the object it parsed (none for any other JSON value). Claims that the
/// result is `json_top_level_keys` of the text, `None` exactly when
/// `serde_json` fails on it (text that is not JSON, or JSON nested too
/// deeply); which keys a given text has is left to `serde_json`.
#[verifier::external_body]
fn parse_json_keys(text: &str) -> (r: Option<Vec<String>>)
    ensures
        match json_top_level_keys(text@) {
            None => r is None,
            Some(keys) => r matches Some(v) && v@.len() == keys.len()
                && forall|i: int| 0 <= i < keys.len() ==> #[trigger] v@[i]@ == keys[i],
        },
{
    match serde_json::from_str::<serde_json::Value>(text) {
        Ok(serde_json::Value::Object(map)) => Some(map.into_iter().map(|(k, _)| k).collect()),
        Ok(serde_json::Value::Array(_)) => Some(Vec::new()),
        Ok(serde_json::Value::String(_)) => Some(Vec::new()),
        Ok(serde_json::Value::Number(_)) => Some(Vec::new()),
        Ok(serde_json::Value::Bool(_)) => Some(Vec::new()),
        Ok(serde_json::Value::Null) => Some(Vec::new()),
        Err(_) => None,
    }
}

/// `key` is one of `keys`.
pub open spec fn has_key(keys: Seq<Seq<char>>, key: Seq<char>) -> bool {
    exists|i: int| 0 <= i < keys.len() && #[trigger] keys[i] == key
}

/// Whether `key` is among `keys`.
pub fn keys_contain(keys: &Vec<String>, key: &str) -> (r: bool)
    ensures
        r == exists|i: int| 0 <= i < keys@.len() && #[trigger] keys@[i]@ == key@,
{
    let n = keys.len();
    let mut i: usize = 0;
    while i < n
        invariant
            n == keys@.len(),
            0 <= i <= n,
            forall|j: int| 0 <= j < i ==> #[trigger] keys@[j]@ != key@,
        decreases n - i,
    {
        if str_eq(keys[i].as_str(), key) {
            return true;
        }
        i = i + 1;
    }
    false
}

/// The kinds of message a QEMU monitor sends.
#[derive(Clone, Copy, PartialEq, Eq, Debug)]
pub enum QmpMessageKind {
    /// The reply to a command (it holds `return` or `error`).
    Response,
    /// An asynchronous event.
    Event,
    /// The greeting sent when a connection opens.
    Greeting,
    /// Anything else.
    Unexpected,
}

/// The kind of a QMP message with top-level fields `keys`.
pub open spec fn qmp_kind_of(keys: Seq<Seq<char>>) -> QmpMessageKind {
    if has_key(keys, "return"@) || has_key(keys, "error"@) {
        QmpMessageKind::Response
    } else if has_key(keys, "event"@) {
        QmpMessageKind::Event
    } else if has_key(keys, "QMP"@) {
        QmpMessageKind::Greeting
    } else {
        QmpMessageKind::Unexpected
    }
}

/// Sorts a QMP message by its top-level fields.
pub fn classify_qmp_keys(keys: &Vec<String>) -> (r: QmpMessageKind)
    ensures
        r == qmp_kind_of(keys@.map_values(|k: String| k@)),
{
    let ghost ks = keys@.map_values(|k: String| k@);
    proof {
        assert forall|key: Seq<char>| has_key(ks, key)
            == exists|i: int| 0 <= i < keys@.len() && #[trigger] keys@[i]@ == key by {
            if has_key(ks, key) {
                let i = choose|i: int| 0 <= i < ks.len() && #[trigger] ks[i] == key;
                assert(keys@[i]@ == key);
            }
            if exists|i: int| 0 <= i < keys@.len() && #[trigger] keys@[i]@ == key {
                let i = choose|i: int| 0 <= i < keys@.len() && #[trigger] keys@[i]@ == key;
                assert(ks[i] == key);
            }
        }
    }
    if keys_contain(keys, "return") || keys_contain(keys, "error") {
        QmpMessageKind::Response
    } else if keys_contain(keys, "event") {
        QmpMessageKind::Event
    } else if keys_contain(keys, "QMP") {
        QmpMessageKind::Greeting
    } else {
        QmpMessageKind::Unexpected
    }
}

/// Sorts one line read from a QEMU monitor; `None` when `serde_json` does
/// not parse it.
pub fn classify_qmp_message(line: &str) -> (r: Option<QmpMessageKind>)
    ensures
        r == (match json_top_level_keys(line@) {
            Some(keys) => Some(qmp_kind_of(keys)),
            None => None,
        }),
{
    match parse_json_keys(line) {
        Some(keys) => {
            proof {
                let ks = json_top_level_keys(line@)->0;
                assert(keys@.map_values(|k: String| k@) =~= ks);
            }
            Some(classify_qmp_keys(&keys))
        },
        None => None,
    }
}

/// What the reply to a QMP command says.
#[derive(Clone, Copy, PartialEq, Eq, Debug)]
pub enum QmpReplyCheck {
    /// The command succeeded; the reply holds `return`.
    Success,
    /// The command failed; the reply holds `error`.
    Failed,
    /// The reply holds neither.
    Unexpected,
}

/// What a reply with top-level fields `keys` says: an `error` field means
/// failure even beside a `return` field.
pub open spec fn qmp_reply_of(keys: Seq<Seq<char>>) -> QmpReplyCheck {
    if has_key(keys, "error"@) {
        QmpReplyCheck::Failed
    } else if has_key(keys, "return"@) {
        QmpReplyCheck::Success
    } else {
        QmpReplyCheck::Unexpected
    }
}

/// Checks the reply to a QMP command; text that `serde_json` does not parse
/// is unexpected.
pub fn validate_qmp_response(response: &str) -> (r: QmpReplyCheck)
    ensures
        r == (match json_top_level_keys(response@) {
            Some(keys) => qmp_reply_of(keys),
            None => QmpReplyCheck::Unexpected,
        }),
{
    match parse_json_keys(response) {
        Some(keys) => {
            let ghost ks = json_top_level_keys(response@)->0;
            proof {
                assert forall|key: Seq<char>| has_key(ks, key)
                    == exists|i: int| 0 <= i < keys@.len() && #[trigger] keys@[i]@ == key by {
                    if has_key(ks, key) {
                        let i = choose|i: int| 0 <= i < ks.len() && #[trigger] ks[i] == key;
                        assert(keys@[i]@ == key);
                    }
                }
            }
            if keys_contain(&keys, "error") {
                QmpReplyCheck::Failed
            } else if keys_contain(&keys, "return") {
                QmpReplyCheck::Success
            } else {
                QmpReplyCheck::Unexpected
            }
        },
        None => QmpReplyCheck::Unexpected,
    }
}

/// A command as written to the monitor: the text, ended by a line feed
/// unless it already ends in one.
pub fn frame_qmp_command(command: &str) -> (r: String)
    ensures
        command@.len() > 0 && command@.last() == '\n' ==> r@ == command@,
        !(command@.len() > 0 && command@.last() == '\n') ==> r@ == command@ + "\n"@,
{
    let framed = String::from_str(command);
    if ends_with_newline(command) {
        framed
    } else {
        framed.concat("\n")
    }
}

/// What the monitor's read loop got from one read.
#[derive(Clone, Copy, PartialEq, Eq, Debug)]
pub enum QmpRead {
    /// The monitor closed the connection.
    EndOfStream,
    /// The read failed.
    Failed,
    /// A line, sorted by `classify_qmp_message` (`None`: not parsed).
    Line(Option<QmpMessageKind>),
}

/// What the read loop does with what it read.
#[derive(Clone, Copy, PartialEq, Eq, Debug)]
pub enum QmpReadAction {
    /// Stop reading.
    Stop,
    /// Report a line that could not be parsed, and stop reading.
    StopUnparsable,
    /// Hand the line to whoever waits for command replies.
    SendResponse,
    /// Hand the line to the event handler.
    SendEvent,
    /// Drop the line.
    Skip,
    /// Report a message of no known kind and read on.
    ReportUnexpected,
}

/// The read loop's next step. `responses_gone` and `events_gone` tell
/// whether the receiver of replies or of events has gone away; lines for a
/// receiver that is gone are dropped, and a greeting is always dropped.
pub fn qmp_read_action(responses_gone: bool, events_gone: bool, read: QmpRead) -> (r: QmpReadAction)
    ensures
        r == (match read {
            QmpRead::EndOfStream => QmpReadAction::Stop,
            QmpRead::Failed => QmpReadAction::Stop,
            QmpRead::Line(None) => QmpReadAction::StopUnparsable,
            QmpRead::Line(Some(QmpMessageKind::Response)) => if responses_gone {
                QmpReadAction::Skip
            } else {
                QmpReadAction::SendResponse
            },
            QmpRead::Line(Some(QmpMessageKind::Event)) => if events_gone {
                QmpReadAction::Skip
            } else {
                QmpReadAction::SendEvent
            },
            QmpRead::Line(Some(QmpMessageKind::Greeting)) => QmpReadAction::Skip,
            QmpRead::Line(Some(QmpMessageKind::Unexpected)) => QmpReadAction::ReportUnexpected,
        }),
{
    match read {
        QmpRead::EndOfStream => QmpReadAction::Stop,
        QmpRead::Failed => QmpReadAction::Stop,
        QmpRead::Line(None) => QmpReadAction::StopUnparsable,
        QmpRead::Line(Some(QmpMessageKind::Response)) => if responses_gone {
            QmpReadAction::Skip
        } else {
            QmpReadAction::SendResponse
        },
        QmpRead::Line(Some(QmpMessageKind::Event)) => if events_gone {
            QmpReadAction::Skip
        } else {
            QmpReadAction::SendEvent
        },
        QmpRead::Line(Some(QmpMessageKind::Greeting)) => QmpReadAction::Skip,
        QmpRead::Line(Some(QmpMessageKind::Unexpected)) => QmpReadAction::ReportUnexpected,
    }
}

/// Whether the read loop goes on: not once both receivers have gone away.
pub fn qmp_reader_goes_on(responses_gone: bool, events_gone: bool) -> (r: bool)
    ensures
        r == !(responses_gone && events_gone),
{
    !(responses_gone && events_gone)
}

} // verus!
