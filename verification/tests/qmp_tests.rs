use ephmem::qmp::{
    classify_qmp_message, frame_qmp_command, qmp_read_action, qmp_reader_goes_on, validate_qmp_response, QmpMessageKind,
    QmpRead, QmpReadAction, QmpReplyCheck,
};

#[test]
fn qmp_messages_are_sorted() {
    assert_eq!(classify_qmp_message(r#"{"return": {}}"#), Some(QmpMessageKind::Response));
    assert_eq!(classify_qmp_message(r#"{"error": {"class": "GenericError", "desc": "x"}}"#), Some(QmpMessageKind::Response));
    assert_eq!(
        classify_qmp_message(r#"{"event": "STOP", "timestamp": {"seconds": 1, "microseconds": 2}}"#),
        Some(QmpMessageKind::Event)
    );
    assert_eq!(classify_qmp_message(r#"{"QMP": {"version": {}, "capabilities": []}}"#), Some(QmpMessageKind::Greeting));
    assert_eq!(classify_qmp_message(r#"{"other": 1}"#), Some(QmpMessageKind::Unexpected));
    assert_eq!(classify_qmp_message("[1, 2]"), Some(QmpMessageKind::Unexpected));
    assert_eq!(classify_qmp_message("not json"), None);
    assert_eq!(classify_qmp_message("{\"return\": 5}\n"), Some(QmpMessageKind::Response));
}

#[test]
fn qmp_replies_are_checked() {
    assert_eq!(validate_qmp_response(r#"{"return": {"granted": 4}}"#), QmpReplyCheck::Success);
    assert_eq!(validate_qmp_response(r#"{"error": {"desc": "no"}}"#), QmpReplyCheck::Failed);
    assert_eq!(validate_qmp_response(r#"{"error": 1, "return": 2}"#), QmpReplyCheck::Failed);
    assert_eq!(validate_qmp_response(r#"{"event": "X"}"#), QmpReplyCheck::Unexpected);
    assert_eq!(validate_qmp_response("garbage"), QmpReplyCheck::Unexpected);
}

#[test]
fn commands_end_in_newline() {
    assert_eq!(frame_qmp_command(r#"{"execute": "qmp_capabilities"}"#), "{\"execute\": \"qmp_capabilities\"}\n");
    assert_eq!(frame_qmp_command("x\n"), "x\n");
    assert_eq!(frame_qmp_command(""), "\n");
}

#[test]
fn read_loop_steps() {
    assert_eq!(qmp_read_action(false, false, QmpRead::EndOfStream), QmpReadAction::Stop);
    assert_eq!(qmp_read_action(false, false, QmpRead::Failed), QmpReadAction::Stop);
    assert_eq!(qmp_read_action(false, false, QmpRead::Line(None)), QmpReadAction::StopUnparsable);
    assert_eq!(qmp_read_action(false, true, QmpRead::Line(Some(QmpMessageKind::Response))), QmpReadAction::SendResponse);
    assert_eq!(qmp_read_action(true, false, QmpRead::Line(Some(QmpMessageKind::Response))), QmpReadAction::Skip);
    assert_eq!(qmp_read_action(true, false, QmpRead::Line(Some(QmpMessageKind::Event))), QmpReadAction::SendEvent);
    assert_eq!(qmp_read_action(false, true, QmpRead::Line(Some(QmpMessageKind::Event))), QmpReadAction::Skip);
    assert_eq!(qmp_read_action(false, false, QmpRead::Line(Some(QmpMessageKind::Greeting))), QmpReadAction::Skip);
    assert_eq!(
        qmp_read_action(false, false, QmpRead::Line(Some(QmpMessageKind::Unexpected))),
        QmpReadAction::ReportUnexpected
    );
    assert!(qmp_reader_goes_on(true, false));
    assert!(!qmp_reader_goes_on(true, true));
}
