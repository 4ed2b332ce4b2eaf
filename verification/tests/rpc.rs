use remarkable::rpc::{arg_keys, died_text, take_line, translate, ArgValue, Flavor, PiEvent, RpcLine};

fn line(kind: &str) -> RpcLine {
    RpcLine {
        kind: Some(kind.to_string()),
        event_kind: None,
        delta: None,
        tool_name: None,
        args: Vec::new(),
        error: None,
        method: None,
        title: None,
        message: None,
        success_false: false,
    }
}

#[test]
fn start_end_and_deltas() {
    assert_eq!(translate(&line("agent_start"), Flavor::Collab), (Some(PiEvent::Start), false));
    assert_eq!(translate(&line("agent_end"), Flavor::Collab), (Some(PiEvent::End), false));
    let mut l = line("message_update");
    l.event_kind = Some("text_delta".to_string());
    l.delta = Some("Hello".to_string());
    assert_eq!(translate(&l, Flavor::Collab), (Some(PiEvent::Delta("Hello".to_string())), false));
    l.event_kind = Some("thinking_delta".to_string());
    assert_eq!(translate(&l, Flavor::Collab), (None, false));
    assert_eq!(translate(&line("turn_start"), Flavor::Collab), (None, false));
    let mut none = line("x");
    none.kind = None;
    assert_eq!(translate(&none, Flavor::Collab), (None, false));
}

#[test]
fn tool_runs_show_the_first_informative_argument() {
    let mut l = line("tool_execution_start");
    l.tool_name = Some("bash".to_string());
    l.args = vec![ArgValue::Other, ArgValue::Text("src/main.rs".to_string()), ArgValue::Other, ArgValue::Other];
    assert_eq!(translate(&l, Flavor::Collab), (Some(PiEvent::Notice("[bash] src/main.rs".to_string())), false));
    let mut n = line("tool_execution_start");
    n.args = vec![ArgValue::Other, ArgValue::Other, ArgValue::Other, ArgValue::Other, ArgValue::Other, ArgValue::Number(42)];
    assert_eq!(translate(&n, Flavor::Reader), (Some(PiEvent::Notice("[tool] 42".to_string())), false));
    assert_eq!(translate(&n, Flavor::Collab), (Some(PiEvent::Notice("[tool] ".to_string())), false));
    assert_eq!(arg_keys(Flavor::Collab), vec!["command", "path", "file_path", "pattern"]);
    assert_eq!(arg_keys(Flavor::Reader).len(), 6);
}

#[test]
fn long_tool_notices_are_cut_to_120_bytes() {
    let mut l = line("tool_execution_start");
    l.tool_name = Some("bash".to_string());
    l.args = vec![ArgValue::Text("x".repeat(300))];
    let (e, _) = translate(&l, Flavor::Collab);
    match e {
        Some(PiEvent::Notice(s)) => {
            assert_eq!(s.len(), 120);
            assert!(s.starts_with("[bash] xxx"));
        }
        _ => panic!("expected a notice"),
    }
}

#[test]
fn notices_for_retries_errors_and_dialogs() {
    assert_eq!(
        translate(&line("auto_retry_start"), Flavor::Collab),
        (Some(PiEvent::Notice("[retrying after transient error]".to_string())), false)
    );
    let mut e = line("extension_error");
    assert_eq!(translate(&e, Flavor::Collab), (Some(PiEvent::Notice("[extension error: ?]".to_string())), false));
    e.error = Some("boom".to_string());
    assert_eq!(translate(&e, Flavor::Collab), (Some(PiEvent::Notice("[extension error: boom]".to_string())), false));
    let mut d = line("extension_ui_request");
    d.method = Some("confirm".to_string());
    assert_eq!(translate(&d, Flavor::Reader), (Some(PiEvent::Notice("[dismissed dialog: confirm]".to_string())), true));
    d.title = Some("Proceed?".to_string());
    assert_eq!(translate(&d, Flavor::Reader), (Some(PiEvent::Notice("[dismissed dialog: Proceed?]".to_string())), true));
    let mut n = line("extension_ui_request");
    n.method = Some("notify".to_string());
    n.message = Some("saved".to_string());
    assert_eq!(translate(&n, Flavor::Reader), (Some(PiEvent::Notice("[saved]".to_string())), false));
    n.method = Some("other".to_string());
    assert_eq!(translate(&n, Flavor::Reader), (None, false));
    let mut r = line("response");
    assert_eq!(translate(&r, Flavor::Collab), (None, false));
    r.success_false = true;
    assert_eq!(translate(&r, Flavor::Collab), (Some(PiEvent::Notice("[pi error: unknown error]".to_string())), false));
}

#[test]
fn lines_split_on_line_feeds_only() {
    let mut buf = b"{\"a\":1}\r\n\npartial".to_vec();
    assert_eq!(take_line(&mut buf), Some(b"{\"a\":1}".to_vec()));
    assert_eq!(take_line(&mut buf), Some(Vec::new()));
    assert_eq!(take_line(&mut buf), None);
    assert_eq!(buf, b"partial".to_vec());
}

#[test]
fn died_reasons() {
    assert_eq!(died_text(Some(Some(3))), "exit 3");
    assert_eq!(died_text(Some(None)), "exit -1");
    assert_eq!(died_text(None), "stdout closed");
}

#[test]
fn the_pause_message() {
    let m = remarkable::rpc::pause_message("Page 3", "#1 at (0,0)", "rows: none.");
    assert_eq!(
        m,
        "Page 3 (page attached, half scale: multiply image coordinates by 2 for page coordinates). The user just paused. Your existing ink patches: #1 at (0,0). Measured layout (page coordinates): rows: none. If this pause warrants action, act (read code over ssh if needed, then draw); otherwise reply `pass`."
    );
}
