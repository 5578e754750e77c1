use mdlive::state::{AppConfig, MarkdownState, ServerMessage};
use mdlive::websocket::{
    ends_reading, ends_sending, initial_message, next_action, task_to_abort, ClientFrame, Delivery,
    RecvError, SocketTask, WsAction,
};

#[test]
fn lagged_client_gets_a_reload_not_a_dropped_socket() {
    assert!(matches!(
        next_action(Err(RecvError::Lagged(42))),
        WsAction::Forward(ServerMessage::Reload)
    ));
}

#[test]
fn closed_channel_stops_the_send_loop() {
    assert!(matches!(
        next_action(Err(RecvError::Closed)),
        WsAction::Stop
    ));
}

#[test]
fn normal_message_is_forwarded_unchanged() {
    let msg = ServerMessage::FileMoved {
        from: "a.md".into(),
        to: "b.md".into(),
    };
    assert!(matches!(
        next_action(Ok(msg)),
        WsAction::Forward(ServerMessage::FileMoved { .. })
    ));
}

#[test]
fn forwarded_message_keeps_its_fields() {
    let msg = ServerMessage::FileMoved {
        from: "a.md".into(),
        to: "b.md".into(),
    };
    match next_action(Ok(msg.clone())) {
        WsAction::Forward(out) => assert_eq!(out, msg),
        WsAction::Stop => panic!("stopped"),
    }
}

#[test]
fn page_is_told_of_the_open_workspace_in_daemon_mode_only() {
    let config = AppConfig { recent: vec![], last_workspaces: vec![], last_browse_dir: None };
    let mut daemon = MarkdownState::new_daemon_with_config(config);
    assert!(initial_message(&daemon).is_none());
    assert!(daemon
        .switch_workspace(b"/notes".to_vec(), vec![], true, None, None)
        .is_ok());
    assert_eq!(
        initial_message(&daemon),
        Some(ServerMessage::WorkspaceChanged { base_dir: "/notes".into(), file: None })
    );

    let single = MarkdownState::new(b"/notes".to_vec(), vec![], true).ok().unwrap();
    assert!(initial_message(&single).is_none());
}

#[test]
fn reading_ends_with_a_close_frame_and_sending_with_a_broken_socket() {
    assert!(ends_reading(&ClientFrame::Close));
    assert!(!ends_reading(&ClientFrame::Text));
    assert!(!ends_reading(&ClientFrame::Other));
    assert!(ends_sending(&Delivery::Broken));
    assert!(!ends_sending(&Delivery::Dropped));
    assert!(!ends_sending(&Delivery::Sent));
}

#[test]
fn the_half_that_is_left_is_aborted() {
    assert_eq!(task_to_abort(SocketTask::Reading), SocketTask::Sending);
    assert_eq!(task_to_abort(SocketTask::Sending), SocketTask::Reading);
}
