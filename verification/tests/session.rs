use ssh_tui_rs::app::{Activation, App, EmbeddedMouseStep};
use ssh_tui_rs::embedded_session::{
    EmbeddedExit, EmbeddedFocus, EmbeddedMouseAction, EmbeddedPoll, EmbeddedSession, ExitCode,
    MouseDecision, MouseInput, MouseKind, TerminalPosition, TerminalSelection, WaitOutcome,
    copy_action, selection_text, terminal_size, tidy_selected_text,
};
use ssh_tui_rs::ssh_config::{HostEntry, ResolvedHost, SshConfig};

fn mouse(kind: MouseKind, column: u16, row: u16) -> MouseInput {
    MouseInput { kind, column, row, shift: false }
}

fn one_host_app(embedded: bool) -> App {
    let config = SshConfig {
        source: "/tmp/alternate-config".into(),
        groups: Vec::new(),
        hosts: vec![HostEntry {
            alias: "work-web".into(),
            description: None,
            group_path: Vec::new(),
            source: "/tmp/alternate-config".into(),
            line: 1,
            options: Vec::new(),
            resolved: ResolvedHost::default(),
        }],
    };
    App::with_features(config, false, embedded)
}

#[test]
fn a_failed_exit_is_recorded_and_labelled() {
    let mut session = EmbeddedSession::new("test".into(), 10, 40);
    assert_eq!(session.poll(WaitOutcome::Running), EmbeddedPoll::Running);
    assert_eq!(
        session.poll(WaitOutcome::Exited(ExitCode { exit_code: 7, signal: None })),
        EmbeddedPoll::Failed
    );
    assert_eq!(session.exit_label().as_deref(), Some("exit 7"));
    assert_eq!(session.focus, EmbeddedFocus::Tree);
    assert_eq!(session.poll(WaitOutcome::Running), EmbeddedPoll::Failed);

    let mut killed = EmbeddedSession::new("test".into(), 10, 40);
    killed.poll(WaitOutcome::Exited(ExitCode { exit_code: 0, signal: Some(9) }));
    assert_eq!(killed.exit_label().as_deref(), Some("signal 9"));

    let mut broken = EmbeddedSession::new("test".into(), 10, 40);
    broken.poll(WaitOutcome::Error("pty closed".into()));
    assert_eq!(broken.exit, Some(EmbeddedExit::Error("pty closed".into())));
    assert_eq!(broken.exit_label().as_deref(), Some("pty closed"));

    let mut clean = EmbeddedSession::new("test".into(), 10, 40);
    assert_eq!(
        clean.poll(WaitOutcome::Exited(ExitCode { exit_code: 0, signal: None })),
        EmbeddedPoll::Succeeded
    );
    assert!(clean.is_running());
}

#[test]
fn selection_range_is_ordered_in_both_directions() {
    let mut session = EmbeddedSession::new("test".into(), 10, 40);
    session.selection = Some(TerminalSelection {
        start: TerminalPosition { row: 0, col: 8 },
        end: TerminalPosition { row: 0, col: 5 },
        dragging: false,
    });
    assert_eq!(
        session.selection_range(),
        Some((TerminalPosition { row: 0, col: 5 }, TerminalPosition { row: 0, col: 8 }))
    );
    session.clear_selection();
    assert_eq!(session.selection_range(), None);
}

#[test]
fn mouse_drag_selects_and_release_copies() {
    let mut session = EmbeddedSession::new("test".into(), 10, 40);
    assert_eq!(session.handle_mouse(mouse(MouseKind::LeftDown, 0, 0), false), MouseDecision::Handled);
    assert_eq!(session.handle_mouse(mouse(MouseKind::LeftDrag, 3, 0), false), MouseDecision::Handled);
    assert_eq!(session.handle_mouse(mouse(MouseKind::LeftUp, 3, 0), false), MouseDecision::CopySelection);
    assert_eq!(
        session.selection_range(),
        Some((TerminalPosition { row: 0, col: 0 }, TerminalPosition { row: 0, col: 3 }))
    );
    assert_eq!(copy_action(selection_text("copy   ")), EmbeddedMouseAction::Copy("copy".into()));
    assert_eq!(copy_action(selection_text("     ")), EmbeddedMouseAction::Handled);
    assert_eq!(copy_action(selection_text("   \n  ")), EmbeddedMouseAction::Copy("\n".into()));
}

#[test]
fn a_program_that_takes_the_mouse_gets_it() {
    let mut session = EmbeddedSession::new("test".into(), 10, 40);
    assert_eq!(session.handle_mouse(mouse(MouseKind::LeftDown, 50, 20), true), MouseDecision::Forward);
    let shifted = MouseInput { shift: true, ..mouse(MouseKind::LeftDown, 50, 20) };
    assert_eq!(session.handle_mouse(shifted, true), MouseDecision::Handled);
    assert_eq!(
        session.selection_range(),
        Some((TerminalPosition { row: 9, col: 39 }, TerminalPosition { row: 9, col: 39 }))
    );
}

#[test]
fn terminal_sizes_are_at_least_one_cell() {
    assert_eq!(terminal_size(0, 0), (1, 1));
    assert_eq!(terminal_size(24, 80), (24, 80));
    let session = EmbeddedSession::new("t".into(), 24, 80);
    assert_eq!(session.pending_resize(24, 80), None);
    assert_eq!(session.pending_resize(30, 0), Some((30, 1)));
}

#[test]
fn selected_text_loses_trailing_spaces() {
    assert_eq!(tidy_selected_text("copy this   \nnext  "), "copy this\nnext");
}

#[test]
fn opening_a_host_inline_starts_a_session_sized_to_the_pane() {
    let mut app = one_host_app(false);
    app.set_details_area(40, 2, 60, 20);
    let launch = match app.activate_selected_host(true) {
        Activation::Embedded(launch) => launch,
        other => panic!("unexpected {other:?}"),
    };
    assert_eq!(launch.alias, "work-web");
    assert_eq!(launch.arguments, ["-F", "/tmp/alternate-config", "--", "work-web"].map(String::from));
    assert_eq!((launch.rows, launch.cols), (18, 58));
    assert!(app.embedded_session_running());
    assert!(app.embedded_terminal_focused());
    assert_eq!(app.activate_selected_host(true), Activation::Nothing);

    app.toggle_embedded_focus();
    assert!(!app.embedded_terminal_focused());
    assert_eq!(app.activate_selected_host(false), Activation::FocusSession);
    assert!(app.embedded_terminal_focused());

    app.set_details_area(40, 2, 70, 20);
    assert_eq!(app.sync_embedded_terminal_size(), Some((18, 68)));
    assert_eq!(app.sync_embedded_terminal_size(), None);

    assert!(app.send_embedded_key());
    app.poll_embedded_session(WaitOutcome::Exited(ExitCode { exit_code: 255, signal: None }));
    assert!(app.embedded_session_failed());
    assert!(!app.send_embedded_key());
    app.close_embedded_session();
    assert!(app.embedded_session.is_none());
}

#[test]
fn opening_a_host_without_inline_sessions_runs_ssh() {
    let mut app = one_host_app(false);
    match app.activate_selected_host(false) {
        Activation::External { alias, arguments } => {
            assert_eq!(alias, "work-web");
            assert_eq!(arguments, ["-F", "/tmp/alternate-config", "--", "work-web"].map(String::from));
        }
        other => panic!("unexpected {other:?}"),
    }
    let mut inline = one_host_app(true);
    assert!(matches!(inline.activate_selected_host(false), Activation::Embedded(_)));
}

#[test]
fn a_clean_exit_closes_the_session() {
    let mut app = one_host_app(true);
    app.start_embedded_session();
    app.poll_embedded_session(WaitOutcome::Exited(ExitCode { exit_code: 0, signal: None }));
    assert!(app.embedded_session.is_none());
}

#[test]
fn mouse_events_over_the_pane_go_to_the_terminal() {
    let mut app = one_host_app(true);
    app.set_details_area(40, 2, 60, 20);
    assert_eq!(app.handle_embedded_mouse(mouse(MouseKind::LeftDown, 45, 5), false), EmbeddedMouseStep::Ignored);
    app.start_embedded_session();
    assert_eq!(app.handle_embedded_mouse(mouse(MouseKind::LeftDown, 10, 5), false), EmbeddedMouseStep::Ignored);
    assert_eq!(app.handle_embedded_mouse(mouse(MouseKind::ScrollUp, 45, 5), false), EmbeddedMouseStep::ScrollUp(3));
    assert_eq!(app.handle_embedded_mouse(mouse(MouseKind::ScrollDown, 45, 5), false), EmbeddedMouseStep::ScrollDown(3));
    assert_eq!(
        app.handle_embedded_mouse(mouse(MouseKind::ScrollUp, 45, 5), true),
        EmbeddedMouseStep::Forward(mouse(MouseKind::ScrollUp, 4, 2))
    );
    assert_eq!(app.handle_embedded_mouse(mouse(MouseKind::LeftDown, 45, 5), false), EmbeddedMouseStep::Handled);
    assert_eq!(app.handle_embedded_mouse(mouse(MouseKind::LeftUp, 48, 5), false), EmbeddedMouseStep::CopySelection);
    let session = app.embedded_session.as_ref().unwrap();
    assert_eq!(
        session.selection_range(),
        Some((TerminalPosition { row: 2, col: 4 }, TerminalPosition { row: 2, col: 7 }))
    );
}
