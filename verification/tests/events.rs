use ssh_tui_rs::app::{App, ConnectionFailure};
use ssh_tui_rs::embedded_session::{MouseInput, MouseKind};
use ssh_tui_rs::events::{
    KeyCommand, KeyInput, KeyKind, KeyName, MouseRoute, is_inline_shortcut, key_command, route_mouse,
};
use ssh_tui_rs::ssh_config::{GroupEntry, HostEntry, ResolvedHost, SshConfig};

fn key(code: KeyName) -> KeyInput {
    KeyInput { code, kind: KeyKind::Press, alt: false, control: false }
}

fn app() -> App {
    let config = SshConfig {
        source: "config".into(),
        groups: vec![GroupEntry {
            path: vec!["Work".into()],
            description: None,
            expanded_by_default: false,
            source: "config".into(),
            line: 1,
        }],
        hosts: vec![HostEntry {
            alias: "alpha".into(),
            description: None,
            group_path: Vec::new(),
            source: "config".into(),
            line: 2,
            options: Vec::new(),
            resolved: ResolvedHost::default(),
        }],
    };
    App::with_network_checks(config, false)
}

#[test]
fn recognizes_alt_enter_only() {
    assert!(is_inline_shortcut(&KeyInput { code: KeyName::Enter, kind: KeyKind::Press, alt: true, control: false }));
    assert!(!is_inline_shortcut(&KeyInput { code: KeyName::Enter, kind: KeyKind::Press, alt: false, control: true }));
    assert!(!is_inline_shortcut(&KeyInput { code: KeyName::Enter, kind: KeyKind::Press, alt: false, control: false }));
}

#[test]
fn keys_in_the_tree() {
    let mut app = app();
    assert_eq!(key_command(&app, &key(KeyName::Char('q'))), KeyCommand::Quit);
    assert_eq!(key_command(&app, &key(KeyName::Esc)), KeyCommand::Quit);
    assert_eq!(key_command(&app, &key(KeyName::Char('/'))), KeyCommand::StartSearch);
    assert_eq!(key_command(&app, &key(KeyName::Down)), KeyCommand::SelectNext);
    assert_eq!(key_command(&app, &key(KeyName::Char('k'))), KeyCommand::SelectPrevious);
    assert_eq!(key_command(&app, &key(KeyName::Enter)), KeyCommand::Open);
    let alt_enter = KeyInput { alt: true, ..key(KeyName::Enter) };
    assert_eq!(key_command(&app, &alt_enter), KeyCommand::OpenInline);
    app.select_next();
    assert_eq!(key_command(&app, &key(KeyName::Enter)), KeyCommand::ToggleGroup);
    assert_eq!(key_command(&app, &key(KeyName::Char(' '))), KeyCommand::ToggleGroup);
    let released = KeyInput { kind: KeyKind::Release, ..key(KeyName::Char('q')) };
    assert_eq!(key_command(&app, &released), KeyCommand::Nothing);
}

#[test]
fn keys_while_searching_edit_the_search() {
    let mut app = app();
    app.start_search();
    assert_eq!(key_command(&app, &key(KeyName::Char('q'))), KeyCommand::PushSearch('q'));
    let control_h = KeyInput { control: true, ..key(KeyName::Char('h')) };
    assert_eq!(key_command(&app, &control_h), KeyCommand::PopSearch);
    assert_eq!(key_command(&app, &key(KeyName::Esc)), KeyCommand::ClearSearch);
    assert_eq!(key_command(&app, &key(KeyName::Enter)), KeyCommand::Reveal);
    let alt_enter = KeyInput { alt: true, ..key(KeyName::Enter) };
    assert_eq!(key_command(&app, &alt_enter), KeyCommand::RevealAndOpenInline);
}

#[test]
fn a_shown_failure_takes_the_keys() {
    let mut app = app();
    app.show_connection_failure(ConnectionFailure { alias: "alpha".into(), message: "refused".into(), exit_status: Some(255) });
    assert_eq!(key_command(&app, &key(KeyName::Char('j'))), KeyCommand::Nothing);
    assert_eq!(key_command(&app, &key(KeyName::Esc)), KeyCommand::DismissFailure);
    assert_eq!(key_command(&app, &key(KeyName::Char('q'))), KeyCommand::Quit);
    let click = MouseInput { kind: MouseKind::LeftDown, column: 0, row: 0, shift: false };
    assert_eq!(route_mouse(&mut app, click), MouseRoute::DismissFailure);
}

#[test]
fn a_focused_session_gets_the_keys_and_f5_switches() {
    let mut app = app();
    app.set_details_area(40, 2, 60, 20);
    app.start_embedded_session();
    assert_eq!(key_command(&app, &key(KeyName::Char('j'))), KeyCommand::ForwardToTerminal);
    assert_eq!(key_command(&app, &key(KeyName::F(5))), KeyCommand::ToggleFocus);
    app.toggle_embedded_focus();
    assert_eq!(key_command(&app, &key(KeyName::Char('x'))), KeyCommand::CloseSession);
    let inside = MouseInput { kind: MouseKind::LeftDown, column: 45, row: 5, shift: false };
    assert_eq!(route_mouse(&mut app, inside), MouseRoute::FocusAndEmbedded);
    app.focus_embedded_terminal();
    let outside = MouseInput { kind: MouseKind::ScrollDown, column: 1, row: 5, shift: false };
    assert_eq!(route_mouse(&mut app, outside), MouseRoute::SelectNext);
    assert!(!app.embedded_terminal_focused());
}

#[test]
fn clicks_on_the_search_field_start_a_search() {
    let mut app = app();
    app.set_search_area(0, 0, 30, 3);
    let click = MouseInput { kind: MouseKind::LeftDown, column: 5, row: 1, shift: false };
    assert_eq!(route_mouse(&mut app, click), MouseRoute::StartSearch);
    let elsewhere = MouseInput { row: 7, ..click };
    assert_eq!(route_mouse(&mut app, elsewhere), MouseRoute::Click);
}
