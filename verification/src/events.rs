//! What a key press or a mouse event means to the browser, given its
//! state: the step that the event loop then carries out.
use vstd::prelude::*;

use crate::app::{App, InputMode, area_holds};
use crate::embedded_session::{EmbeddedFocus, EmbeddedSession, MouseInput, MouseKind};

verus! {

/// A key, as the browser tells keys apart.
#[derive(Debug, Clone, Copy, PartialEq, Eq, Structural)]
pub enum KeyName {
    Enter,
    Esc,
    Backspace,
    Up,
    Down,
    Left,
    Right,
    F(u8),
    Char(char),
    Other,
}

#[derive(Debug, Clone, Copy, PartialEq, Eq, Structural)]
pub enum KeyKind {
    Press,
    Repeat,
    Release,
}

/// A key event: the key, whether it was pressed, repeated or released, and
/// whether Alt or Control was held.
#[derive(Debug, Clone, Copy, PartialEq, Eq, Structural)]
pub struct KeyInput {
    pub code: KeyName,
    pub kind: KeyKind,
    pub alt: bool,
    pub control: bool,
}

/// Alt+Enter opens the selected host in the details pane.
pub open spec fn inline_shortcut(key: KeyInput) -> bool {
    key.alt && key.code == KeyName::Enter
}

pub fn is_inline_shortcut(key: &KeyInput) -> (r: bool)
    ensures
        r == inline_shortcut(*key),
{
    key.alt && key.code == KeyName::Enter
}

/// What a key does.
#[derive(Debug, Clone, Copy, PartialEq, Eq, Structural)]
pub enum KeyCommand {
    Nothing,
    Quit,
    DismissFailure,
    CloseSession,
    ToggleFocus,
    /// The key goes to the embedded terminal.
    ForwardToTerminal,
    ClearSearch,
    /// Leave the search on the selected host and open it in the details
    /// pane.
    RevealAndOpenInline,
    Reveal,
    PopSearch,
    PushSearch(char),
    SelectPrevious,
    SelectNext,
    /// Open the selected host in the details pane.
    OpenInline,
    StartSearch,
    Collapse,
    Expand,
    /// Open the selected host.
    Open,
    ToggleGroup,
}

/// What of the browser's state decides what a key does.
pub struct KeyContext {
    pub failure_shown: bool,
    pub session_failed: bool,
    pub has_session: bool,
    pub terminal_focused: bool,
    pub searching: bool,
    pub host_selected: bool,
}

pub open spec fn key_context(app: App) -> KeyContext {
    KeyContext {
        failure_shown: app.connection_failure is Some,
        session_failed: app.embedded_session matches Some(s) && s.exit is Some,
        has_session: app.embedded_session is Some,
        terminal_focused: app.embedded_session matches Some(s) && s.focus == EmbeddedFocus::Terminal,
        searching: app.input_mode == InputMode::Search,
        host_selected: app.selected_host_index() is Some,
    }
}

/// What a key does. Released keys do nothing. A shown failure or a failed
/// session takes `q` (quit) and Enter or Esc (dismiss it); F5 moves the
/// keyboard between session and tree; a focused terminal gets every other
/// key. While searching, keys edit the search and move the selection;
/// otherwise they move in the tree and open hosts, and `q` or Esc quits.
pub open spec fn key_command_of(c: KeyContext, key: KeyInput) -> KeyCommand {
    if key.kind == KeyKind::Release {
        KeyCommand::Nothing
    } else if c.failure_shown {
        if key.code == KeyName::Char('q') {
            KeyCommand::Quit
        } else if key.code == KeyName::Enter || key.code == KeyName::Esc {
            KeyCommand::DismissFailure
        } else {
            KeyCommand::Nothing
        }
    } else if c.session_failed {
        if key.code == KeyName::Char('q') {
            KeyCommand::Quit
        } else if key.code == KeyName::Enter || key.code == KeyName::Esc {
            KeyCommand::CloseSession
        } else {
            KeyCommand::Nothing
        }
    } else if key.kind == KeyKind::Press && key.code == KeyName::F(5) && c.has_session {
        KeyCommand::ToggleFocus
    } else if c.terminal_focused {
        KeyCommand::ForwardToTerminal
    } else if c.searching {
        match key.code {
            KeyName::Esc => KeyCommand::ClearSearch,
            KeyName::Enter => if inline_shortcut(key) && c.host_selected {
                KeyCommand::RevealAndOpenInline
            } else {
                KeyCommand::Reveal
            },
            KeyName::Backspace => KeyCommand::PopSearch,
            KeyName::Char(ch) => if ch == 'h' && key.control {
                KeyCommand::PopSearch
            } else {
                KeyCommand::PushSearch(ch)
            },
            KeyName::Up => KeyCommand::SelectPrevious,
            KeyName::Down => KeyCommand::SelectNext,
            _ => KeyCommand::Nothing,
        }
    } else if inline_shortcut(key) && c.host_selected {
        KeyCommand::OpenInline
    } else if c.has_session && key.code == KeyName::Char('x') {
        KeyCommand::CloseSession
    } else {
        match key.code {
            KeyName::Char('q') | KeyName::Esc => KeyCommand::Quit,
            KeyName::Char('/') => KeyCommand::StartSearch,
            KeyName::Char('j') | KeyName::Down => KeyCommand::SelectNext,
            KeyName::Char('k') | KeyName::Up => KeyCommand::SelectPrevious,
            KeyName::Char('h') | KeyName::Left => KeyCommand::Collapse,
            KeyName::Char('l') | KeyName::Right => KeyCommand::Expand,
            KeyName::Enter => if c.host_selected {
                KeyCommand::Open
            } else {
                KeyCommand::ToggleGroup
            },
            KeyName::Char(' ') => KeyCommand::ToggleGroup,
            _ => KeyCommand::Nothing,
        }
    }
}

/// In the tree, with no failure shown, no embedded session and no search,
/// the keys do what the key table says: `l` or Right unfolds, `h` or Left
/// folds, `j` or Down and `k` or Up move, `/` searches, `q` or Esc quits.
pub proof fn law_tree_keys(app: App, key: KeyInput)
    requires
        app.connection_failure is None,
        app.embedded_session is None,
        app.input_mode == InputMode::Normal,
        key.kind != KeyKind::Release,
    ensures
        key.code == KeyName::Char('l') || key.code == KeyName::Right ==> key_command_of(
            key_context(app),
            key,
        ) == KeyCommand::Expand,
        key.code == KeyName::Char('h') || key.code == KeyName::Left ==> key_command_of(
            key_context(app),
            key,
        ) == KeyCommand::Collapse,
        key.code == KeyName::Char('j') || key.code == KeyName::Down ==> key_command_of(
            key_context(app),
            key,
        ) == KeyCommand::SelectNext,
        key.code == KeyName::Char('k') || key.code == KeyName::Up ==> key_command_of(
            key_context(app),
            key,
        ) == KeyCommand::SelectPrevious,
        key.code == KeyName::Char('/') ==> key_command_of(key_context(app), key)
            == KeyCommand::StartSearch,
        key.code == KeyName::Char('q') || key.code == KeyName::Esc ==> key_command_of(
            key_context(app),
            key,
        ) == KeyCommand::Quit,
{
}

/// While searching, with no failure shown and no embedded session, Esc
/// leaves the search, Enter reveals the selected result, Backspace deletes,
/// Up and Down move, and a character (but Control-h) is typed into the
/// search.
pub proof fn law_search_keys(app: App, key: KeyInput)
    requires
        app.connection_failure is None,
        app.embedded_session is None,
        app.input_mode == InputMode::Search,
        key.kind != KeyKind::Release,
    ensures
        key.code == KeyName::Esc ==> key_command_of(key_context(app), key) == KeyCommand::ClearSearch,
        key.code == KeyName::Enter && !key.alt ==> key_command_of(key_context(app), key)
            == KeyCommand::Reveal,
        key.code == KeyName::Backspace ==> key_command_of(key_context(app), key)
            == KeyCommand::PopSearch,
        key.code == KeyName::Up ==> key_command_of(key_context(app), key) == KeyCommand::SelectPrevious,
        key.code == KeyName::Down ==> key_command_of(key_context(app), key) == KeyCommand::SelectNext,
        forall|ch: char|
            key.code == KeyName::Char(ch) && !(ch == 'h' && key.control) ==> key_command_of(
                key_context(app),
                key,
            ) == KeyCommand::PushSearch(ch),
{
}

/// While a connection failure is shown, `q` quits, Enter or Esc dismisses
/// it, and every other key does nothing.
pub proof fn law_failure_keys(app: App, key: KeyInput)
    requires
        app.connection_failure is Some,
        key.kind != KeyKind::Release,
    ensures
        key_command_of(key_context(app), key) == if key.code == KeyName::Char('q') {
            KeyCommand::Quit
        } else if key.code == KeyName::Enter || key.code == KeyName::Esc {
            KeyCommand::DismissFailure
        } else {
            KeyCommand::Nothing
        },
{
}

/// A released key never does anything.
pub proof fn law_released_keys_do_nothing(app: App, key: KeyInput)
    requires
        key.kind == KeyKind::Release,
    ensures
        key_command_of(key_context(app), key) == KeyCommand::Nothing,
{
}

/// What a key does to the browser in its present state.
pub fn key_command(app: &App, key: &KeyInput) -> (r: KeyCommand)
    requires
        app.wf(),
    ensures
        r == key_command_of(key_context(*app), *key),
{
    let host_selected = app.selected_host().is_some();
    let searching = app.input_mode == InputMode::Search;
    if key.kind == KeyKind::Release {
        return KeyCommand::Nothing;
    }
    if app.connection_failure.is_some() {
        return if key.code == KeyName::Char('q') {
            KeyCommand::Quit
        } else if key.code == KeyName::Enter || key.code == KeyName::Esc {
            KeyCommand::DismissFailure
        } else {
            KeyCommand::Nothing
        };
    }
    if app.embedded_session_failed() {
        return if key.code == KeyName::Char('q') {
            KeyCommand::Quit
        } else if key.code == KeyName::Enter || key.code == KeyName::Esc {
            KeyCommand::CloseSession
        } else {
            KeyCommand::Nothing
        };
    }
    if key.kind == KeyKind::Press && key.code == KeyName::F(5) && app.embedded_session.is_some() {
        return KeyCommand::ToggleFocus;
    }
    if app.embedded_terminal_focused() {
        return KeyCommand::ForwardToTerminal;
    }
    if searching {
        return match key.code {
            KeyName::Esc => KeyCommand::ClearSearch,
            KeyName::Enter => if is_inline_shortcut(key) && host_selected {
                KeyCommand::RevealAndOpenInline
            } else {
                KeyCommand::Reveal
            },
            KeyName::Backspace => KeyCommand::PopSearch,
            KeyName::Char(ch) => if ch == 'h' && key.control {
                KeyCommand::PopSearch
            } else {
                KeyCommand::PushSearch(ch)
            },
            KeyName::Up => KeyCommand::SelectPrevious,
            KeyName::Down => KeyCommand::SelectNext,
            _ => KeyCommand::Nothing,
        };
    }
    if is_inline_shortcut(key) && host_selected {
        return KeyCommand::OpenInline;
    }
    if app.embedded_session.is_some() && key.code == KeyName::Char('x') {
        return KeyCommand::CloseSession;
    }
    match key.code {
        KeyName::Char('q') | KeyName::Esc => KeyCommand::Quit,
        KeyName::Char('/') => KeyCommand::StartSearch,
        KeyName::Char('j') | KeyName::Down => KeyCommand::SelectNext,
        KeyName::Char('k') | KeyName::Up => KeyCommand::SelectPrevious,
        KeyName::Char('h') | KeyName::Left => KeyCommand::Collapse,
        KeyName::Char('l') | KeyName::Right => KeyCommand::Expand,
        KeyName::Enter => if host_selected {
            KeyCommand::Open
        } else {
            KeyCommand::ToggleGroup
        },
        KeyName::Char(' ') => KeyCommand::ToggleGroup,
        _ => KeyCommand::Nothing,
    }
}

/// Where a mouse event goes.
#[derive(Debug, Clone, Copy, PartialEq, Eq, Structural)]
pub enum MouseRoute {
    Nothing,
    DismissFailure,
    /// To the embedded session.
    Embedded,
    CloseSession,
    /// To the embedded session, which also gets the keyboard; clicks on
    /// the tree start over.
    FocusAndEmbedded,
    SelectNext,
    SelectPrevious,
    StartSearch,
    /// A click on the tree.
    Click,
}

/// Where a mouse event goes. A shown failure is dismissed by a click. With
/// a failed session, events over the details pane go to it and a click
/// elsewhere closes it. With a session, events over the details pane go to
/// it. Other events are for the tree: the wheel moves the selection, a
/// click on the search field starts a search, other clicks select rows.
pub open spec fn mouse_route_of(app: App, mouse: MouseInput) -> MouseRoute {
    let details = area_holds(app.layout.details, mouse.column, mouse.row);
    if app.connection_failure is Some {
        if mouse.kind == MouseKind::LeftDown {
            MouseRoute::DismissFailure
        } else {
            MouseRoute::Nothing
        }
    } else if app.embedded_session matches Some(s) && s.exit is Some {
        if details {
            MouseRoute::Embedded
        } else if mouse.kind == MouseKind::LeftDown {
            MouseRoute::CloseSession
        } else {
            MouseRoute::Nothing
        }
    } else if app.embedded_session is Some && details {
        MouseRoute::FocusAndEmbedded
    } else {
        match mouse.kind {
            MouseKind::ScrollDown => MouseRoute::SelectNext,
            MouseKind::ScrollUp => MouseRoute::SelectPrevious,
            MouseKind::LeftDown => if area_holds(app.layout.search, mouse.column, mouse.row) {
                MouseRoute::StartSearch
            } else {
                MouseRoute::Click
            },
            _ => MouseRoute::Nothing,
        }
    }
}

/// The event is for the tree: no failure is shown and no session takes it.
pub open spec fn for_tree(app: App, mouse: MouseInput) -> bool {
    &&& app.connection_failure is None
    &&& !(app.embedded_session matches Some(s) && s.exit is Some)
    &&& !(app.embedded_session is Some && area_holds(app.layout.details, mouse.column, mouse.row))
}

/// Routes a mouse event; an event for the tree takes the keyboard from
/// the embedded session.
pub fn route_mouse(app: &mut App, mouse: MouseInput) -> (r: MouseRoute)
    ensures
        r == mouse_route_of(*old(app), mouse),
        if for_tree(*old(app), mouse) && old(app).embedded_session is Some {
            *final(app) == (App {
                embedded_session: Some(
                    EmbeddedSession {
                        focus: EmbeddedFocus::Tree,
                        ..old(app).embedded_session->0
                    },
                ),
                ..*old(app)
            })
        } else {
            *final(app) == *old(app)
        },
{
    if app.connection_failure.is_some() {
        return if mouse.kind == MouseKind::LeftDown {
            MouseRoute::DismissFailure
        } else {
            MouseRoute::Nothing
        };
    }
    let details = app.details_contains(mouse.column, mouse.row);
    if app.embedded_session_failed() {
        return if details {
            MouseRoute::Embedded
        } else if mouse.kind == MouseKind::LeftDown {
            MouseRoute::CloseSession
        } else {
            MouseRoute::Nothing
        };
    }
    if app.embedded_session.is_some() && details {
        return MouseRoute::FocusAndEmbedded;
    }
    if app.embedded_session.is_some() {
        app.focus_tree();
    }
    match mouse.kind {
        MouseKind::ScrollDown => MouseRoute::SelectNext,
        MouseKind::ScrollUp => MouseRoute::SelectPrevious,
        MouseKind::LeftDown => if app.search_contains(mouse.column, mouse.row) {
            MouseRoute::StartSearch
        } else {
            MouseRoute::Click
        },
        _ => MouseRoute::Nothing,
    }
}

} // verus!
