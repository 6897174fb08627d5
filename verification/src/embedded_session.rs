//! The state of an SSH session that runs inside the details pane: its
//! focus, how it ended, its size and the text selection made with the
//! mouse. The terminal itself (a pseudoterminal with its screen) is driven
//! by the caller, which reports what it observes and performs what this
//! state decides.
use vstd::prelude::*;

use crate::text::{
    chars_of,
    decimal,
    decimal_chars,
    join,
    join_chars,
    lines,
    lines_chars,
    string_from,
    trim_end,
    trim_end_chars,
    views,
};

verus! {

#[derive(Debug, Clone, Copy, PartialEq, Eq, Structural)]
pub enum EmbeddedFocus {
    Terminal,
    Tree,
}

/// How a process ended: its exit code, and the signal that ended it if
/// one did.
#[derive(Debug, Clone, Copy, PartialEq, Eq, Structural)]
pub struct ExitCode {
    pub exit_code: u32,
    pub signal: Option<u32>,
}

impl ExitCode {
    /// A clean exit: code zero and no signal.
    pub fn success(&self) -> (r: bool)
        ensures
            r == (self.signal is None && self.exit_code == 0),
    {
        self.signal.is_none() && self.exit_code == 0
    }
}

#[derive(Debug, Clone, PartialEq, Eq)]
pub enum EmbeddedExit {
    Failed(ExitCode),
    Error(String),
}

#[derive(Debug, Clone, Copy, PartialEq, Eq, Structural)]
pub enum EmbeddedPoll {
    Running,
    Succeeded,
    Failed,
}

#[derive(Debug, Clone, PartialEq, Eq)]
pub enum EmbeddedMouseAction {
    Ignored,
    Handled,
    Copy(String),
}

/// What waiting on the session's process observed.
#[derive(Debug, Clone, PartialEq, Eq)]
pub enum WaitOutcome {
    Running,
    Exited(ExitCode),
    Error(String),
}

/// A cell of the terminal screen.
#[derive(Debug, Clone, Copy, PartialEq, Eq, Structural)]
pub struct TerminalPosition {
    pub row: u16,
    pub col: u16,
}

#[derive(Debug, Clone, Copy, PartialEq, Eq, Structural)]
pub struct TerminalSelection {
    pub start: TerminalPosition,
    pub end: TerminalPosition,
    pub dragging: bool,
}

#[derive(Debug, Clone, Copy, PartialEq, Eq, Structural)]
pub enum MouseKind {
    LeftDown,
    LeftDrag,
    LeftUp,
    ScrollUp,
    ScrollDown,
    Other,
}

/// A mouse event: its kind, its cell, and whether Shift was held.
#[derive(Debug, Clone, Copy, PartialEq, Eq, Structural)]
pub struct MouseInput {
    pub kind: MouseKind,
    pub column: u16,
    pub row: u16,
    pub shift: bool,
}

/// What to do with a mouse event.
#[derive(Debug, Clone, Copy, PartialEq, Eq, Structural)]
pub enum MouseDecision {
    Ignored,
    Handled,
    /// The selection is finished: copy its text.
    CopySelection,
    /// Hand the event to the program in the terminal.
    Forward,
}

/// An embedded SSH session.
#[derive(Debug, Clone, PartialEq, Eq)]
pub struct EmbeddedSession {
    pub alias: String,
    pub focus: EmbeddedFocus,
    pub exit: Option<EmbeddedExit>,
    pub rows: u16,
    pub cols: u16,
    pub selection: Option<TerminalSelection>,
}

/// A terminal is at least one row and one column.
pub open spec fn clamp_size(rows: u16, cols: u16) -> (u16, u16) {
    (if rows < 1 {
        1
    } else {
        rows
    }, if cols < 1 {
        1
    } else {
        cols
    })
}

pub fn terminal_size(rows: u16, cols: u16) -> (r: (u16, u16))
    ensures
        r == clamp_size(rows, cols),
{
    (if rows < 1 {
        1
    } else {
        rows
    }, if cols < 1 {
        1
    } else {
        cols
    })
}

/// A cell clamped to the screen.
pub open spec fn clamp_to(rows: u16, cols: u16, row: u16, col: u16) -> TerminalPosition {
    TerminalPosition {
        row: if row < (if rows >= 1 { rows - 1 } else { 0 }) {
            row
        } else {
            (if rows >= 1 { rows - 1 } else { 0 }) as u16
        },
        col: if col < (if cols >= 1 { cols - 1 } else { 0 }) {
            col
        } else {
            (if cols >= 1 { cols - 1 } else { 0 }) as u16
        },
    }
}

/// Start and end of a selection, in reading order.
pub open spec fn ordered(s: TerminalSelection) -> (TerminalPosition, TerminalPosition) {
    if s.start.row < s.end.row || (s.start.row == s.end.row && s.start.col <= s.end.col) {
        (s.start, s.end)
    } else {
        (s.end, s.start)
    }
}

/// A selection's ends, put in reading order, are its two ends, the first
/// not after the second; dragging either way selects the same range.
pub proof fn law_selection_in_reading_order(s: TerminalSelection)
    ensures
        ({
            let (a, b) = ordered(s);
            &&& (a == s.start && b == s.end) || (a == s.end && b == s.start)
            &&& a.row < b.row || (a.row == b.row && a.col <= b.col)
            &&& ordered(TerminalSelection { start: s.end, end: s.start, dragging: s.dragging }) == (a, b)
        }),
{
}

/// A clamped position lies in the terminal (in its first row and column
/// where it has none), and a position already inside is kept.
pub proof fn law_clamped_position_in_terminal(rows: u16, cols: u16, row: u16, col: u16)
    ensures
        rows > 0 ==> clamp_to(rows, cols, row, col).row < rows,
        cols > 0 ==> clamp_to(rows, cols, row, col).col < cols,
        clamp_to(rows, cols, row, col).row <= row,
        clamp_to(rows, cols, row, col).col <= col,
        row < rows && col < cols ==> clamp_to(rows, cols, row, col) == (TerminalPosition { row, col }),
{
}

/// Selected text as it is copied: each line without trailing whitespace.
pub open spec fn tidy_text(text: Seq<char>) -> Seq<char> {
    join(lines(text).map_values(|l: Seq<char>| trim_end(l)), seq!['\n'])
}

/// `t` is line `l` with its trailing whitespace removed and nothing else:
/// a prefix of `l`, followed in `l` by whitespace only, and not itself
/// ending in whitespace.
pub open spec fn without_trailing_ws(t: Seq<char>, l: Seq<char>) -> bool {
    &&& t.len() <= l.len()
    &&& t == l.take(t.len() as int)
    &&& forall|k: int| t.len() <= k < l.len() ==> crate::text::is_ws(#[trigger] l[k])
    &&& t.len() > 0 ==> !crate::text::is_ws(t.last())
}

/// Copied text is the selected lines, joined by line breaks, each with its
/// trailing whitespace removed: leading whitespace stays, and a line that
/// ends in another character is copied whole.
pub proof fn law_copied_lines_lose_only_trailing_whitespace(text: Seq<char>)
    ensures
        exists|ls: Seq<Seq<char>>|
            #![trigger join(ls, seq!['\n'])]
            {
                &&& tidy_text(text) == join(ls, seq!['\n'])
                &&& ls.len() == lines(text).len()
                &&& forall|i: int|
                    0 <= i < ls.len() ==> {
                        &&& without_trailing_ws(#[trigger] ls[i], lines(text)[i])
                        &&& (lines(text)[i].len() == 0 || !crate::text::is_ws(lines(text)[i].last()))
                            ==> ls[i] == lines(text)[i]
                    }
            },
{
    let src = lines(text);
    let ls = src.map_values(|l: Seq<char>| trim_end(l));
    assert forall|i: int| 0 <= i < ls.len() implies {
        &&& without_trailing_ws(#[trigger] ls[i], src[i])
        &&& (src[i].len() == 0 || !crate::text::is_ws(src[i].last())) ==> ls[i] == src[i]
    } by {
        let l = src[i];
        crate::text::lemma_back_ws_bounds(l, 0, l.len() as int);
        let b = crate::text::back_ws(l, 0, l.len() as int);
        assert(ls[i] == l.subrange(0, b));
        assert(l.subrange(0, b) =~= l.take(b));
        if b > 0 {
            assert(ls[i].last() == l[b - 1]);
        }
        if l.len() == 0 || !crate::text::is_ws(l.last()) {
            if b < l.len() {
                assert(crate::text::is_ws(l[l.len() - 1]));
            }
            assert(l.take(b) =~= l);
        }
    }
    assert(tidy_text(text) == join(ls, seq!['\n']));
}

pub fn tidy_selected_text(text: &str) -> (r: String)
    ensures
        r@ == tidy_text(text@),
{
    let t = chars_of(text);
    let ls = lines_chars(&t);
    let mut trimmed: Vec<Vec<char>> = Vec::new();
    let mut i: usize = 0;
    while i < ls.len()
        invariant
            i <= ls.len(),
            views(trimmed@) == views(ls@).take(i as int).map_values(|l: Seq<char>| trim_end(l)),
        decreases ls.len() - i,
    {
        let c = trim_end_chars(&ls[i]);
        let ghost before = trimmed@;
        trimmed.push(c);
        assert(trimmed@ =~= before.push(c));
        assert(views(trimmed@) =~= views(before).push(c@));
        assert(views(ls@).take(i + 1).map_values(|l: Seq<char>| trim_end(l)) =~= views(ls@).take(
            i as int,
        ).map_values(|l: Seq<char>| trim_end(l)).push(trim_end(ls@[i as int]@)));
        i = i + 1;
    }
    assert(views(ls@).take(i as int) =~= views(ls@));
    let mut sep: Vec<char> = Vec::new();
    sep.push('\n');
    assert(sep@ =~= seq!['\n']);
    let joined = join_chars(&trimmed, &sep);
    string_from(&joined)
}

pub open spec fn exit_label_of(exit: Option<EmbeddedExit>) -> Option<Seq<char>> {
    match exit {
        Some(EmbeddedExit::Failed(status)) => match status.signal {
            Some(s) => Some(seq!['s', 'i', 'g', 'n', 'a', 'l', ' '] + decimal(s as nat)),
            None => Some(seq!['e', 'x', 'i', 't', ' '] + decimal(status.exit_code as nat)),
        },
        Some(EmbeddedExit::Error(e)) => Some(e@),
        None => None,
    }
}

/// The outcome of a poll, and the session after it.
pub open spec fn polled(s: EmbeddedSession, outcome: WaitOutcome) -> (EmbeddedPoll, EmbeddedSession) {
    if s.exit is Some {
        (EmbeddedPoll::Failed, s)
    } else {
        match outcome {
            WaitOutcome::Running => (EmbeddedPoll::Running, s),
            WaitOutcome::Exited(status) => if status.signal is None && status.exit_code == 0 {
                (EmbeddedPoll::Succeeded, s)
            } else {
                (
                    EmbeddedPoll::Failed,
                    EmbeddedSession {
                        exit: Some(EmbeddedExit::Failed(status)),
                        focus: EmbeddedFocus::Tree,
                        ..s
                    },
                )
            },
            WaitOutcome::Error(e) => (
                EmbeddedPoll::Failed,
                EmbeddedSession { exit: Some(EmbeddedExit::Error(e)), focus: EmbeddedFocus::Tree, ..s },
            ),
        }
    }
}

/// Selected text as it is copied: tidied, and only when something is left.
pub fn selection_text(raw: &str) -> (r: Option<String>)
    ensures
        match r {
            Some(t) => t@ == tidy_text(raw@) && t@.len() > 0,
            None => tidy_text(raw@).len() == 0,
        },
{
    let text = tidy_selected_text(raw);
    if text.as_str().is_empty() {
        None
    } else {
        Some(text)
    }
}

/// What a finished mouse selection does: copy its text, if any.
pub fn copy_action(text: Option<String>) -> (r: EmbeddedMouseAction)
    ensures
        r == match text {
            Some(t) => if t@.len() > 0 {
                EmbeddedMouseAction::Copy(t)
            } else {
                EmbeddedMouseAction::Handled
            },
            None => EmbeddedMouseAction::Handled,
        },
{
    match text {
        Some(t) => if t.as_str().is_empty() {
            EmbeddedMouseAction::Handled
        } else {
            EmbeddedMouseAction::Copy(t)
        },
        None => EmbeddedMouseAction::Handled,
    }
}

/// What a mouse event over the terminal does, and the session after it.
/// With Shift held, or when the program does not take the mouse, a left
/// press starts a selection; while one is being made, dragging extends it
/// and the release finishes it. Other events go to the program while it
/// runs, and drop the selection.
pub open spec fn mouse_outcome(s: EmbeddedSession, mouse: MouseInput, reports_mouse: bool) -> (
    MouseDecision,
    EmbeddedSession,
) {
    let pos = clamp_to(s.rows, s.cols, mouse.row, mouse.column);
    let selecting = s.selection matches Some(sel) && sel.dragging;
    let override_guest = mouse.shift || !reports_mouse;
    if mouse.kind == MouseKind::LeftDown && override_guest {
        (
            MouseDecision::Handled,
            EmbeddedSession {
                selection: Some(TerminalSelection { start: pos, end: pos, dragging: true }),
                ..s
            },
        )
    } else if mouse.kind == MouseKind::LeftDrag && selecting {
        (
            MouseDecision::Handled,
            EmbeddedSession {
                selection: Some(TerminalSelection { end: pos, ..s.selection->0 }),
                ..s
            },
        )
    } else if mouse.kind == MouseKind::LeftUp && selecting {
        (
            MouseDecision::CopySelection,
            EmbeddedSession {
                selection: Some(TerminalSelection { end: pos, dragging: false, ..s.selection->0 }),
                ..s
            },
        )
    } else if s.exit is None {
        (MouseDecision::Forward, EmbeddedSession { selection: None, ..s })
    } else {
        (MouseDecision::Ignored, s)
    }
}

impl EmbeddedSession {
    /// The state of a session that has just been started.
    pub fn new(alias: String, rows: u16, cols: u16) -> (r: EmbeddedSession)
        ensures
            r.alias == alias,
            r.focus == EmbeddedFocus::Terminal,
            r.exit is None,
            (r.rows, r.cols) == clamp_size(rows, cols),
            r.selection is None,
    {
        let (rows, cols) = terminal_size(rows, cols);
        EmbeddedSession {
            alias,
            focus: EmbeddedFocus::Terminal,
            exit: None,
            rows,
            cols,
            selection: None,
        }
    }

    pub fn is_running(&self) -> (r: bool)
        ensures
            r == self.exit is None,
    {
        self.exit.is_none()
    }

    /// Takes in what waiting on the process observed. A session that has
    /// ended stays failed; a clean exit succeeds; any other exit or error is
    /// recorded and hands the focus back to the tree.
    pub fn poll(&mut self, outcome: WaitOutcome) -> (r: EmbeddedPoll)
        ensures
            (r, *final(self)) == polled(*old(self), outcome),
    {
        if self.exit.is_some() {
            return EmbeddedPoll::Failed;
        }
        match outcome {
            WaitOutcome::Running => EmbeddedPoll::Running,
            WaitOutcome::Exited(status) => {
                if status.success() {
                    EmbeddedPoll::Succeeded
                } else {
                    self.exit = Some(EmbeddedExit::Failed(status));
                    self.focus = EmbeddedFocus::Tree;
                    EmbeddedPoll::Failed
                }
            },
            WaitOutcome::Error(e) => {
                self.exit = Some(EmbeddedExit::Error(e));
                self.focus = EmbeddedFocus::Tree;
                EmbeddedPoll::Failed
            },
        }
    }

    /// The size the terminal must be given for a pane of `rows` by `cols`,
    /// or `None` when it already has it.
    pub fn pending_resize(&self, rows: u16, cols: u16) -> (r: Option<(u16, u16)>)
        ensures
            r == if clamp_size(rows, cols) == (self.rows, self.cols) {
                None
            } else {
                Some(clamp_size(rows, cols))
            },
    {
        let size = terminal_size(rows, cols);
        if size.0 == self.rows && size.1 == self.cols {
            None
        } else {
            Some(size)
        }
    }

    /// Records the size the terminal was given.
    pub fn record_size(&mut self, size: (u16, u16))
        ensures
            *final(self) == (EmbeddedSession { rows: size.0, cols: size.1, ..*old(self) }),
    {
        self.rows = size.0;
        self.cols = size.1;
    }

    pub fn clamp_position(&self, row: u16, col: u16) -> (r: TerminalPosition)
        ensures
            r == clamp_to(self.rows, self.cols, row, col),
    {
        let max_row = self.rows.saturating_sub(1);
        let max_col = self.cols.saturating_sub(1);
        TerminalPosition {
            row: if row < max_row {
                row
            } else {
                max_row
            },
            col: if col < max_col {
                col
            } else {
                max_col
            },
        }
    }

    /// A mouse event over the terminal. With Shift held, or when the
    /// program does not take the mouse, a left press starts a selection,
    /// dragging extends it and the release finishes it (its text is then
    /// copied). Other events go to the program while it runs.
    pub fn handle_mouse(&mut self, mouse: MouseInput, reports_mouse: bool) -> (r: MouseDecision)
        ensures
            (r, *final(self)) == mouse_outcome(*old(self), mouse, reports_mouse),
    {
        let pos = self.clamp_position(mouse.row, mouse.column);
        let selecting = match self.selection {
            Some(s) => s.dragging,
            None => false,
        };
        let override_guest = mouse.shift || !reports_mouse;
        if mouse.kind == MouseKind::LeftDown && override_guest {
            self.selection = Some(TerminalSelection { start: pos, end: pos, dragging: true });
            MouseDecision::Handled
        } else if mouse.kind == MouseKind::LeftDrag && selecting {
            match self.selection {
                Some(s) => {
                    self.selection = Some(TerminalSelection { start: s.start, end: pos, dragging: s.dragging });
                },
                None => {},
            }
            MouseDecision::Handled
        } else if mouse.kind == MouseKind::LeftUp && selecting {
            match self.selection {
                Some(s) => {
                    self.selection = Some(TerminalSelection { start: s.start, end: pos, dragging: false });
                },
                None => {},
            }
            MouseDecision::CopySelection
        } else if self.is_running() {
            self.selection = None;
            MouseDecision::Forward
        } else {
            MouseDecision::Ignored
        }
    }

    /// The selection, start and end in reading order.
    pub fn selection_range(&self) -> (r: Option<(TerminalPosition, TerminalPosition)>)
        ensures
            r == match self.selection {
                Some(s) => Some(ordered(s)),
                None => None,
            },
    {
        match self.selection {
            Some(s) => {
                if s.start.row < s.end.row || (s.start.row == s.end.row && s.start.col <= s.end.col) {
                    Some((s.start, s.end))
                } else {
                    Some((s.end, s.start))
                }
            },
            None => None,
        }
    }

    pub fn clear_selection(&mut self)
        ensures
            *final(self) == (EmbeddedSession { selection: None, ..*old(self) }),
    {
        self.selection = None;
    }

    /// How the session ended, for the user: `signal N`, `exit N` or the
    /// error's text.
    pub fn exit_label(&self) -> (r: Option<String>)
        ensures
            match r {
                Some(s) => exit_label_of(self.exit) == Some(s@),
                None => exit_label_of(self.exit) is None,
            },
    {
        match &self.exit {
            Some(EmbeddedExit::Failed(status)) => {
                let (mut prefix, n) = match status.signal {
                    Some(s) => (chars_of("signal "), s),
                    None => (chars_of("exit "), status.exit_code),
                };
                proof {
                    reveal_strlit("signal ");
                    reveal_strlit("exit ");
                }
                let ghost p0 = prefix@;
                assert(status.signal is Some ==> p0 =~= seq!['s', 'i', 'g', 'n', 'a', 'l', ' ']);
                assert(status.signal is None ==> p0 =~= seq!['e', 'x', 'i', 't', ' ']);
                let digits = decimal_chars(n as u64);
                crate::text::append(&mut prefix, &digits);
                Some(string_from(&prefix))
            },
            Some(EmbeddedExit::Error(e)) => Some(e.clone()),
            None => None,
        }
    }
}

} // verus!
