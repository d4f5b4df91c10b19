use vstd::prelude::*;

verus! {

/// The keys the list reacts to; every other key is `Other`.
#[derive(Clone, Copy, PartialEq, Eq, Structural, Debug)]
pub enum Key {
    Backspace,
    Delete,
    Left,
    Right,
    Up,
    Down,
    Home,
    End,
    Enter,
    Esc,
    Tab,
    Char(char),
    Other,
}

/// A key press with the modifiers that matter here.
#[derive(Clone, Copy, Debug)]
pub struct KeyPress {
    pub key: Key,
    pub ctrl: bool,
    pub shift: bool,
}

/// A change to a one-line text field.
#[derive(Clone, Copy, PartialEq, Eq, Structural, Debug)]
pub enum EditRequest {
    InsertChar(char),
    GoToPrevChar,
    GoToNextChar,
    GoToPrevWord,
    GoToNextWord,
    GoToStart,
    GoToEnd,
    DeletePrevChar,
    DeleteNextChar,
    DeletePrevWord,
    DeleteLine,
    DeleteTillEnd,
}

/// Typing mode (new items are typed in `Insert`) or command mode (`Normal`).
#[derive(Clone, Copy, PartialEq, Eq, Structural, Debug)]
pub enum Mode {
    Insert,
    Normal,
}

/// What a key press asks the list to do.
#[derive(Clone, Copy, PartialEq, Eq, Structural, Debug)]
pub enum Action {
    Quit,
    EnterInsert,
    EnterNormal,
    Input(EditRequest),
    CommitInsert,
    Select(isize),
    Reorder(isize),
    Indent,
    Outdent,
    Collapse(bool),
    ToggleDone,
    Delete,
    Undo,
    Yank,
    ProjectSelect(usize),
    MoveProject(isize),
    MoveToProject(isize),
    OpenEdit,
    OpenDue,
    OpenSubtask,
    OpenNewProject,
    OpenRenameProject,
    DeleteProject,
    PopupInput(EditRequest),
    PopupCommit,
    PopupCancel,
}

/// The parts of the screen state that decide what a key means.
#[derive(Clone, Copy, Debug)]
pub struct KeyContext {
    pub popup_open: bool,
    pub tab_held: bool,
    pub mode: Mode,
    /// The quick-add line holds no text.
    pub input_empty: bool,
}

/// The text-field edit a key press stands for.
pub open spec fn edit_request_spec(k: KeyPress) -> Option<EditRequest> {
    let ctrl = k.ctrl;
    match k.key {
        Key::Backspace => Some(
            if ctrl {
                EditRequest::DeletePrevWord
            } else {
                EditRequest::DeletePrevChar
            },
        ),
        Key::Delete => Some(EditRequest::DeleteNextChar),
        Key::Left => Some(
            if ctrl {
                EditRequest::GoToPrevWord
            } else {
                EditRequest::GoToPrevChar
            },
        ),
        Key::Right => Some(
            if ctrl {
                EditRequest::GoToNextWord
            } else {
                EditRequest::GoToNextChar
            },
        ),
        Key::Home => Some(EditRequest::GoToStart),
        Key::End => Some(EditRequest::GoToEnd),
        Key::Char(c) => if ctrl {
            if c == 'w' {
                Some(EditRequest::DeletePrevWord)
            } else if c == 'u' {
                Some(EditRequest::DeleteLine)
            } else if c == 'a' {
                Some(EditRequest::GoToStart)
            } else if c == 'e' {
                Some(EditRequest::GoToEnd)
            } else if c == 'k' {
                Some(EditRequest::DeleteTillEnd)
            } else {
                None
            }
        } else {
            Some(EditRequest::InsertChar(c))
        },
        _ => None,
    }
}

/// Maps a key press to a text-field edit (cursor moves and word deletion included).
pub fn edit_request(k: KeyPress) -> (r: Option<EditRequest>)
    ensures
        r == edit_request_spec(k),
{
    let ctrl = k.ctrl;
    match k.key {
        Key::Backspace => Some(
            if ctrl {
                EditRequest::DeletePrevWord
            } else {
                EditRequest::DeletePrevChar
            },
        ),
        Key::Delete => Some(EditRequest::DeleteNextChar),
        Key::Left => Some(
            if ctrl {
                EditRequest::GoToPrevWord
            } else {
                EditRequest::GoToPrevChar
            },
        ),
        Key::Right => Some(
            if ctrl {
                EditRequest::GoToNextWord
            } else {
                EditRequest::GoToNextChar
            },
        ),
        Key::Home => Some(EditRequest::GoToStart),
        Key::End => Some(EditRequest::GoToEnd),
        Key::Char(c) => if ctrl {
            if c == 'w' {
                Some(EditRequest::DeletePrevWord)
            } else if c == 'u' {
                Some(EditRequest::DeleteLine)
            } else if c == 'a' {
                Some(EditRequest::GoToStart)
            } else if c == 'e' {
                Some(EditRequest::GoToEnd)
            } else if c == 'k' {
                Some(EditRequest::DeleteTillEnd)
            } else {
                None
            }
        } else {
            Some(EditRequest::InsertChar(c))
        },
        _ => None,
    }
}

/// Arrow-key navigation shared by both modes (`None`: the key is not a navigation key).
/// While text is being typed, plain and shifted left/right are left to the cursor.
pub open spec fn nav_spec(ctx: KeyContext, k: KeyPress) -> Option<Action> {
    let editing = ctx.mode == Mode::Insert && !ctx.input_empty;
    match k.key {
        Key::Left => if k.ctrl && k.shift {
            Some(Action::MoveToProject(-1isize))
        } else if k.shift && !editing {
            Some(Action::Indent)
        } else if !editing {
            Some(Action::Collapse(true))
        } else {
            None
        },
        Key::Right => if k.ctrl && k.shift {
            Some(Action::MoveToProject(1isize))
        } else if k.shift && !editing {
            Some(Action::Outdent)
        } else if !editing {
            Some(Action::Collapse(false))
        } else {
            None
        },
        Key::Up => Some(
            if k.shift {
                Action::Reorder(-1isize)
            } else {
                Action::Select(-1isize)
            },
        ),
        Key::Down => Some(
            if k.shift {
                Action::Reorder(1isize)
            } else {
                Action::Select(1isize)
            },
        ),
        _ => None,
    }
}

/// Command-mode bindings.
pub open spec fn normal_spec(k: KeyPress) -> Option<Action> {
    match k.key {
        Key::Esc => Some(Action::EnterInsert),
        Key::Char(c) => if c == 'q' {
            Some(Action::Quit)
        } else if c == 'i' || c == 'a' {
            Some(Action::EnterInsert)
        } else if c == 'e' {
            Some(Action::OpenEdit)
        } else if c == 't' {
            Some(Action::OpenDue)
        } else if c == 's' {
            Some(Action::OpenSubtask)
        } else if c == 'd' {
            Some(Action::Delete)
        } else if c == 'u' {
            Some(Action::Undo)
        } else if c == 'y' {
            Some(Action::Yank)
        } else if c == 'n' {
            Some(Action::OpenNewProject)
        } else if c == 'r' {
            Some(Action::OpenRenameProject)
        } else if c == 'x' {
            Some(Action::DeleteProject)
        } else if c == '<' || c == ',' {
            Some(Action::MoveToProject(-1isize))
        } else if c == '>' || c == '.' {
            Some(Action::MoveToProject(1isize))
        } else if c == '{' || c == '[' {
            Some(Action::MoveProject(-1isize))
        } else if c == '}' || c == ']' {
            Some(Action::MoveProject(1isize))
        } else if '1' <= c && c <= '5' {
            Some(Action::ProjectSelect((c as u32 - '1' as u32) as usize))
        } else if c == ' ' {
            Some(Action::ToggleDone)
        } else if c == 'j' {
            Some(Action::Select(1isize))
        } else if c == 'k' {
            Some(Action::Select(-1isize))
        } else if c == 'l' {
            Some(Action::Collapse(false))
        } else if c == 'h' {
            Some(Action::Collapse(true))
        } else {
            None
        },
        _ => None,
    }
}

/// What a key press means in the given screen state.
pub open spec fn map_key_spec(ctx: KeyContext, k: KeyPress) -> Option<Action> {
    if ctx.popup_open {
        match k.key {
            Key::Esc => Some(Action::PopupCancel),
            Key::Enter => Some(Action::PopupCommit),
            _ => match edit_request_spec(k) {
                Some(e) => Some(Action::PopupInput(e)),
                None => None,
            },
        }
    } else if ctx.tab_held {
        match k.key {
            Key::Left => Some(Action::MoveToProject(-1isize)),
            Key::Right => Some(Action::MoveToProject(1isize)),
            _ => None,
        }
    } else if nav_spec(ctx, k) is Some {
        nav_spec(ctx, k)
    } else {
        match ctx.mode {
            Mode::Insert => match k.key {
                Key::Esc => Some(Action::EnterNormal),
                Key::Enter => Some(Action::CommitInsert),
                _ => match edit_request_spec(k) {
                    Some(e) => Some(Action::Input(e)),
                    None => None,
                },
            },
            Mode::Normal => normal_spec(k),
        }
    }
}

fn nav(ctx: KeyContext, k: KeyPress) -> (r: Option<Action>)
    ensures
        r == nav_spec(ctx, k),
{
    let editing = ctx.mode == Mode::Insert && !ctx.input_empty;
    match k.key {
        Key::Left => if k.ctrl && k.shift {
            Some(Action::MoveToProject(-1isize))
        } else if k.shift && !editing {
            Some(Action::Indent)
        } else if !editing {
            Some(Action::Collapse(true))
        } else {
            None
        },
        Key::Right => if k.ctrl && k.shift {
            Some(Action::MoveToProject(1isize))
        } else if k.shift && !editing {
            Some(Action::Outdent)
        } else if !editing {
            Some(Action::Collapse(false))
        } else {
            None
        },
        Key::Up => Some(
            if k.shift {
                Action::Reorder(-1isize)
            } else {
                Action::Select(-1isize)
            },
        ),
        Key::Down => Some(
            if k.shift {
                Action::Reorder(1isize)
            } else {
                Action::Select(1isize)
            },
        ),
        _ => None,
    }
}

fn normal(k: KeyPress) -> (r: Option<Action>)
    ensures
        r == normal_spec(k),
{
    match k.key {
        Key::Esc => Some(Action::EnterInsert),
        Key::Char(c) => if c == 'q' {
            Some(Action::Quit)
        } else if c == 'i' || c == 'a' {
            Some(Action::EnterInsert)
        } else if c == 'e' {
            Some(Action::OpenEdit)
        } else if c == 't' {
            Some(Action::OpenDue)
        } else if c == 's' {
            Some(Action::OpenSubtask)
        } else if c == 'd' {
            Some(Action::Delete)
        } else if c == 'u' {
            Some(Action::Undo)
        } else if c == 'y' {
            Some(Action::Yank)
        } else if c == 'n' {
            Some(Action::OpenNewProject)
        } else if c == 'r' {
            Some(Action::OpenRenameProject)
        } else if c == 'x' {
            Some(Action::DeleteProject)
        } else if c == '<' || c == ',' {
            Some(Action::MoveToProject(-1isize))
        } else if c == '>' || c == '.' {
            Some(Action::MoveToProject(1isize))
        } else if c == '{' || c == '[' {
            Some(Action::MoveProject(-1isize))
        } else if c == '}' || c == ']' {
            Some(Action::MoveProject(1isize))
        } else if '1' <= c && c <= '5' {
            Some(Action::ProjectSelect((c as u32 - '1' as u32) as usize))
        } else if c == ' ' {
            Some(Action::ToggleDone)
        } else if c == 'j' {
            Some(Action::Select(1isize))
        } else if c == 'k' {
            Some(Action::Select(-1isize))
        } else if c == 'l' {
            Some(Action::Collapse(false))
        } else if c == 'h' {
            Some(Action::Collapse(true))
        } else {
            None
        },
        _ => None,
    }
}

/// The action a key press stands for: popup editing first, then sending the item to a
/// neighbouring tab while Tab is held, then navigation, then the mode's own bindings.
pub fn map_key(ctx: KeyContext, k: KeyPress) -> (r: Option<Action>)
    ensures
        r == map_key_spec(ctx, k),
{
    if ctx.popup_open {
        return match k.key {
            Key::Esc => Some(Action::PopupCancel),
            Key::Enter => Some(Action::PopupCommit),
            _ => match edit_request(k) {
                Some(e) => Some(Action::PopupInput(e)),
                None => None,
            },
        };
    }
    if ctx.tab_held {
        return match k.key {
            Key::Left => Some(Action::MoveToProject(-1isize)),
            Key::Right => Some(Action::MoveToProject(1isize)),
            _ => None,
        };
    }
    let n = nav(ctx, k);
    if n.is_some() {
        return n;
    }
    match ctx.mode {
        Mode::Insert => match k.key {
            Key::Esc => Some(Action::EnterNormal),
            Key::Enter => Some(Action::CommitInsert),
            _ => match edit_request(k) {
                Some(e) => Some(Action::Input(e)),
                None => None,
            },
        },
        Mode::Normal => normal(k),
    }
}

/// In command mode with no popup open and Tab not held, the vim keys move like the arrow
/// keys: an unmodified `j` goes down one row like Down, `k` up one row like Up, `h` folds
/// like Left and `l` unfolds like Right.
pub proof fn lemma_vim_keys_match_arrows(input_empty: bool)
    ensures
        ({
            let ctx = KeyContext { popup_open: false, tab_held: false, mode: Mode::Normal, input_empty };
            let plain = |key: Key| KeyPress { key, ctrl: false, shift: false };
            &&& map_key_spec(ctx, plain(Key::Char('j'))) == map_key_spec(ctx, plain(Key::Down))
            &&& map_key_spec(ctx, plain(Key::Char('k'))) == map_key_spec(ctx, plain(Key::Up))
            &&& map_key_spec(ctx, plain(Key::Char('h'))) == map_key_spec(ctx, plain(Key::Left))
            &&& map_key_spec(ctx, plain(Key::Char('l'))) == map_key_spec(ctx, plain(Key::Right))
            &&& map_key_spec(ctx, plain(Key::Down)) == Some(Action::Select(1isize))
            &&& map_key_spec(ctx, plain(Key::Up)) == Some(Action::Select(-1isize))
        }),
{
}

/// How the event loop treats a key before mapping it: Tab only arms "send to tab";
/// any other key but left/right disarms it.
pub enum KeyRoute {
    /// Tab was pressed: hold it and show the hint.
    HoldTab,
    /// Map the key, with this "Tab held" state.
    Dispatch { tab_held: bool },
}

pub fn route_key(tab_held: bool, key: Key) -> (r: KeyRoute)
    ensures
        key == Key::Tab ==> r is HoldTab,
        key != Key::Tab ==> r == (KeyRoute::Dispatch {
            tab_held: tab_held && (key == Key::Left || key == Key::Right),
        }),
{
    match key {
        Key::Tab => KeyRoute::HoldTab,
        Key::Left | Key::Right => KeyRoute::Dispatch { tab_held },
        _ => KeyRoute::Dispatch { tab_held: false },
    }
}

} // verus!
