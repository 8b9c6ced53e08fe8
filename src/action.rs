//! The values that flow through the dispatch queue, and the terminal events
//! that the loop translates into them.
use vstd::prelude::*;

use crate::entry::Entry;

verus! {

/// Which screen is interactive.
#[derive(Debug, Clone, Copy, PartialEq, Eq, Structural)]
pub enum Mode {
    FileChooser,
    ScriptRunner,
}

/// A command carried by the action queue.
#[derive(Debug, Clone)]
pub enum Action {
    Quit,
    Tick,
    Render,
    Resize(u16, u16),
    SwitchMode(Mode),
    Suspend,
    Resume,
    CursorUp,
    CursorDown,
    CursorToTop,
    CursorToBottom,
    SelectCurrent,
    SelectAllAfter,
    SelectAllInDirectory,
    DirectoryOpenSelected,
    DirectoryLeave,
    ScriptRun,
    RemoveSelectedScript,
    RemoveAllSelectedScripts,
    SelectScripts(Vec<Entry>),
    AppendScripts(Vec<Entry>),
    RemoveScript(Entry),
    Error(String),
}

/// A key, as far as the bindings tell keys apart.
#[derive(Debug, Clone, Copy, PartialEq, Eq, Structural)]
pub enum KeyCode {
    Char(char),
    Up,
    Down,
    Home,
    End,
    Enter,
    Backspace,
    Tab,
    Other,
}

/// A terminal event. `control` on a key is set when Control is the one
/// modifier held.
#[derive(Debug, Clone, Copy, PartialEq, Eq, Structural)]
pub enum Event {
    Quit,
    Tick,
    Render,
    Resize(u16, u16),
    SwitchMode(Mode),
    Key { code: KeyCode, control: bool },
    Other,
}

} // verus!
