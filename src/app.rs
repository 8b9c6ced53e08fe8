//! The decisions of the dispatch loop: which action a terminal event
//! becomes, what an action does to the loop's own state, how an action is
//! handed to the components, and what happens once the queue is empty.
use std::collections::HashMap;
use vstd::prelude::*;

use crate::action::{Action, Event, KeyCode, Mode};
use crate::entry::EntryView;
use crate::scroll_list::{changes_entries, held_after, moved_cursor, settled, ScrollList};

verus! {

/// The kind of a message shown to the user.
#[derive(Debug, Clone, Copy, PartialEq, Eq, Structural)]
pub enum MessageType {
    Success,
    Error,
    Info,
}

/// The components shown together under one mode.
pub struct Screen {
    pub mode: Mode,
    pub components: Vec<ScrollList>,
}

/// What the terminal has to do for an action before the components see it.
#[derive(Debug, Clone, Copy, PartialEq, Eq, Structural)]
pub enum Effect {
    Nothing,
    /// Draw the interactive screen.
    Draw,
    /// Resize the surface to the width and height, then draw.
    ResizeAndDraw(u16, u16),
}

/// What the loop does once the queue is empty.
#[derive(Debug, Clone, Copy, PartialEq, Eq, Structural)]
pub enum CycleEnd {
    /// Wait for the next event.
    Continue,
    /// Release the terminal, queue `Resume`, and enter a fresh session.
    Suspend,
    /// Release the terminal and stop.
    Exit,
}

/// The action bound to an event in `mode`, if any.
pub open spec fn event_action(mode: Mode, event: Event) -> Option<Action> {
    match event {
        Event::Quit => Some(Action::Quit),
        Event::Tick => Some(Action::Tick),
        Event::Render => Some(Action::Render),
        Event::Resize(w, h) => Some(Action::Resize(w, h)),
        Event::SwitchMode(m) => Some(Action::SwitchMode(m)),
        Event::Key { code, control } => match code {
            KeyCode::Char(c) => if c == 'z' && control {
                Some(Action::Suspend)
            } else if c == 'c' && control {
                Some(Action::Quit)
            } else if c == 'q' {
                Some(Action::Quit)
            } else if c == 'r' {
                Some(Action::ScriptRun)
            } else if c == ' ' {
                Some(Action::SelectCurrent)
            } else if c == 's' {
                Some(Action::SelectAllAfter)
            } else if c == 'S' {
                Some(Action::SelectAllInDirectory)
            } else if c == 'X' {
                Some(Action::RemoveAllSelectedScripts)
            } else if c == 'x' {
                Some(Action::RemoveSelectedScript)
            } else {
                None
            },
            KeyCode::Up => Some(Action::CursorUp),
            KeyCode::Down => Some(Action::CursorDown),
            KeyCode::Home => Some(Action::CursorToTop),
            KeyCode::End => Some(Action::CursorToBottom),
            KeyCode::Enter => Some(Action::DirectoryOpenSelected),
            KeyCode::Backspace => Some(Action::DirectoryLeave),
            KeyCode::Tab => match mode {
                Mode::FileChooser => Some(Action::SwitchMode(Mode::ScriptRunner)),
                Mode::ScriptRunner => Some(Action::SwitchMode(Mode::FileChooser)),
            },
            KeyCode::Other => None,
        },
        Event::Other => None,
    }
}

/// The loop's own state: interactive mode, exit flag and suspend flag.
pub struct LoopState {
    pub mode: Mode,
    pub exit: bool,
    pub suspend: bool,
}

/// The loop's own state after `a`.
pub open spec fn state_after(st: LoopState, a: Action) -> LoopState {
    match a {
        Action::Quit => LoopState { exit: true, ..st },
        Action::Suspend => LoopState { suspend: true, ..st },
        Action::Resume => LoopState { suspend: false, ..st },
        Action::SwitchMode(m) => LoopState { mode: m, ..st },
        _ => st,
    }
}

/// What the terminal does for `a`.
pub open spec fn effect_of(a: Action) -> Effect {
    match a {
        Action::Resize(w, h) => Effect::ResizeAndDraw(w, h),
        Action::Render => Effect::Draw,
        _ => Effect::Nothing,
    }
}

/// What the loop does once the queue is empty: suspending comes first.
pub open spec fn end_of(st: LoopState) -> CycleEnd {
    if st.suspend {
        CycleEnd::Suspend
    } else if st.exit {
        CycleEnd::Exit
    } else {
        CycleEnd::Continue
    }
}

/// Whether screen `s` is the interactive one: the first under `mode`.
pub open spec fn is_active(screens: Seq<Screen>, mode: Mode, s: int) -> bool {
    0 <= s < screens.len() && screens[s].mode == mode && forall|t: int|
        0 <= t < s ==> (#[trigger] screens[t]).mode != mode
}

/// How a component `o` became `n` once an action `a` was delivered to it:
/// through the interactive update when `active`, then through the
/// background update.
pub open spec fn delivered(o: ScrollList, n: ScrollList, a: Action, active: bool) -> bool {
    &&& n.wf()
    &&& n.config_view() == o.config_view()
    &&& forall|y: EntryView|
        #[trigger] n.entries_view().contains(y) <==> held_after(a, o.entries_view(), y)
    &&& changes_entries(a) ==> n.cursor_view() == settled(o.cursor_view(), n.entries_view().len())
    &&& !changes_entries(a) ==> n.entries_view() == o.entries_view() && n.cursor_view() == if active {
        moved_cursor(a, o.cursor_view(), o.entries_view().len())
    } else {
        o.cursor_view()
    }
}

/// The entry under each cursor of `comps`, in order, skipping those
/// without one.
pub open spec fn under_cursors(comps: Seq<ScrollList>) -> Seq<EntryView> {
    comps.filter_map(
        |c: ScrollList|
            match c.cursor_view() {
                Some(k) => Some(c.entries_view()[k as int]),
                None => None,
            },
    )
}

/// The entry that a `RemoveScript` action names.
pub open spec fn removed_entry(a: Action) -> EntryView {
    match a {
        Action::RemoveScript(e) => e@,
        _ => arbitrary(),
    }
}

pub open spec fn screen_wf(s: Screen) -> bool {
    forall|k: int| 0 <= k < s.components@.len() ==> (#[trigger] s.components@[k]).wf()
}

/// The interactive update of every component of `screen`, in order; the
/// actions they return, in order.
fn update_screen(screen: &mut Screen, action: &Action) -> (r: Vec<Action>)
    requires
        screen_wf(*old(screen)),
    ensures
        final(screen).mode == old(screen).mode,
        final(screen).components@.len() == old(screen).components@.len(),
        forall|k: int|
            0 <= k < old(screen).components@.len() ==> delivered_update(
                #[trigger] old(screen).components@[k],
                final(screen).components@[k],
                *action,
            ),
        forall|i: int| 0 <= i < r@.len() ==> (#[trigger] r@[i]) is RemoveScript,
        r@.map_values(|a: Action| removed_entry(a)) == if *action is RemoveSelectedScript {
            under_cursors(old(screen).components@)
        } else {
            Seq::empty()
        },
{
    let ghost comps = old(screen).components@;
    let ghost f = |c: ScrollList|
        match c.cursor_view() {
            Some(k) => Some(c.entries_view()[k as int]),
            None => None,
        };
    let mut r: Vec<Action> = Vec::new();
    let mut k: usize = 0;
    assert(forall|j: int| 0 <= j < comps.len() ==> (#[trigger] comps[j]).wf());
    assert(comps.take(0).filter_map(f) =~= Seq::<EntryView>::empty());
    while k < screen.components.len()
        invariant
            k <= screen.components@.len(),
            screen.mode == old(screen).mode,
            screen.components@.len() == comps.len(),
            comps == old(screen).components@,
            forall|j: int| 0 <= j < comps.len() ==> (#[trigger] comps[j]).wf(),
            f == (|c: ScrollList|
                match c.cursor_view() {
                    Some(k) => Some(c.entries_view()[k as int]),
                    None => None,
                }),
            forall|j: int| 0 <= j < k ==> delivered_update(
                #[trigger] comps[j],
                screen.components@[j],
                *action,
            ),
            forall|j: int| k <= j < comps.len() ==> #[trigger] screen.components@[j] == comps[j],
            forall|i: int| 0 <= i < r@.len() ==> (#[trigger] r@[i]) is RemoveScript,
            r@.map_values(|a: Action| removed_entry(a)) == if *action is RemoveSelectedScript {
                comps.take(k as int).filter_map(f)
            } else {
                Seq::empty()
            },
        decreases comps.len() - k,
    {
        proof {
            comps.lemma_filter_map_take_succ(f, k as int);
            assert(comps[k as int].wf());
        }
        let ghost prev = r@;
        let out = screen.components[k].update(action);
        match out {
            Some(a) => {
                r.push(a);
                assert(r@.map_values(|a: Action| removed_entry(a)) =~= prev.map_values(
                    |a: Action| removed_entry(a),
                ).push(removed_entry(r@[r@.len() - 1])));
            },
            None => {},
        }
        proof {
            if *action is RemoveSelectedScript {
                assert(r@.map_values(|a: Action| removed_entry(a)) =~= comps.take(
                    k + 1,
                ).filter_map(f));
            } else {
                assert(r@.map_values(|a: Action| removed_entry(a)) =~= Seq::<EntryView>::empty());
            }
        }
        k = k + 1;
    }
    assert(comps.take(k as int) =~= comps);
    r
}

/// How the interactive update took `o` to `n`.
pub open spec fn delivered_update(o: ScrollList, n: ScrollList, a: Action) -> bool {
    &&& n.wf()
    &&& n.config_view() == o.config_view()
    &&& n.entries_view() == o.entries_view()
    &&& n.cursor_view() == moved_cursor(a, o.cursor_view(), o.entries_view().len())
}

/// How the background update took `o` to `n`.
pub open spec fn delivered_background(o: ScrollList, n: ScrollList, a: Action) -> bool {
    &&& n.wf()
    &&& n.config_view() == o.config_view()
    &&& forall|y: EntryView|
        #[trigger] n.entries_view().contains(y) <==> held_after(a, o.entries_view(), y)
    &&& changes_entries(a) ==> n.cursor_view() == settled(o.cursor_view(), n.entries_view().len())
    &&& !changes_entries(a) ==> n.entries_view() == o.entries_view() && n.cursor_view()
        == o.cursor_view()
}

/// The background update of every component of `screen`, in order.
fn background_screen(screen: &mut Screen, action: &Action)
    requires
        screen_wf(*old(screen)),
    ensures
        final(screen).mode == old(screen).mode,
        final(screen).components@.len() == old(screen).components@.len(),
        forall|k: int|
            0 <= k < old(screen).components@.len() ==> delivered_background(
                #[trigger] old(screen).components@[k],
                final(screen).components@[k],
                *action,
            ),
{
    let ghost comps = old(screen).components@;
    let mut k: usize = 0;
    assert(forall|j: int| 0 <= j < comps.len() ==> (#[trigger] comps[j]).wf());
    while k < screen.components.len()
        invariant
            k <= screen.components@.len(),
            screen.mode == old(screen).mode,
            screen.components@.len() == comps.len(),
            comps == old(screen).components@,
            forall|j: int| 0 <= j < comps.len() ==> (#[trigger] comps[j]).wf(),
            forall|j: int| 0 <= j < k ==> delivered_background(
                #[trigger] comps[j],
                screen.components@[j],
                *action,
            ),
            forall|j: int| k <= j < comps.len() ==> #[trigger] screen.components@[j] == comps[j],
        decreases comps.len() - k,
    {
        proof {
            assert(comps[k as int].wf());
        }
        let _ = screen.components[k].update_background(action);
        k = k + 1;
    }
}

proof fn lemma_update_then_background(o: ScrollList, m: ScrollList, n: ScrollList, a: Action)
    requires
        delivered_update(o, m, a),
        delivered_background(m, n, a),
    ensures
        delivered(o, n, a, true),
{
    assert forall|y: EntryView| #[trigger] n.entries_view().contains(y) <==> held_after(
        a,
        o.entries_view(),
        y,
    ) by {
        assert(n.entries_view().contains(y) <==> held_after(a, m.entries_view(), y));
    }
}

proof fn lemma_background_alone(o: ScrollList, n: ScrollList, a: Action)
    requires
        delivered_background(o, n, a),
    ensures
        delivered(o, n, a, false),
{
}

proof fn lemma_active_unique(screens: Seq<Screen>, mode: Mode, s: int, t: int)
    requires
        is_active(screens, mode, s),
        is_active(screens, mode, t),
    ensures
        s == t,
{
    if s < t {
        assert(screens[s].mode != mode);
    }
    if t < s {
        assert(screens[t].mode != mode);
    }
}

/// The dispatch loop's state: the interactive mode, the exit and suspend
/// flags, the screens, and the configuration handed to every component.
pub struct App {
    pub current_screen: Mode,
    pub exit: bool,
    pub suspend: bool,
    pub screens: Vec<Screen>,
    pub config: HashMap<String, String>,
}

impl App {
    pub open spec fn loop_state(&self) -> LoopState {
        LoopState { mode: self.current_screen, exit: self.exit, suspend: self.suspend }
    }

    /// Every component of every screen is well formed.
    pub open spec fn wf(&self) -> bool {
        forall|s: int| 0 <= s < self.screens@.len() ==> screen_wf(#[trigger] self.screens@[s])
    }

    /// A loop that starts in file-chooser mode with no flag set.
    pub fn new(screens: Vec<Screen>, config: HashMap<String, String>) -> (r: App)
        ensures
            r.current_screen == Mode::FileChooser,
            !r.exit,
            !r.suspend,
            r.screens == screens,
            r.config@ == config@,
    {
        App { current_screen: Mode::FileChooser, exit: false, suspend: false, screens, config }
    }

    /// Hands a copy of the configuration to every component.
    pub fn register_config(&mut self)
        requires
            old(self).wf(),
        ensures
            final(self).wf(),
            final(self).loop_state() == old(self).loop_state(),
            final(self).config@ == old(self).config@,
            final(self).screens@.len() == old(self).screens@.len(),
            forall|s: int|
                0 <= s < old(self).screens@.len() ==> {
                    &&& (#[trigger] final(self).screens@[s]).mode == old(self).screens@[s].mode
                    &&& final(self).screens@[s].components@.len() == old(
                        self,
                    ).screens@[s].components@.len()
                    &&& forall|k: int|
                        0 <= k < old(self).screens@[s].components@.len() ==> {
                            let o = old(self).screens@[s].components@[k];
                            let n = #[trigger] final(self).screens@[s].components@[k];
                            n.wf() && n.config_view() == old(self).config@ && n.entries_view()
                                == o.entries_view() && n.cursor_view() == o.cursor_view()
                        }
                },
    {
        let ghost screens0 = self.screens@;
        let mut s: usize = 0;
        while s < self.screens.len()
            invariant
                s <= self.screens@.len(),
                self.screens@.len() == screens0.len(),
                self.loop_state() == old(self).loop_state(),
                self.config@ == old(self).config@,
                screens0 == old(self).screens@,
                forall|t: int| 0 <= t < screens0.len() ==> screen_wf(#[trigger] screens0[t]),
                forall|t: int| s <= t < screens0.len() ==> #[trigger] self.screens@[t] == screens0[t],
                forall|t: int|
                    0 <= t < s ==> {
                        &&& (#[trigger] self.screens@[t]).mode == screens0[t].mode
                        &&& self.screens@[t].components@.len() == screens0[t].components@.len()
                        &&& forall|k: int|
                            0 <= k < screens0[t].components@.len() ==> {
                                let o = screens0[t].components@[k];
                                let n = #[trigger] self.screens@[t].components@[k];
                                n.wf() && n.config_view() == self.config@ && n.entries_view()
                                    == o.entries_view() && n.cursor_view() == o.cursor_view()
                            }
                    },
            decreases screens0.len() - s,
        {
            let mut k: usize = 0;
            let ghost comps = screens0[s as int].components@;
            assert(screen_wf(screens0[s as int]));
            while k < self.screens[s].components.len()
                invariant
                    s < self.screens@.len(),
                    self.screens@.len() == screens0.len(),
                    self.loop_state() == old(self).loop_state(),
                    self.config@ == old(self).config@,
                    screens0 == old(self).screens@,
                    comps == screens0[s as int].components@,
                    forall|j: int| 0 <= j < comps.len() ==> (#[trigger] comps[j]).wf(),
                    k <= comps.len(),
                    self.screens@[s as int].mode == screens0[s as int].mode,
                    self.screens@[s as int].components@.len() == comps.len(),
                    forall|t: int| 0 <= t < screens0.len() ==> screen_wf(#[trigger] screens0[t]),
                    forall|t: int|
                        s < t < screens0.len() ==> #[trigger] self.screens@[t] == screens0[t],
                    forall|t: int|
                        0 <= t < s ==> {
                            &&& (#[trigger] self.screens@[t]).mode == screens0[t].mode
                            &&& self.screens@[t].components@.len()
                                == screens0[t].components@.len()
                            &&& forall|k: int|
                                0 <= k < screens0[t].components@.len() ==> {
                                    let o = screens0[t].components@[k];
                                    let n = #[trigger] self.screens@[t].components@[k];
                                    n.wf() && n.config_view() == self.config@ && n.entries_view()
                                        == o.entries_view() && n.cursor_view() == o.cursor_view()
                                }
                        },
                    forall|j: int|
                        0 <= j < k ==> {
                            let o = comps[j];
                            let n = #[trigger] self.screens@[s as int].components@[j];
                            n.wf() && n.config_view() == self.config@ && n.entries_view()
                                == o.entries_view() && n.cursor_view() == o.cursor_view()
                        },
                    forall|j: int|
                        k <= j < comps.len() ==> #[trigger] self.screens@[s as int].components@[j]
                            == comps[j],
                decreases comps.len() - k,
            {
                let c = self.config.clone();
                self.screens[s].components[k].register_config_handler(c);
                proof {
                    assert(comps[k as int].wf());
                }
                k = k + 1;
            }
            s = s + 1;
        }
        proof {
            assert forall|t: int| 0 <= t < self.screens@.len() implies screen_wf(
                #[trigger] self.screens@[t],
            ) by {
                assert forall|k: int| 0 <= k < self.screens@[t].components@.len() implies (
                #[trigger] self.screens@[t].components@[k]).wf() by {
                    assert(self.screens@[t].components@[k].wf());
                }
            }
        }
    }
    /// The action bound to `event` in the current mode.
    pub fn action_for_event(&self, event: Event) -> (r: Option<Action>)
        ensures
            r == event_action(self.current_screen, event),
    {
        match event {
            Event::Quit => Some(Action::Quit),
            Event::Tick => Some(Action::Tick),
            Event::Render => Some(Action::Render),
            Event::Resize(w, h) => Some(Action::Resize(w, h)),
            Event::SwitchMode(m) => Some(Action::SwitchMode(m)),
            Event::Key { code, control } => match code {
                KeyCode::Char(c) => {
                    if c == 'z' && control {
                        Some(Action::Suspend)
                    } else if c == 'c' && control {
                        Some(Action::Quit)
                    } else if c == 'q' {
                        Some(Action::Quit)
                    } else if c == 'r' {
                        Some(Action::ScriptRun)
                    } else if c == ' ' {
                        Some(Action::SelectCurrent)
                    } else if c == 's' {
                        Some(Action::SelectAllAfter)
                    } else if c == 'S' {
                        Some(Action::SelectAllInDirectory)
                    } else if c == 'X' {
                        Some(Action::RemoveAllSelectedScripts)
                    } else if c == 'x' {
                        Some(Action::RemoveSelectedScript)
                    } else {
                        None
                    }
                },
                KeyCode::Up => Some(Action::CursorUp),
                KeyCode::Down => Some(Action::CursorDown),
                KeyCode::Home => Some(Action::CursorToTop),
                KeyCode::End => Some(Action::CursorToBottom),
                KeyCode::Enter => Some(Action::DirectoryOpenSelected),
                KeyCode::Backspace => Some(Action::DirectoryLeave),
                KeyCode::Tab => match self.current_screen {
                    Mode::FileChooser => Some(Action::SwitchMode(Mode::ScriptRunner)),
                    Mode::ScriptRunner => Some(Action::SwitchMode(Mode::FileChooser)),
                },
                KeyCode::Other => None,
            },
            Event::Other => None,
        }
    }

    /// The actions that `event` puts on the queue: the bound action, then
    /// what each component makes of the raw event, screen by screen.
    pub fn handle_event(&self, event: Event) -> (r: Vec<Action>)
        ensures
            r@ == match event_action(self.current_screen, event) {
                Some(a) => seq![a],
                None => Seq::<Action>::empty(),
            },
    {
        let mut r: Vec<Action> = Vec::new();
        match self.action_for_event(event) {
            Some(a) => r.push(a),
            None => {},
        }
        let ghost first = r@;
        let mut s: usize = 0;
        while s < self.screens.len()
            invariant
                r@ == first,
            decreases self.screens.len() - s,
        {
            let mut k: usize = 0;
            while k < self.screens[s].components.len()
                invariant
                    s < self.screens.len(),
                    r@ == first,
                decreases self.screens[s as int].components@.len() - k,
            {
                match self.screens[s].components[k].handle_events(Some(event)) {
                    Some(a) => r.push(a),
                    None => {},
                }
                k = k + 1;
            }
            s = s + 1;
        }
        assert(r@ =~= match event_action(self.current_screen, event) {
            Some(a) => seq![a],
            None => Seq::<Action>::empty(),
        });
        r
    }

    /// The loop's own part of an action: the flags and the mode, and what
    /// the terminal has to do before the components see it.
    pub fn apply_global(&mut self, action: &Action) -> (r: Effect)
        ensures
            final(self).loop_state() == state_after(old(self).loop_state(), *action),
            r == effect_of(*action),
            final(self).screens == old(self).screens,
            final(self).config == old(self).config,
    {
        match action {
            Action::Quit => {
                self.exit = true;
                Effect::Nothing
            },
            Action::Suspend => {
                self.suspend = true;
                Effect::Nothing
            },
            Action::Resume => {
                self.suspend = false;
                Effect::Nothing
            },
            Action::SwitchMode(m) => {
                self.current_screen = *m;
                Effect::Nothing
            },
            Action::Resize(w, h) => Effect::ResizeAndDraw(*w, *h),
            Action::Render => Effect::Draw,
            _ => Effect::Nothing,
        }
    }

    /// The index of the interactive screen: the first under the current
    /// mode.
    pub fn active_screen(&self) -> (r: Option<usize>)
        ensures
            match r {
                Some(s) => is_active(self.screens@, self.current_screen, s as int),
                None => forall|t: int|
                    0 <= t < self.screens@.len() ==> (#[trigger] self.screens@[t]).mode
                        != self.current_screen,
            },
    {
        let mut s: usize = 0;
        while s < self.screens.len()
            invariant
                s <= self.screens@.len(),
                forall|t: int| 0 <= t < s ==> (#[trigger] self.screens@[t]).mode != self.current_screen,
            decreases self.screens.len() - s,
        {
            if self.screens[s].mode == self.current_screen {
                return Some(s);
            }
            s = s + 1;
        }
        None
    }

    /// What the loop does once the queue is empty.
    pub fn end_of_cycle(&self) -> (r: CycleEnd)
        ensures
            r == end_of(self.loop_state()),
    {
        if self.suspend {
            CycleEnd::Suspend
        } else if self.exit {
            CycleEnd::Exit
        } else {
            CycleEnd::Continue
        }
    }
    /// Hands `action` to the components: first to the interactive update of
    /// each component of the interactive screen, then to the background
    /// update of every component of every screen. Returns the actions the
    /// components gave back, in order.
    pub fn deliver(&mut self, action: &Action) -> (r: Vec<Action>)
        requires
            old(self).wf(),
        ensures
            final(self).wf(),
            final(self).loop_state() == old(self).loop_state(),
            final(self).config == old(self).config,
            final(self).screens@.len() == old(self).screens@.len(),
            forall|s: int|
                0 <= s < old(self).screens@.len() ==> {
                    &&& (#[trigger] final(self).screens@[s]).mode == old(self).screens@[s].mode
                    &&& final(self).screens@[s].components@.len() == old(
                        self,
                    ).screens@[s].components@.len()
                    &&& forall|k: int|
                        0 <= k < old(self).screens@[s].components@.len() ==> delivered(
                            old(self).screens@[s].components@[k],
                            #[trigger] final(self).screens@[s].components@[k],
                            *action,
                            is_active(old(self).screens@, old(self).current_screen, s),
                        )
                },
            forall|i: int| 0 <= i < r@.len() ==> (#[trigger] r@[i]) is RemoveScript,
            (forall|s: int| !is_active(old(self).screens@, old(self).current_screen, s))
                ==> r@.len() == 0,
            forall|s: int|
                is_active(old(self).screens@, old(self).current_screen, s) ==> r@.map_values(
                    |a: Action| removed_entry(a),
                ) == if *action is RemoveSelectedScript {
                    under_cursors(old(self).screens@[s].components@)
                } else {
                    Seq::empty()
                },
    {
        let ghost screens0 = self.screens@;
        let mut r: Vec<Action> = Vec::new();
        let active = self.active_screen();
        match active {
            Some(a) => {
                assert(screen_wf(self.screens@[a as int]));
                r = update_screen(&mut self.screens[a], action);
            },
            None => {},
        }
        let ghost mid = self.screens@;
        proof {
            assert forall|t: int| 0 <= t < mid.len() implies screen_wf(#[trigger] mid[t]) by {
                assert(screen_wf(screens0[t]));
                match active {
                    Some(a) => {
                        if t == a {
                            assert forall|k: int| 0 <= k < mid[t].components@.len() implies (
                            #[trigger] mid[t].components@[k]).wf() by {
                                assert(delivered_update(
                                    screens0[t].components@[k],
                                    mid[t].components@[k],
                                    *action,
                                ));
                            }
                        }
                    },
                    None => {},
                }
            }
        }
        let mut s: usize = 0;
        while s < self.screens.len()
            invariant
                s <= self.screens@.len(),
                self.screens@.len() == mid.len(),
                self.loop_state() == old(self).loop_state(),
                self.config == old(self).config,
                forall|t: int| 0 <= t < mid.len() ==> screen_wf(#[trigger] mid[t]),
                forall|t: int| s <= t < mid.len() ==> #[trigger] self.screens@[t] == mid[t],
                forall|t: int|
                    0 <= t < s ==> {
                        &&& (#[trigger] self.screens@[t]).mode == mid[t].mode
                        &&& self.screens@[t].components@.len() == mid[t].components@.len()
                        &&& forall|k: int|
                            0 <= k < mid[t].components@.len() ==> delivered_background(
                                mid[t].components@[k],
                                #[trigger] self.screens@[t].components@[k],
                                *action,
                            )
                    },
            decreases mid.len() - s,
        {
            background_screen(&mut self.screens[s], action);
            s = s + 1;
        }
        proof {
            assert forall|t: int| 0 <= t < screens0.len() implies {
                &&& (#[trigger] self.screens@[t]).mode == screens0[t].mode
                &&& self.screens@[t].components@.len() == screens0[t].components@.len()
                &&& forall|k: int|
                    0 <= k < screens0[t].components@.len() ==> delivered(
                        screens0[t].components@[k],
                        #[trigger] self.screens@[t].components@[k],
                        *action,
                        is_active(screens0, old(self).current_screen, t),
                    )
            } by {
                match active {
                    Some(a) => {
                        if t == a {
                            assert forall|k: int|
                                0 <= k < screens0[t].components@.len() implies delivered(
                                screens0[t].components@[k],
                                #[trigger] self.screens@[t].components@[k],
                                *action,
                                is_active(screens0, old(self).current_screen, t),
                            ) by {
                                lemma_update_then_background(
                                    screens0[t].components@[k],
                                    mid[t].components@[k],
                                    self.screens@[t].components@[k],
                                    *action,
                                );
                            }
                        } else {
                            if is_active(screens0, old(self).current_screen, t) {
                                lemma_active_unique(screens0, old(self).current_screen, t, a as int);
                            }
                            assert forall|k: int|
                                0 <= k < screens0[t].components@.len() implies delivered(
                                screens0[t].components@[k],
                                #[trigger] self.screens@[t].components@[k],
                                *action,
                                is_active(screens0, old(self).current_screen, t),
                            ) by {
                                lemma_background_alone(
                                    screens0[t].components@[k],
                                    self.screens@[t].components@[k],
                                    *action,
                                );
                            }
                        }
                    },
                    None => {
                        assert forall|k: int|
                            0 <= k < screens0[t].components@.len() implies delivered(
                            screens0[t].components@[k],
                            #[trigger] self.screens@[t].components@[k],
                            *action,
                            is_active(screens0, old(self).current_screen, t),
                        ) by {
                            lemma_background_alone(
                                screens0[t].components@[k],
                                self.screens@[t].components@[k],
                                *action,
                            );
                        }
                    },
                }
            }
            assert forall|t: int|
                is_active(screens0, old(self).current_screen, t) implies r@.map_values(
                |a: Action| removed_entry(a),
            ) == if *action is RemoveSelectedScript {
                under_cursors(screens0[t].components@)
            } else {
                Seq::empty()
            } by {
                match active {
                    Some(a) => {
                        lemma_active_unique(screens0, old(self).current_screen, t, a as int);
                    },
                    None => {
                        assert(screens0[t].mode == old(self).current_screen);
                    },
                }
            }
            assert forall|t: int| 0 <= t < self.screens@.len() implies screen_wf(
                #[trigger] self.screens@[t],
            ) by {
                assert forall|k: int| 0 <= k < self.screens@[t].components@.len() implies (
                #[trigger] self.screens@[t].components@[k]).wf() by {
                    assert(delivered_background(
                        mid[t].components@[k],
                        self.screens@[t].components@[k],
                        *action,
                    ));
                }
            }
        }
        r
    }
}

/// From file-chooser mode, Tab switches to the script runner and Tab again
/// back to the file chooser; `q`, with or without Control, sets the exit flag
/// in either mode, and the loop then stops at the end of the cycle unless
/// it is to suspend first.
pub proof fn lemma_tab_toggles_and_q_quits(st: LoopState, control: bool)
    ensures
        st.mode == Mode::FileChooser ==> {
            let tab = Event::Key { code: KeyCode::Tab, control };
            let st1 = state_after(st, event_action(st.mode, tab).unwrap());
            let st2 = state_after(st1, event_action(st1.mode, tab).unwrap());
            &&& event_action(st.mode, tab) is Some
            &&& st1.mode == Mode::ScriptRunner
            &&& event_action(st1.mode, tab) is Some
            &&& st2.mode == Mode::FileChooser
        },
        event_action(st.mode, Event::Key { code: KeyCode::Char('q'), control }) == Some(
            Action::Quit,
        ),
        state_after(st, Action::Quit).exit,
        !st.suspend ==> end_of(state_after(st, Action::Quit)) == CycleEnd::Exit,
{
}

/// Suspending and then resuming leaves every component's entries as they
/// were, in the same order, and clears the suspend flag again.
pub proof fn lemma_suspend_resume_keeps_entries(
    st: LoopState,
    o: ScrollList,
    m: ScrollList,
    n: ScrollList,
    active_then: bool,
    active_after: bool,
)
    requires
        delivered(o, m, Action::Suspend, active_then),
        delivered(m, n, Action::Resume, active_after),
    ensures
        n.entries_view() == o.entries_view(),
        end_of(state_after(st, Action::Suspend)) == CycleEnd::Suspend,
        !state_after(state_after(st, Action::Suspend), Action::Resume).suspend,
{
}

} // verus!
