use scriptpick::action::{Action, Event, KeyCode, Mode};
use scriptpick::app::{App, CycleEnd, Effect, Screen};
use scriptpick::entry::Entry;
use scriptpick::scroll_list::ScrollList;

fn key(c: char) -> Event {
    Event::Key { code: KeyCode::Char(c), control: false }
}

fn ctrl(c: char) -> Event {
    Event::Key { code: KeyCode::Char(c), control: true }
}

fn tab() -> Event {
    Event::Key { code: KeyCode::Tab, control: false }
}

fn app() -> App {
    let screens = vec![
        Screen { mode: Mode::FileChooser, components: vec![ScrollList::new()] },
        Screen { mode: Mode::ScriptRunner, components: vec![ScrollList::new()] },
    ];
    App::new(screens, std::collections::HashMap::new())
}

/// Runs one cycle the way the loop does, without a terminal.
fn cycle(app: &mut App, event: Event) -> CycleEnd {
    let mut queue: Vec<Action> = app.handle_event(event);
    let mut budget = 100;
    while !queue.is_empty() {
        budget -= 1;
        assert!(budget > 0);
        let action = queue.remove(0);
        app.apply_global(&action);
        queue.extend(app.deliver(&action));
    }
    app.end_of_cycle()
}

fn file(path: &str) -> Entry {
    Entry::new(false, String::from(path), String::from(path))
}

#[test]
fn key_bindings() {
    let a = app();
    assert!(matches!(a.action_for_event(ctrl('z')), Some(Action::Suspend)));
    assert!(matches!(a.action_for_event(ctrl('c')), Some(Action::Quit)));
    assert!(matches!(a.action_for_event(key('c')), None));
    assert!(matches!(a.action_for_event(key('q')), Some(Action::Quit)));
    assert!(matches!(a.action_for_event(key('r')), Some(Action::ScriptRun)));
    assert!(matches!(a.action_for_event(key(' ')), Some(Action::SelectCurrent)));
    assert!(matches!(a.action_for_event(key('s')), Some(Action::SelectAllAfter)));
    assert!(matches!(a.action_for_event(key('S')), Some(Action::SelectAllInDirectory)));
    assert!(matches!(a.action_for_event(key('X')), Some(Action::RemoveAllSelectedScripts)));
    assert!(matches!(a.action_for_event(key('x')), Some(Action::RemoveSelectedScript)));
    let code = |code| Event::Key { code, control: false };
    assert!(matches!(a.action_for_event(code(KeyCode::Up)), Some(Action::CursorUp)));
    assert!(matches!(a.action_for_event(code(KeyCode::Down)), Some(Action::CursorDown)));
    assert!(matches!(a.action_for_event(code(KeyCode::Home)), Some(Action::CursorToTop)));
    assert!(matches!(a.action_for_event(code(KeyCode::End)), Some(Action::CursorToBottom)));
    assert!(matches!(a.action_for_event(code(KeyCode::Enter)), Some(Action::DirectoryOpenSelected)));
    assert!(matches!(a.action_for_event(code(KeyCode::Backspace)), Some(Action::DirectoryLeave)));
    assert!(matches!(a.action_for_event(Event::Resize(80, 24)), Some(Action::Resize(80, 24))));
    assert!(matches!(a.action_for_event(Event::Other), None));
}

#[test]
fn tab_toggles_mode_and_q_exits() {
    let mut a = app();
    assert_eq!(Mode::FileChooser, a.current_screen);
    assert_eq!(CycleEnd::Continue, cycle(&mut a, tab()));
    assert_eq!(Mode::ScriptRunner, a.current_screen);
    assert_eq!(CycleEnd::Continue, cycle(&mut a, tab()));
    assert_eq!(Mode::FileChooser, a.current_screen);
    assert_eq!(CycleEnd::Exit, cycle(&mut a, key('q')));
    assert!(a.exit);
}

#[test]
fn render_and_resize_ask_for_drawing() {
    let mut a = app();
    assert_eq!(Effect::Draw, a.apply_global(&Action::Render));
    assert_eq!(Effect::ResizeAndDraw(10, 5), a.apply_global(&Action::Resize(10, 5)));
    assert_eq!(Effect::Nothing, a.apply_global(&Action::Tick));
}

#[test]
fn suspend_then_resume_keeps_entries() {
    let mut a = app();
    a.deliver(&Action::SelectScripts(vec![file("b.sql"), file("a.sql")]));
    assert_eq!(CycleEnd::Suspend, cycle(&mut a, ctrl('z')));
    a.apply_global(&Action::Resume);
    a.deliver(&Action::Resume);
    assert_eq!(CycleEnd::Continue, a.end_of_cycle());
    for screen in a.screens.iter() {
        let paths: Vec<&str> =
            screen.components[0].entries().iter().map(|e| e.relative_path.as_str()).collect();
        assert_eq!(vec!["a.sql", "b.sql"], paths);
    }
}

#[test]
fn removal_goes_through_the_interactive_screen_only() {
    let mut a = app();
    a.deliver(&Action::SelectScripts(vec![file("a.sql"), file("b.sql")]));
    let out = a.deliver(&Action::RemoveSelectedScript);
    assert_eq!(1, out.len());
    assert!(matches!(&out[0], Action::RemoveScript(e) if e.relative_path == "a.sql"));
    a.deliver(&out[0]);
    for screen in a.screens.iter() {
        assert_eq!(1, screen.components[0].entries().len());
    }
}

#[test]
fn cursor_moves_only_on_the_interactive_screen() {
    let mut a = app();
    a.deliver(&Action::SelectScripts(vec![file("a.sql"), file("b.sql")]));
    a.deliver(&Action::CursorDown);
    assert_eq!(Some(1), a.screens[0].components[0].cursor());
    assert_eq!(Some(0), a.screens[1].components[0].cursor());
    assert_eq!(Some(0), a.active_screen());
}

#[test]
fn config_reaches_every_component() {
    let mut config = std::collections::HashMap::new();
    config.insert(String::from("k"), String::from("v"));
    let mut a = App::new(vec![Screen { mode: Mode::FileChooser, components: vec![ScrollList::new()] }], config);
    a.register_config();
    assert_eq!(1, a.handle_event(key('q')).len());
    assert!(a.handle_event(Event::Other).is_empty());
}
