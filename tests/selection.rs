use scriptpick::action::Action;
use scriptpick::entry::Entry;
use scriptpick::scroll_list::ScrollList;

fn file(path: &str) -> Entry {
    Entry::new(false, String::from(path), String::from(path))
}

fn paths(list: &ScrollList) -> Vec<String> {
    list.entries().iter().map(|e| e.relative_path.clone()).collect()
}

fn filled(items: &[&str]) -> ScrollList {
    let mut list = ScrollList::new();
    let entries: Vec<Entry> = items.iter().map(|p| file(p)).collect();
    list.update_background(&Action::SelectScripts(entries));
    list
}

#[test]
fn new_list_is_empty_without_cursor() {
    let list = ScrollList::new();
    assert!(list.entries().is_empty());
    assert_eq!(None, list.cursor());
}

#[test]
fn select_sorts_and_drops_duplicates() {
    let list = filled(&["c.sql", "a.sql", "b.sql", "a.sql"]);
    assert_eq!(vec!["a.sql", "b.sql", "c.sql"], paths(&list));
    assert_eq!(Some(0), list.cursor());
}

#[test]
fn cursor_moves_are_clamped() {
    let mut list = filled(&["a.sql", "b.sql", "c.sql"]);
    list.cursor_up();
    assert_eq!(Some(0), list.cursor());
    list.cursor_down();
    list.cursor_down();
    assert_eq!(Some(2), list.cursor());
    list.cursor_down();
    assert_eq!(Some(2), list.cursor());
    list.go_to_top();
    assert_eq!(Some(0), list.cursor());
    list.go_to_bottom();
    assert_eq!(Some(2), list.cursor());
}

#[test]
fn cursor_moves_on_empty_list_keep_no_selection() {
    let mut list = ScrollList::new();
    list.go_to_bottom();
    assert_eq!(None, list.cursor());
    list.go_to_top();
    list.cursor_down();
    list.cursor_up();
    assert_eq!(None, list.cursor());
}

#[test]
fn update_moves_cursor() {
    let mut list = filled(&["a.sql", "b.sql"]);
    assert!(list.update(&Action::CursorToBottom).is_none());
    assert_eq!(Some(1), list.cursor());
    assert!(list.update(&Action::CursorUp).is_none());
    assert_eq!(Some(0), list.cursor());
}

#[test]
fn append_twice_same_as_once() {
    let mut list = filled(&["b.sql"]);
    let more = vec![file("a.sql"), file("b.sql"), file("c.sql")];
    list.update_background(&Action::AppendScripts(more.clone()));
    let once = paths(&list);
    list.update_background(&Action::AppendScripts(more));
    assert_eq!(once, paths(&list));
    assert_eq!(vec!["a.sql", "b.sql", "c.sql"], once);
}

#[test]
fn remove_then_append_restores() {
    let mut list = filled(&["a.sql", "b.sql", "c.sql"]);
    list.update_background(&Action::RemoveScript(file("b.sql")));
    assert_eq!(vec!["a.sql", "c.sql"], paths(&list));
    list.update_background(&Action::AppendScripts(vec![file("b.sql")]));
    assert_eq!(vec!["a.sql", "b.sql", "c.sql"], paths(&list));
}

#[test]
fn remove_selected_names_entry_under_cursor() {
    let mut list = filled(&["a.sql", "b.sql"]);
    list.cursor_down();
    match list.update(&Action::RemoveSelectedScript) {
        Some(Action::RemoveScript(e)) => assert_eq!(file("b.sql"), e),
        other => panic!("unexpected {:?}", other),
    }
    let mut empty = ScrollList::new();
    assert!(empty.update(&Action::RemoveSelectedScript).is_none());
}

#[test]
fn removing_last_entry_moves_cursor_back() {
    let mut list = filled(&["a.sql", "b.sql"]);
    list.go_to_bottom();
    list.update_background(&Action::RemoveScript(file("b.sql")));
    assert_eq!(Some(0), list.cursor());
    list.update_background(&Action::RemoveAllSelectedScripts);
    assert!(list.entries().is_empty());
    assert_eq!(None, list.cursor());
}

#[test]
fn directories_come_after_files() {
    let mut list = ScrollList::new();
    let dir = Entry::new(true, String::from("a"), String::from("a"));
    list.update_background(&Action::AppendScripts(vec![dir.clone(), file("z.sql")]));
    assert_eq!(vec!["z.sql", "a"], paths(&list));
}

#[test]
fn config_is_kept() {
    let mut list = ScrollList::new();
    let mut config = std::collections::HashMap::new();
    config.insert(String::from("k"), String::from("v"));
    list.register_config_handler(config);
    assert!(list.handle_events(None).is_none());
}
