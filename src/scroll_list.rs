//! The selection list: an ordered, duplicate-free sequence of entries with
//! one cursor.
use std::collections::HashMap;
use vstd::prelude::*;

use crate::action::{Action, Event};
use crate::entry::{
    entry_lt, lemma_entry_lt_asymmetric, lemma_entry_lt_irreflexive, lemma_entry_lt_total,
    lemma_entry_lt_transitive, Entry, EntryView,
};

verus! {

/// The values of a sequence of entries.
pub open spec fn views(s: Seq<Entry>) -> Seq<EntryView> {
    s.map_values(|e: Entry| e@)
}

/// Each element comes strictly before every later one; so no two are equal.
pub open spec fn strictly_sorted(s: Seq<EntryView>) -> bool {
    forall|i: int, j: int| 0 <= i < j < s.len() ==> #[trigger] entry_lt(s[i], s[j])
}

/// Where the cursor stands after the entries changed to a length `len`: kept
/// where it is when that is still inside, moved to the last entry when not,
/// put on the first when there was none, and gone when the list is empty.
pub open spec fn settled(c: Option<usize>, len: nat) -> Option<usize> {
    if len == 0 {
        None
    } else {
        match c {
            None => Some(0),
            Some(k) => if k < len {
                Some(k)
            } else {
                Some((len - 1) as usize)
            },
        }
    }
}

proof fn lemma_insert_sorted(s: Seq<EntryView>, i: int, x: EntryView)
    requires
        strictly_sorted(s),
        0 <= i <= s.len(),
        forall|k: int| 0 <= k < i ==> entry_lt(#[trigger] s[k], x),
        i < s.len() ==> entry_lt(x, s[i]),
    ensures
        strictly_sorted(s.insert(i, x)),
        forall|y: EntryView| s.insert(i, x).contains(y) <==> (s.contains(y) || y == x),
{
    let t = s.insert(i, x);
    assert forall|a: int, b: int| 0 <= a < b < t.len() implies #[trigger] entry_lt(t[a], t[b]) by {
        if b < i {
            assert(entry_lt(s[a], s[b]));
        } else if b == i {
            assert(entry_lt(s[a], x));
        } else if a < i {
            assert(entry_lt(s[a], s[b - 1]));
        } else if a == i {
            if b - 1 > i {
                assert(entry_lt(s[i], s[b - 1]));
                lemma_entry_lt_transitive(x, s[i], s[b - 1]);
            }
        } else {
            assert(entry_lt(s[a - 1], s[b - 1]));
        }
    }
    assert forall|y: EntryView| t.contains(y) <==> (s.contains(y) || y == x) by {
        if t.contains(y) {
            let k = choose|k: int| 0 <= k < t.len() && t[k] == y;
            if k < i {
                assert(s[k] == y);
            } else if k > i {
                assert(s[k - 1] == y);
            }
        }
        if s.contains(y) {
            let k = choose|k: int| 0 <= k < s.len() && s[k] == y;
            if k < i {
                assert(t[k] == y);
            } else {
                assert(t[k + 1] == y);
            }
        }
        if y == x {
            assert(t[i] == y);
        }
    }
}

proof fn lemma_remove_sorted(s: Seq<EntryView>, i: int)
    requires
        strictly_sorted(s),
        0 <= i < s.len(),
    ensures
        strictly_sorted(s.remove(i)),
        forall|y: EntryView| s.remove(i).contains(y) <==> (s.contains(y) && y != s[i]),
{
    let t = s.remove(i);
    assert forall|a: int, b: int| 0 <= a < b < t.len() implies #[trigger] entry_lt(t[a], t[b]) by {
        if b < i {
            assert(entry_lt(s[a], s[b]));
        } else if a < i {
            assert(entry_lt(s[a], s[b + 1]));
        } else {
            assert(entry_lt(s[a + 1], s[b + 1]));
        }
    }
    assert forall|y: EntryView| t.contains(y) <==> (s.contains(y) && y != s[i]) by {
        if t.contains(y) {
            let k = choose|k: int| 0 <= k < t.len() && t[k] == y;
            if k < i {
                assert(s[k] == y);
                assert(entry_lt(s[k], s[i]));
                lemma_entry_lt_irreflexive(y);
            } else {
                assert(s[k + 1] == y);
                assert(entry_lt(s[i], s[k + 1]));
                lemma_entry_lt_irreflexive(y);
            }
        }
        if s.contains(y) && y != s[i] {
            let k = choose|k: int| 0 <= k < s.len() && s[k] == y;
            if k < i {
                assert(t[k] == y);
            } else {
                assert(t[k - 1] == y);
            }
        }
    }
}

/// Puts `e` at its place in the order, unless an equal entry is there already.
fn insert_entry(entries: &mut Vec<Entry>, e: Entry)
    requires
        strictly_sorted(views(old(entries)@)),
    ensures
        strictly_sorted(views(final(entries)@)),
        forall|y: EntryView|
            views(final(entries)@).contains(y) <==> (views(old(entries)@).contains(y) || y == e@),
{
    let ghost s = views(entries@);
    let mut i: usize = 0;
    loop
        invariant
            s == views(entries@),
            entries@ == old(entries)@,
            strictly_sorted(s),
            i <= entries.len(),
            forall|k: int| 0 <= k < i ==> entry_lt(#[trigger] s[k], e@),
        ensures
            i < entries.len() ==> !entry_lt(s[i as int], e@),
        decreases entries.len() - i,
    {
        if i >= entries.len() {
            break ;
        }
        if !entries[i].less_than(&e) {
            break ;
        }
        i = i + 1;
    }
    if i < entries.len() {
        if entries[i] == e {
            proof {
                assert forall|y: EntryView| s.contains(y) <==> (s.contains(y) || y == e@) by {
                    if y == e@ {
                        assert(s[i as int] == y);
                    }
                }
            }
            return ;
        }
        proof {
            lemma_entry_lt_total(s[i as int], e@);
        }
    }
    entries.insert(i, e);
    proof {
        assert(views(entries@) =~= s.insert(i as int, e@));
        lemma_insert_sorted(s, i as int, e@);
    }
}

/// Takes out the entry equal to `e`, if there is one.
fn remove_entry(entries: &mut Vec<Entry>, e: &Entry)
    requires
        strictly_sorted(views(old(entries)@)),
    ensures
        strictly_sorted(views(final(entries)@)),
        forall|y: EntryView|
            views(final(entries)@).contains(y) <==> (views(old(entries)@).contains(y) && y != e@),
{
    let ghost s = views(entries@);
    let mut i: usize = 0;
    while i < entries.len()
        invariant
            s == views(entries@),
            entries@ == old(entries)@,
            strictly_sorted(s),
            i <= entries.len(),
            forall|k: int| 0 <= k < i ==> #[trigger] s[k] != e@,
        decreases entries.len() - i,
    {
        if entries[i] == *e {
            entries.remove(i);
            proof {
                assert(views(entries@) =~= s.remove(i as int));
                lemma_remove_sorted(s, i as int);
            }
            return ;
        }
        i = i + 1;
    }
    proof {
        assert forall|y: EntryView| s.contains(y) <==> (s.contains(y) && y != e@) by {
            if s.contains(y) && y == e@ {
                let k = choose|k: int| 0 <= k < s.len() && s[k] == y;
                assert(s[k] != e@);
            }
        }
    }
}

/// Puts each of `list` at its place in the order, skipping those present.
fn insert_all(entries: &mut Vec<Entry>, list: &Vec<Entry>)
    requires
        strictly_sorted(views(old(entries)@)),
    ensures
        strictly_sorted(views(final(entries)@)),
        forall|y: EntryView|
            #[trigger] views(final(entries)@).contains(y) <==> (views(old(entries)@).contains(y)
                || views(list@).contains(y)),
{
    let ghost s0 = views(entries@);
    let mut i: usize = 0;
    while i < list.len()
        invariant
            i <= list.len(),
            strictly_sorted(views(entries@)),
            forall|y: EntryView|
                #[trigger] views(entries@).contains(y) <==> (s0.contains(y) || exists|k: int|
                    0 <= k < i && (#[trigger] list@[k])@ == y),
        decreases list.len() - i,
    {
        let e = list[i].duplicate();
        let ghost before = views(entries@);
        insert_entry(entries, e);
        proof {
            assert forall|y: EntryView|
                views(entries@).contains(y) <==> (s0.contains(y) || exists|k: int|
                    0 <= k < i + 1 && (#[trigger] list@[k])@ == y) by {
                assert(views(entries@).contains(y) <==> (before.contains(y) || y == e@));
                assert(before.contains(y) <==> (s0.contains(y) || exists|k: int|
                    0 <= k < i && (#[trigger] list@[k])@ == y));
                if exists|k: int| 0 <= k < i + 1 && (#[trigger] list@[k])@ == y {
                    let k = choose|k: int| 0 <= k < i + 1 && (#[trigger] list@[k])@ == y;
                    if k < i {
                        assert(exists|k2: int| 0 <= k2 < i && (#[trigger] list@[k2])@ == y);
                    } else {
                        assert(y == e@);
                    }
                }
                if y == e@ {
                    assert(list@[i as int]@ == y);
                }
                if exists|k: int| 0 <= k < i && (#[trigger] list@[k])@ == y {
                    let k = choose|k: int| 0 <= k < i && (#[trigger] list@[k])@ == y;
                    assert(list@[k]@ == y && 0 <= k < i + 1);
                }
            }
        }
        i = i + 1;
    }
    proof {
        assert forall|y: EntryView|
            views(list@).contains(y) <==> exists|k: int| 0 <= k < list@.len() && (#[trigger] list@[k])@ == y by {
            if views(list@).contains(y) {
                let k = choose|k: int| 0 <= k < views(list@).len() && views(list@)[k] == y;
                assert(list@[k]@ == y);
            }
            if exists|k: int| 0 <= k < list@.len() && (#[trigger] list@[k])@ == y {
                let k = choose|k: int| 0 <= k < list@.len() && (#[trigger] list@[k])@ == y;
                assert(views(list@)[k] == y);
            }
        }
    }
}

/// Where the cursor stands after `a`, on a list of length `len`, when the
/// list itself handles `a` while its screen is interactive.
pub open spec fn moved_cursor(a: Action, c: Option<usize>, len: nat) -> Option<usize> {
    match a {
        Action::CursorUp => match c {
            Some(k) => if k > 0 {
                Some((k - 1) as usize)
            } else {
                Some(k)
            },
            None => None,
        },
        Action::CursorDown => match c {
            Some(k) => if k + 1 < len {
                Some((k + 1) as usize)
            } else {
                Some(k)
            },
            None => None,
        },
        Action::CursorToTop => if len == 0 {
            None
        } else {
            Some(0usize)
        },
        Action::CursorToBottom => if len == 0 {
            None
        } else {
            Some((len - 1) as usize)
        },
        _ => c,
    }
}

/// The actions that change which entries the list holds.
pub open spec fn changes_entries(a: Action) -> bool {
    a is SelectScripts || a is AppendScripts || a is RemoveScript || a is RemoveAllSelectedScripts
}

/// Whether `y` is among the entries after the list's background update
/// with `a`, when `s` were the entries before.
pub open spec fn held_after(a: Action, s: Seq<EntryView>, y: EntryView) -> bool {
    match a {
        Action::SelectScripts(list) => views(list@).contains(y),
        Action::AppendScripts(list) => s.contains(y) || views(list@).contains(y),
        Action::RemoveScript(e) => s.contains(y) && y != e@,
        Action::RemoveAllSelectedScripts => false,
        _ => s.contains(y),
    }
}

/// The selection list component.
pub struct ScrollList {
    entries: Vec<Entry>,
    cursor: Option<usize>,
    config: HashMap<String, String>,
}

impl ScrollList {
    /// The entries, in order.
    pub closed spec fn entries_view(&self) -> Seq<EntryView> {
        views(self.entries@)
    }

    pub closed spec fn cursor_view(&self) -> Option<usize> {
        self.cursor
    }

    pub closed spec fn config_view(&self) -> Map<String, String> {
        self.config@
    }

    /// The entries are in strict order and the cursor is on one of them,
    /// or absent exactly when there is none.
    pub open spec fn wf(&self) -> bool {
        &&& strictly_sorted(self.entries_view())
        &&& match self.cursor_view() {
            None => self.entries_view().len() == 0,
            Some(k) => k < self.entries_view().len(),
        }
    }

    pub fn new() -> (r: ScrollList)
        ensures
            r.wf(),
            r.entries_view() == Seq::<EntryView>::empty(),
            r.cursor_view() == None::<usize>,
            r.config_view() == Map::<String, String>::empty(),
    {
        let r = ScrollList { entries: Vec::new(), cursor: None, config: HashMap::new() };
        assert(r.entries_view() =~= Seq::<EntryView>::empty());
        r
    }

    /// The entries, in order.
    pub fn entries(&self) -> (r: &Vec<Entry>)
        ensures
            views(r@) == self.entries_view(),
    {
        &self.entries
    }

    /// The index of the entry under the cursor, if any.
    pub fn cursor(&self) -> (r: Option<usize>)
        ensures
            r == self.cursor_view(),
    {
        self.cursor
    }

    pub fn register_config_handler(&mut self, config: HashMap<String, String>)
        ensures
            final(self).config_view() == config@,
            final(self).entries_view() == old(self).entries_view(),
            final(self).cursor_view() == old(self).cursor_view(),
    {
        self.config = config;
    }

    pub fn cursor_up(&mut self)
        requires
            old(self).wf(),
        ensures
            final(self).wf(),
            final(self).entries_view() == old(self).entries_view(),
            final(self).config_view() == old(self).config_view(),
            final(self).cursor_view() == match old(self).cursor_view() {
                Some(c) => if c > 0 {
                    Some((c - 1) as usize)
                } else {
                    Some(c)
                },
                None => None,
            },
    {
        if let Some(position) = self.cursor {
            if position > 0 {
                self.cursor = Some(position - 1);
            }
        }
    }

    pub fn cursor_down(&mut self)
        requires
            old(self).wf(),
        ensures
            final(self).wf(),
            final(self).entries_view() == old(self).entries_view(),
            final(self).config_view() == old(self).config_view(),
            final(self).cursor_view() == match old(self).cursor_view() {
                Some(c) => if c + 1 < old(self).entries_view().len() {
                    Some((c + 1) as usize)
                } else {
                    Some(c)
                },
                None => None,
            },
    {
        if let Some(position) = self.cursor {
            let n = self.entries.len();
            assert(self.entries_view().len() == n);
            if position + 1 < n {
                self.cursor = Some(position + 1);
            }
        }
    }

    pub fn go_to_top(&mut self)
        requires
            old(self).wf(),
        ensures
            final(self).wf(),
            final(self).entries_view() == old(self).entries_view(),
            final(self).config_view() == old(self).config_view(),
            final(self).cursor_view() == if old(self).entries_view().len() == 0 {
                None
            } else {
                Some(0usize)
            },
    {
        if self.entries.len() > 0 {
            self.cursor = Some(0);
        }
    }

    pub fn go_to_bottom(&mut self)
        requires
            old(self).wf(),
        ensures
            final(self).wf(),
            final(self).entries_view() == old(self).entries_view(),
            final(self).config_view() == old(self).config_view(),
            final(self).cursor_view() == if old(self).entries_view().len() == 0 {
                None
            } else {
                Some((old(self).entries_view().len() - 1) as usize)
            },
    {
        if self.entries.len() > 0 {
            self.cursor = Some(self.entries.len() - 1);
        }
    }
    fn settle_cursor(&mut self)
        requires
            strictly_sorted(old(self).entries_view()),
        ensures
            final(self).wf(),
            final(self).entries_view() == old(self).entries_view(),
            final(self).config_view() == old(self).config_view(),
            final(self).cursor_view() == settled(
                old(self).cursor_view(),
                old(self).entries_view().len(),
            ),
    {
        let n = self.entries.len();
        assert(self.entries_view().len() == n);
        if n == 0 {
            self.cursor = None;
        } else {
            match self.cursor {
                None => {
                    self.cursor = Some(0);
                },
                Some(k) => {
                    if k >= n {
                        self.cursor = Some(n - 1);
                    }
                },
            }
        }
    }

    /// What a raw terminal event becomes for this list: nothing, as it
    /// reacts to actions alone.
    pub fn handle_events(&self, event: Option<Event>) -> (r: Option<Action>)
        ensures
            r is None,
    {
        None
    }

    /// The update made while the list's screen is interactive: cursor
    /// movement, and turning the removal of the entry under the cursor into
    /// the removal of that entry.
    pub fn update(&mut self, action: &Action) -> (r: Option<Action>)
        requires
            old(self).wf(),
        ensures
            final(self).wf(),
            final(self).entries_view() == old(self).entries_view(),
            final(self).config_view() == old(self).config_view(),
            final(self).cursor_view() == moved_cursor(
                *action,
                old(self).cursor_view(),
                old(self).entries_view().len(),
            ),
            match r {
                Some(Action::RemoveScript(e)) => action is RemoveSelectedScript
                    && old(self).cursor_view() is Some && e@ == old(self).entries_view()[old(
                    self,
                ).cursor_view().unwrap() as int],
                Some(_) => false,
                None => !(action is RemoveSelectedScript && old(self).cursor_view() is Some),
            },
    {
        match action {
            Action::CursorUp => {
                self.cursor_up();
                None
            },
            Action::CursorDown => {
                self.cursor_down();
                None
            },
            Action::CursorToTop => {
                self.go_to_top();
                None
            },
            Action::CursorToBottom => {
                self.go_to_bottom();
                None
            },
            Action::RemoveSelectedScript => {
                match self.cursor {
                    Some(pos) => {
                        assert(self.entries_view()[pos as int] == self.entries@[pos as int]@);
                        Some(Action::RemoveScript(self.entries[pos].duplicate()))
                    },
                    None => None,
                }
            },
            _ => None,
        }
    }

    /// The update made on every action, whichever screen is interactive:
    /// replacing, adding and removing entries. The entries stay in order
    /// without duplicates, and the cursor is settled on the new length.
    pub fn update_background(&mut self, action: &Action) -> (r: Option<Action>)
        requires
            old(self).wf(),
        ensures
            r is None,
            final(self).wf(),
            final(self).config_view() == old(self).config_view(),
            forall|y: EntryView|
                final(self).entries_view().contains(y) <==> held_after(
                    *action,
                    old(self).entries_view(),
                    y,
                ),
            changes_entries(*action) ==> final(self).cursor_view() == settled(
                old(self).cursor_view(),
                final(self).entries_view().len(),
            ),
            !changes_entries(*action) ==> final(self).entries_view() == old(self).entries_view()
                && final(self).cursor_view() == old(self).cursor_view(),
    {
        match action {
            Action::SelectScripts(list) => {
                self.entries = Vec::new();
                assert(self.entries_view() =~= Seq::<EntryView>::empty());
                insert_all(&mut self.entries, list);
                self.settle_cursor();
            },
            Action::AppendScripts(list) => {
                insert_all(&mut self.entries, list);
                self.settle_cursor();
            },
            Action::RemoveScript(e) => {
                remove_entry(&mut self.entries, e);
                self.settle_cursor();
            },
            Action::RemoveAllSelectedScripts => {
                self.entries = Vec::new();
                assert(self.entries_view() =~= Seq::<EntryView>::empty());
                self.settle_cursor();
            },
            _ => {},
        }
        None
    }
}

/// On a well-formed list of length `len`, moving down never leaves the cursor
/// past the last entry, moving up never below the first (it stays on the
/// first), and moving to the bottom of a non-empty list selects the last.
pub proof fn lemma_cursor_stays_in_bounds(c: Option<usize>, len: nat)
    requires
        c is None <==> len == 0,
        c matches Some(k) ==> k < len,
    ensures
        match moved_cursor(Action::CursorDown, c, len) {
            Some(k) => k < len,
            None => len == 0,
        },
        match moved_cursor(Action::CursorUp, c, len) {
            Some(k) => k < len,
            None => len == 0,
        },
        c == Some(0usize) ==> moved_cursor(Action::CursorUp, c, len) == Some(0usize),
        len > 0 ==> moved_cursor(Action::CursorToBottom, c, len) == Some((len - 1) as usize),
{
}

/// Appending the same entries a second time leaves the entries that the
/// first append gave.
pub proof fn lemma_append_twice(
    s0: Seq<EntryView>,
    s1: Seq<EntryView>,
    s2: Seq<EntryView>,
    list: Vec<Entry>,
)
    requires
        forall|y: EntryView| #[trigger] s1.contains(y) <==> held_after(Action::AppendScripts(list), s0, y),
        forall|y: EntryView| #[trigger] s2.contains(y) <==> held_after(Action::AppendScripts(list), s1, y),
    ensures
        forall|y: EntryView| #[trigger] s2.contains(y) <==> s1.contains(y),
{
    assert forall|y: EntryView| #[trigger] s2.contains(y) <==> s1.contains(y) by {
        assert(s1.contains(y) <==> held_after(Action::AppendScripts(list), s0, y));
    }
}

/// Removing an entry and then appending a list that holds just that entry
/// puts it back.
pub proof fn lemma_remove_then_append(
    s0: Seq<EntryView>,
    s1: Seq<EntryView>,
    s2: Seq<EntryView>,
    e: Entry,
    list: Vec<Entry>,
)
    requires
        list@.len() == 1,
        list@[0]@ == e@,
        forall|y: EntryView| #[trigger] s1.contains(y) <==> held_after(Action::RemoveScript(e), s0, y),
        forall|y: EntryView| #[trigger] s2.contains(y) <==> held_after(Action::AppendScripts(list), s1, y),
    ensures
        s2.contains(e@),
{
    assert(views(list@)[0] == e@);
    assert(views(list@).contains(e@));
    assert(held_after(Action::AppendScripts(list), s1, e@));
}

} // verus!
