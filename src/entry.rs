//! One child of a directory, as shown in a listing, and the total order that
//! every listing and the selection list are kept in.
use vstd::prelude::*;

verus! {

/// Lexicographic order on character sequences, by code point.
pub open spec fn text_lt(a: Seq<char>, b: Seq<char>) -> bool
    decreases a.len(),
{
    if a.len() == 0 {
        b.len() > 0
    } else if b.len() == 0 {
        false
    } else if a[0] != b[0] {
        a[0] < b[0]
    } else {
        text_lt(a.drop_first(), b.drop_first())
    }
}

pub proof fn lemma_text_lt_irreflexive(a: Seq<char>)
    ensures
        !text_lt(a, a),
    decreases a.len(),
{
    if a.len() > 0 {
        lemma_text_lt_irreflexive(a.drop_first());
    }
}

pub proof fn lemma_text_lt_transitive(a: Seq<char>, b: Seq<char>, c: Seq<char>)
    requires
        text_lt(a, b),
        text_lt(b, c),
    ensures
        text_lt(a, c),
    decreases a.len(),
{
    if a.len() > 0 && b.len() > 0 && c.len() > 0 {
        if a[0] == b[0] && b[0] == c[0] {
            lemma_text_lt_transitive(a.drop_first(), b.drop_first(), c.drop_first());
        }
    }
}

pub proof fn lemma_text_lt_total(a: Seq<char>, b: Seq<char>)
    requires
        a != b,
    ensures
        text_lt(a, b) || text_lt(b, a),
    decreases a.len(),
{
    if a.len() > 0 && b.len() > 0 {
        if a[0] == b[0] {
            if a.drop_first() == b.drop_first() {
                assert(a =~= seq![a[0]] + a.drop_first());
                assert(b =~= seq![b[0]] + b.drop_first());
            }
            lemma_text_lt_total(a.drop_first(), b.drop_first());
        }
    } else if a.len() == 0 && b.len() == 0 {
        assert(a =~= b);
    }
}

pub proof fn lemma_text_lt_asymmetric(a: Seq<char>, b: Seq<char>)
    requires
        text_lt(a, b),
    ensures
        !text_lt(b, a),
{
    if text_lt(b, a) {
        lemma_text_lt_transitive(a, b, a);
        lemma_text_lt_irreflexive(a);
    }
}

/// Whether `a` comes strictly before `b` in code-point order.
pub fn text_less(a: &str, b: &str) -> (r: bool)
    ensures
        r == text_lt(a@, b@),
{
    let la = a.unicode_len();
    let lb = b.unicode_len();
    let mut i: usize = 0;
    assert(a@.skip(0) =~= a@);
    assert(b@.skip(0) =~= b@);
    while i < la && i < lb
        invariant
            la == a@.len(),
            lb == b@.len(),
            i <= la,
            i <= lb,
            text_lt(a@, b@) == text_lt(a@.skip(i as int), b@.skip(i as int)),
        decreases la - i,
    {
        let ca = a.get_char(i);
        let cb = b.get_char(i);
        if ca != cb {
            assert(a@.skip(i as int)[0] == ca);
            assert(b@.skip(i as int)[0] == cb);
            return ca < cb;
        }
        assert(a@.skip(i as int).drop_first() =~= a@.skip(i + 1));
        assert(b@.skip(i as int).drop_first() =~= b@.skip(i + 1));
        i = i + 1;
    }
    assert(a@.skip(i as int).len() == la - i);
    assert(b@.skip(i as int).len() == lb - i);
    i < lb
}

/// The mathematical value of an [`Entry`].
pub struct EntryView {
    pub is_directory: bool,
    pub relative_path: Seq<char>,
    pub name: Seq<char>,
    pub selected: bool,
}

/// The order of entries: files before directories, then by relative path,
/// then by name, then unselected before selected.
pub open spec fn entry_lt(a: EntryView, b: EntryView) -> bool {
    (!a.is_directory && b.is_directory) || (a.is_directory == b.is_directory && (text_lt(
        a.relative_path,
        b.relative_path,
    ) || (a.relative_path == b.relative_path && (text_lt(a.name, b.name) || (a.name == b.name
        && !a.selected && b.selected)))))
}

pub proof fn lemma_entry_lt_irreflexive(a: EntryView)
    ensures
        !entry_lt(a, a),
{
    lemma_text_lt_irreflexive(a.relative_path);
    lemma_text_lt_irreflexive(a.name);
}

pub proof fn lemma_entry_lt_transitive(a: EntryView, b: EntryView, c: EntryView)
    requires
        entry_lt(a, b),
        entry_lt(b, c),
    ensures
        entry_lt(a, c),
{
    if text_lt(a.relative_path, b.relative_path) && text_lt(b.relative_path, c.relative_path) {
        lemma_text_lt_transitive(a.relative_path, b.relative_path, c.relative_path);
    }
    if text_lt(a.name, b.name) && text_lt(b.name, c.name) {
        lemma_text_lt_transitive(a.name, b.name, c.name);
    }
}

pub proof fn lemma_entry_lt_total(a: EntryView, b: EntryView)
    requires
        a != b,
    ensures
        entry_lt(a, b) || entry_lt(b, a),
{
    if a.relative_path != b.relative_path {
        lemma_text_lt_total(a.relative_path, b.relative_path);
    }
    if a.name != b.name {
        lemma_text_lt_total(a.name, b.name);
    }
}

pub proof fn lemma_entry_lt_asymmetric(a: EntryView, b: EntryView)
    requires
        entry_lt(a, b),
    ensures
        !entry_lt(b, a),
{
    if entry_lt(b, a) {
        lemma_entry_lt_transitive(a, b, a);
        lemma_entry_lt_irreflexive(a);
    }
}

/// A file or directory below the repository root.
#[derive(Debug, Clone)]
pub struct Entry {
    pub is_directory: bool,
    /// Path relative to the repository root, without a leading separator.
    pub relative_path: String,
    pub name: String,
    pub selected: bool,
}

impl View for Entry {
    type V = EntryView;

    open spec fn view(&self) -> EntryView {
        EntryView {
            is_directory: self.is_directory,
            relative_path: self.relative_path@,
            name: self.name@,
            selected: self.selected,
        }
    }
}

impl PartialEq for Entry {
    fn eq(&self, o: &Entry) -> (r: bool) {
        self.is_directory == o.is_directory && self.relative_path == o.relative_path && self.name
            == o.name && self.selected == o.selected
    }
}

impl vstd::std_specs::cmp::PartialEqSpecImpl for Entry {
    open spec fn obeys_eq_spec() -> bool {
        true
    }

    open spec fn eq_spec(&self, o: &Entry) -> bool {
        self@ == o@
    }
}

impl Eq for Entry {

}

impl Entry {
    pub fn new(is_directory: bool, relative_path: String, name: String) -> (r: Entry)
        ensures
            r@ == (EntryView {
                is_directory,
                relative_path: relative_path@,
                name: name@,
                selected: false,
            }),
    {
        Entry { is_directory, relative_path, name, selected: false }
    }

    /// A copy with the same value.
    pub fn duplicate(&self) -> (r: Entry)
        ensures
            r@ == self@,
    {
        Entry {
            is_directory: self.is_directory,
            relative_path: self.relative_path.clone(),
            name: self.name.clone(),
            selected: self.selected,
        }
    }

    /// Whether this entry comes strictly before `o` in listing order.
    pub fn less_than(&self, o: &Entry) -> (r: bool)
        ensures
            r == entry_lt(self@, o@),
    {
        if self.is_directory != o.is_directory {
            return !self.is_directory;
        }
        if text_less(self.relative_path.as_str(), o.relative_path.as_str()) {
            return true;
        }
        if self.relative_path != o.relative_path {
            return false;
        }
        if text_less(self.name.as_str(), o.name.as_str()) {
            return true;
        }
        if self.name != o.name {
            return false;
        }
        !self.selected && o.selected
    }
}

} // verus!
