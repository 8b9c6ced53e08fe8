//! Navigation confined to a root directory, and the listings of the current
//! directory built from what was read from disk.
use std::path::PathBuf;
use vstd::prelude::*;

use crate::entry::{
    entry_lt, lemma_entry_lt_asymmetric, lemma_entry_lt_total, lemma_entry_lt_transitive, Entry,
    EntryView,
};
use crate::scroll_list::{strictly_sorted, views};
use vstd::seq_lib::{
    to_multiset_build, to_multiset_contains, to_multiset_insert, to_multiset_len, to_multiset_remove,
};

verus! {

/// The text of `base` joined with `name` as one more path component: a name
/// that starts at the root replaces the base; otherwise a separator goes
/// between them unless the base is empty or already ends in one.
pub open spec fn path_join(base: Seq<char>, name: Seq<char>) -> Seq<char> {
    if name.len() > 0 && name[0] == SEPARATOR {
        name
    } else if base.len() == 0 || base.last() == SEPARATOR {
        base + name
    } else {
        base + seq![SEPARATOR] + name
    }
}

#[verifier::external_type_specification]
#[verifier::external_body]
pub struct ExPathBuf(PathBuf);

/// Relies on `Path::join` on Unix: `name` appended to `base` as one more
/// component, as `PathBuf::push` documents it.
/// Both are valid text, so the joined path is too and the lossy conversion
/// back to text changes nothing.
#[verifier::external_body]
fn join_path(base: &str, name: &str) -> (r: String)
    ensures
        r@ == path_join(base@, name@),
{
    std::path::Path::new(base).join(name).to_string_lossy().into_owned()
}

/// Relies on `PathBuf::from`: the path whose text is `s`.
#[verifier::external_body]
fn to_path_buf(s: String) -> PathBuf {
    PathBuf::from(s)
}

/// The separator between path components.
pub const SEPARATOR: char = '/';

/// `s` without the separators it starts with.
pub open spec fn trim_separators(s: Seq<char>) -> Seq<char>
    decreases s.len(),
{
    if s.len() > 0 && s[0] == SEPARATOR {
        trim_separators(s.drop_first())
    } else {
        s
    }
}

fn trim_leading_separators(s: &str) -> (r: String)
    ensures
        r@ == trim_separators(s@),
{
    let n = s.unicode_len();
    let mut i: usize = 0;
    assert(s@.skip(0) =~= s@);
    while i < n
        invariant
            n == s@.len(),
            i <= n,
            trim_separators(s@) == trim_separators(s@.skip(i as int)),
        ensures
            i <= n,
            i == n || s@[i as int] != SEPARATOR,
            trim_separators(s@) == trim_separators(s@.skip(i as int)),
        decreases n - i,
    {
        if s.get_char(i) != SEPARATOR {
            break ;
        }
        assert(s@.skip(i as int).drop_first() =~= s@.skip(i + 1));
        i = i + 1;
    }
    let t = s.substring_char(i, n);
    assert(t@ =~= s@.skip(i as int));
    t.to_owned()
}

/// `full` without `root` when `root` is its prefix; `full` itself when not.
pub open spec fn strip_root(root: Seq<char>, full: Seq<char>) -> Seq<char> {
    if root.len() <= full.len() && full.take(root.len() as int) == root {
        full.skip(root.len() as int)
    } else {
        full
    }
}

/// The path of `full` relative to `root`: the root's text taken off the
/// front, then the leading separators.
pub open spec fn relative_of(root: Seq<char>, full: Seq<char>) -> Seq<char> {
    trim_separators(strip_root(root, full))
}

fn strip_root_text(root: &str, full: &str) -> (r: String)
    ensures
        r@ == strip_root(root@, full@),
{
    let n = root.unicode_len();
    let m = full.unicode_len();
    if n > m {
        return full.to_owned();
    }
    let mut i: usize = 0;
    while i < n
        invariant
            n == root@.len(),
            m == full@.len(),
            n <= m,
            i <= n,
            full@.take(i as int) == root@.take(i as int),
        decreases n - i,
    {
        if root.get_char(i) != full.get_char(i) {
            assert(full@.take(n as int)[i as int] != root@[i as int]);
            return full.to_owned();
        }
        assert(full@.take(i + 1) =~= full@.take(i as int).push(full@[i as int]));
        assert(root@.take(i + 1) =~= root@.take(i as int).push(root@[i as int]));
        i = i + 1;
    }
    assert(root@.take(n as int) =~= root@);
    let t = full.substring_char(n, m);
    assert(t@ =~= full@.skip(n as int));
    t.to_owned()
}

/// Whether a child of that name is never listed: hidden or private.
pub open spec fn is_hidden(name: Seq<char>) -> bool {
    name.len() > 0 && (name[0] == '.' || name[0] == '_')
}

/// Whether a file of that name is a script: its extension is `sql`.
pub open spec fn is_script_name(name: Seq<char>) -> bool {
    name.len() > 4 && name.subrange(name.len() - 4, name.len() as int) =~= seq!['.', 's', 'q', 'l']
}

fn hidden(name: &str) -> (r: bool)
    ensures
        r == is_hidden(name@),
{
    if name.unicode_len() == 0 {
        return false;
    }
    let c = name.get_char(0);
    c == '.' || c == '_'
}

fn script_name(name: &str) -> (r: bool)
    ensures
        r == is_script_name(name@),
{
    let n = name.unicode_len();
    if n <= 4 {
        return false;
    }
    name.get_char(n - 4) == '.' && name.get_char(n - 3) == 's' && name.get_char(n - 2) == 'q'
        && name.get_char(n - 1) == 'l'
}

/// One child of a directory as read from disk: its name when that is valid
/// text, and whether it is a directory.
pub struct DirChild {
    pub name: Option<String>,
    pub is_directory: bool,
}

pub struct DirChildView {
    pub name: Option<Seq<char>>,
    pub is_directory: bool,
}

impl View for DirChild {
    type V = DirChildView;

    open spec fn view(&self) -> DirChildView {
        DirChildView {
            name: match self.name {
                Some(n) => Some(n@),
                None => None,
            },
            is_directory: self.is_directory,
        }
    }
}

pub open spec fn child_views(s: Seq<DirChild>) -> Seq<DirChildView> {
    s.map_values(|c: DirChild| c@)
}

/// Why a repository could not be opened at a root.
#[derive(Debug)]
pub enum RepositoryError {
    DoesNotExist,
    IOError(String),
    NotUTF8,
}

pub struct RepositoryView {
    pub root: Seq<char>,
    pub path: Seq<Seq<char>>,
}

/// The root, fixed, and the stack of directory names opened below it.
pub struct Repository {
    root_str: String,
    path: Vec<String>,
}

/// The text of `root` joined with each of `path` in turn.
pub open spec fn joined_all(root: Seq<char>, path: Seq<Seq<char>>) -> Seq<char>
    decreases path.len(),
{
    if path.len() == 0 {
        root
    } else {
        path_join(joined_all(root, path.drop_last()), path.last())
    }
}

/// The entry shown for a child `c` of directory `dir`, if it is listed:
/// visible, and a directory or a script.
pub open spec fn listed_entry(root: Seq<char>, dir: Seq<char>, c: DirChildView) -> Option<
    EntryView,
> {
    match c.name {
        None => None,
        Some(n) => if is_hidden(n) || !(c.is_directory || is_script_name(n)) {
            None
        } else {
            Some(
                EntryView {
                    is_directory: c.is_directory,
                    relative_path: relative_of(root, path_join(dir, n)),
                    name: n,
                    selected: false,
                },
            )
        },
    }
}

/// The relative path and name of a child `c` of `dir`, if it is a visible
/// script file.
pub open spec fn listed_file(root: Seq<char>, dir: Seq<char>, c: DirChildView) -> Option<
    (Seq<char>, Seq<char>),
> {
    match c.name {
        None => None,
        Some(n) => if is_hidden(n) || c.is_directory || !is_script_name(n) {
            None
        } else {
            Some((relative_of(root, path_join(dir, n)), n))
        },
    }
}

/// The relative path of a child `c` of `dir`, if it is visible and named
/// like a script, directory or not.
pub open spec fn listed_child(root: Seq<char>, dir: Seq<char>, c: DirChildView) -> Option<
    Seq<char>,
> {
    match c.name {
        None => None,
        Some(n) => if is_hidden(n) || !is_script_name(n) {
            None
        } else {
            Some(relative_of(root, path_join(dir, n)))
        },
    }
}

/// The paths of the files that come after the first one named `marker`;
/// none when no file is so named.
pub open spec fn paths_after(files: Seq<(Seq<char>, Seq<char>)>, marker: Seq<char>) -> Seq<
    Seq<char>,
>
    decreases files.len(),
{
    if files.len() == 0 {
        Seq::empty()
    } else if files[0].1 == marker {
        files.drop_first().map_values(|f: (Seq<char>, Seq<char>)| f.0)
    } else {
        paths_after(files.drop_first(), marker)
    }
}

/// `s` in listing order: no element comes before an earlier one.
pub open spec fn sorted(s: Seq<EntryView>) -> bool {
    forall|i: int, j: int| 0 <= i < j < s.len() ==> !#[trigger] entry_lt(s[j], s[i])
}

proof fn lemma_insert_keeps_sorted(s: Seq<EntryView>, p: int, x: EntryView)
    requires
        sorted(s),
        0 <= p <= s.len(),
        forall|k: int| 0 <= k < p ==> !entry_lt(x, #[trigger] s[k]),
        p < s.len() ==> entry_lt(x, s[p]),
    ensures
        sorted(s.insert(p, x)),
{
    let t = s.insert(p, x);
    assert forall|a: int, b: int| 0 <= a < b < t.len() implies !#[trigger] entry_lt(t[b], t[a]) by {
        if b < p {
            assert(!entry_lt(s[b], s[a]));
        } else if b == p {
            assert(!entry_lt(x, s[a]));
        } else if a < p {
            assert(!entry_lt(s[b - 1], s[a]));
        } else if a == p {
            if entry_lt(s[b - 1], x) {
                if s[p] != s[b - 1] {
                    lemma_entry_lt_total(s[p], s[b - 1]);
                    lemma_entry_lt_transitive(x, s[p], s[b - 1]);
                }
                lemma_entry_lt_asymmetric(x, s[b - 1]);
            }
        } else {
            assert(!entry_lt(s[b - 1], s[a - 1]));
        }
    }
}

/// Sorts `v` into listing order, keeping every element.
fn sort_entries(v: Vec<Entry>) -> (r: Vec<Entry>)
    ensures
        sorted(views(r@)),
        views(r@).to_multiset() == views(v@).to_multiset(),
{
    let mut r: Vec<Entry> = Vec::new();
    let mut i: usize = 0;
    assert(views(r@) =~= views(v@).take(0));
    while i < v.len()
        invariant
            i <= v.len(),
            sorted(views(r@)),
            views(r@).to_multiset() == views(v@).take(i as int).to_multiset(),
        decreases v.len() - i,
    {
        let e = v[i].duplicate();
        let ghost s = views(r@);
        let mut p: usize = 0;
        while p < r.len()
            invariant
                s == views(r@),
                p <= r.len(),
                forall|k: int| 0 <= k < p ==> !entry_lt(e@, #[trigger] s[k]),
            ensures
                p <= r.len(),
                p < r.len() ==> entry_lt(e@, s[p as int]),
            decreases r.len() - p,
        {
            if e.less_than(&r[p]) {
                break ;
            }
            p = p + 1;
        }
        r.insert(p, e);
        proof {
            assert(views(r@) =~= s.insert(p as int, e@));
            lemma_insert_keeps_sorted(s, p as int, e@);
            to_multiset_insert(s, p as int, e@);
            assert(views(v@).take(i + 1) =~= views(v@).take(i as int).push(e@));
            to_multiset_build(views(v@).take(i as int), e@);
        }
        i = i + 1;
    }
    assert(views(v@).take(v.len() as int) =~= views(v@));
    r
}

/// The entries listed for the children `listing` of `dir`, in listing order.
pub open spec fn listed_entries(root: Seq<char>, dir: Seq<char>, listing: Seq<DirChildView>) -> Seq<
    EntryView,
> {
    listing.filter_map(|c: DirChildView| listed_entry(root, dir, c))
}

/// The script files among the children `listing` of `dir`, in listing
/// order, each as its relative path and name.
pub open spec fn listed_files(root: Seq<char>, dir: Seq<char>, listing: Seq<DirChildView>) -> Seq<
    (Seq<char>, Seq<char>),
> {
    listing.filter_map(|c: DirChildView| listed_file(root, dir, c))
}

/// The relative paths of the script-named children `listing` of `dir`.
pub open spec fn listed_children(
    root: Seq<char>,
    dir: Seq<char>,
    listing: Seq<DirChildView>,
) -> Seq<Seq<char>> {
    listing.filter_map(|c: DirChildView| listed_child(root, dir, c))
}

pub open spec fn texts(s: Seq<String>) -> Seq<Seq<char>> {
    s.map_values(|t: String| t@)
}

pub open spec fn text_pairs(s: Seq<(String, String)>) -> Seq<(Seq<char>, Seq<char>)> {
    s.map_values(|t: (String, String)| (t.0@, t.1@))
}

impl Repository {
    pub closed spec fn view(&self) -> RepositoryView {
        RepositoryView { root: self.root_str@, path: self.path@.map_values(|s: String| s@) }
    }

    /// The text of the current directory: the root joined with each name
    /// on the stack.
    pub open spec fn current(&self) -> Seq<char> {
        joined_all(self.view().root, self.view().path)
    }

    /// Opens a repository at the root whose text is `root`, `None` when the
    /// root's path is not valid text; `exists` is what was found on disk of
    /// whether it is there.
    pub fn new(root: Option<String>, exists: Result<bool, String>) -> (r: Result<
        Repository,
        RepositoryError,
    >)
        ensures
            match root {
                None => r matches Err(RepositoryError::NotUTF8),
                Some(text) => match exists {
                    Err(e) => match r {
                        Err(RepositoryError::IOError(m)) => m@ == e@,
                        _ => false,
                    },
                    Ok(false) => r matches Err(RepositoryError::DoesNotExist),
                    Ok(true) => match r {
                        Ok(repo) => repo.view().root == text@ && repo.view().path.len() == 0,
                        _ => false,
                    },
                },
            },
    {
        let root_str = match root {
            Some(text) => text,
            None => return Err(RepositoryError::NotUTF8),
        };
        match exists {
            Err(e) => Err(RepositoryError::IOError(e)),
            Ok(false) => Err(RepositoryError::DoesNotExist),
            Ok(true) => {
                let repo = Repository { root_str, path: Vec::new() };
                assert(repo.view().path =~= Seq::<Seq<char>>::empty());
                Ok(repo)
            },
        }
    }

    /// The root's text.
    pub fn base_as_str(&self) -> (r: String)
        ensures
            r@ == self.view().root,
    {
        self.root_str.clone()
    }

    /// The root's path.
    pub fn base_as_path_buf(&self) -> PathBuf {
        to_path_buf(self.root_str.clone())
    }

    /// The text of the current directory.
    pub fn current_as_str(&self) -> (r: String)
        ensures
            r@ == self.current(),
    {
        let mut acc = self.root_str.clone();
        let mut i: usize = 0;
        while i < self.path.len()
            invariant
                i <= self.path.len(),
                acc@ == joined_all(self.view().root, self.view().path.take(i as int)),
            decreases self.path.len() - i,
        {
            acc = join_path(acc.as_str(), self.path[i].as_str());
            proof {
                let t = self.view().path.take(i + 1);
                assert(t.drop_last() =~= self.view().path.take(i as int));
            }
            i = i + 1;
        }
        assert(self.view().path.take(i as int) =~= self.view().path);
        acc
    }

    /// The path of the current directory.
    pub fn current_as_path_buf(&self) -> PathBuf {
        to_path_buf(self.current_as_str())
    }

    /// The path of the current directory relative to the root.
    pub fn current_relative_as_path_buf(&mut self) -> (r: PathBuf)
        ensures
            final(self).view() == old(self).view(),
    {
        to_path_buf(self.current_relative_as_str())
    }

    /// The text of the current directory with the root's text taken off
    /// its front.
    pub fn current_relative_as_str(&self) -> (r: String)
        ensures
            r@ == strip_root(self.view().root, self.current()),
    {
        let c = self.current_as_str();
        strip_root_text(self.root_str.as_str(), c.as_str())
    }

    /// Goes down into `directory_name`, which is not checked to exist.
    pub fn open_directory(&mut self, directory_name: &str)
        ensures
            final(self).view().root == old(self).view().root,
            final(self).view().path == old(self).view().path.push(directory_name@),
    {
        let name = directory_name.to_owned();
        self.path.push(name);
        assert(self.view().path =~= old(self).view().path.push(directory_name@));
    }

    /// Goes up one level and returns the name left; nothing at the root.
    pub fn leave_directory(&mut self) -> (r: Option<String>)
        ensures
            final(self).view().root == old(self).view().root,
            old(self).view().path.len() == 0 ==> r is None && final(self).view().path == old(
                self,
            ).view().path,
            old(self).view().path.len() > 0 ==> r is Some && r.unwrap()@ == old(
                self,
            ).view().path.last() && final(self).view().path == old(self).view().path.drop_last(),
    {
        let r = self.path.pop();
        assert(self.view().path =~= old(self).view().path.take(self.path@.len() as int));
        r
    }
    /// The relative path of the child `name` of directory `dir`.
    fn relative_child(&self, dir: &str, name: &str) -> (r: String)
        ensures
            r@ == relative_of(self.view().root, path_join(dir@, name@)),
    {
        let full = join_path(dir, name);
        let cut = strip_root_text(self.root_str.as_str(), full.as_str());
        trim_leading_separators(cut.as_str())
    }

    /// The entries of the current directory, given its children as read
    /// from disk (none when it could not be read): the visible
    /// subdirectories and script files, in listing order.
    pub fn entries_from_listing(&self, listing: &Vec<DirChild>) -> (r: Vec<Entry>)
        ensures
            sorted(views(r@)),
            views(r@).to_multiset() == listed_entries(
                self.view().root,
                self.current(),
                child_views(listing@),
            ).to_multiset(),
    {
        let dir = self.current_as_str();
        let ghost cs = child_views(listing@);
        let ghost f = |c: DirChildView| listed_entry(self.view().root, dir@, c);
        let mut kept: Vec<Entry> = Vec::new();
        let mut i: usize = 0;
        assert(cs.take(0).filter_map(f) =~= Seq::<EntryView>::empty());
        while i < listing.len()
            invariant
                i <= listing.len(),
                cs == child_views(listing@),
                f == (|c: DirChildView| listed_entry(self.view().root, dir@, c)),
                views(kept@) == cs.take(i as int).filter_map(f),
            decreases listing.len() - i,
        {
            let c = &listing[i];
            proof {
                cs.lemma_filter_map_take_succ(f, i as int);
            }
            match &c.name {
                Some(n) => {
                    if !hidden(n.as_str()) && (c.is_directory || script_name(n.as_str())) {
                        let rel = self.relative_child(dir.as_str(), n.as_str());
                        let e = Entry::new(c.is_directory, rel, n.clone());
                        kept.push(e);
                        assert(views(kept@) =~= cs.take(i + 1).filter_map(f));
                    } else {
                        assert(views(kept@) =~= cs.take(i + 1).filter_map(f));
                    }
                },
                None => {
                    assert(views(kept@) =~= cs.take(i + 1).filter_map(f));
                },
            }
            i = i + 1;
        }
        assert(cs.take(i as int) =~= cs);
        sort_entries(kept)
    }

    /// The script files of the current directory, each as its relative path
    /// and name, in listing order.
    fn script_files(&self, listing: &Vec<DirChild>) -> (r: Vec<(String, String)>)
        ensures
            text_pairs(r@) == listed_files(self.view().root, self.current(), child_views(listing@)),
    {
        let dir = self.current_as_str();
        let ghost cs = child_views(listing@);
        let ghost f = |c: DirChildView| listed_file(self.view().root, dir@, c);
        let mut kept: Vec<(String, String)> = Vec::new();
        let mut i: usize = 0;
        assert(cs.take(0).filter_map(f) =~= Seq::<(Seq<char>, Seq<char>)>::empty());
        while i < listing.len()
            invariant
                i <= listing.len(),
                cs == child_views(listing@),
                f == (|c: DirChildView| listed_file(self.view().root, dir@, c)),
                text_pairs(kept@) == cs.take(i as int).filter_map(f),
            decreases listing.len() - i,
        {
            let c = &listing[i];
            proof {
                cs.lemma_filter_map_take_succ(f, i as int);
            }
            match &c.name {
                Some(n) => {
                    if !hidden(n.as_str()) && !c.is_directory && script_name(n.as_str()) {
                        let rel = self.relative_child(dir.as_str(), n.as_str());
                        kept.push((rel, n.clone()));
                        assert(text_pairs(kept@) =~= cs.take(i + 1).filter_map(f));
                    } else {
                        assert(text_pairs(kept@) =~= cs.take(i + 1).filter_map(f));
                    }
                },
                None => {
                    assert(text_pairs(kept@) =~= cs.take(i + 1).filter_map(f));
                },
            }
            i = i + 1;
        }
        assert(cs.take(i as int) =~= cs);
        kept
    }

    /// The relative paths of the script files of the current directory, in
    /// listing order.
    pub fn files_from_listing(&self, listing: &Vec<DirChild>) -> (r: Vec<String>)
        ensures
            texts(r@) == listed_files(self.view().root, self.current(), child_views(listing@)).map_values(
                |f: (Seq<char>, Seq<char>)| f.0,
            ),
    {
        let files = self.script_files(listing);
        let mut r: Vec<String> = Vec::new();
        let mut i: usize = 0;
        while i < files.len()
            invariant
                i <= files.len(),
                texts(r@) =~= text_pairs(files@).take(i as int).map_values(
                    |f: (Seq<char>, Seq<char>)| f.0,
                ),
            decreases files.len() - i,
        {
            let t = files[i].0.clone();
            assert(t@ == text_pairs(files@)[i as int].0);
            let ghost prev = texts(r@);
            r.push(t);
            assert(texts(r@) =~= prev.push(t@));
            assert(text_pairs(files@).take(i + 1) =~= text_pairs(files@).take(i as int).push(
                text_pairs(files@)[i as int],
            ));
            assert(texts(r@) =~= text_pairs(files@).take(i + 1).map_values(
                |f: (Seq<char>, Seq<char>)| f.0,
            ));
            i = i + 1;
        }
        assert(text_pairs(files@).take(i as int) =~= text_pairs(files@));
        r
    }

    /// The relative paths of the script files of the current directory
    /// that come after the one named `marker`, in listing order; none when
    /// no script file is so named.
    pub fn files_after_from_listing(&self, listing: &Vec<DirChild>, marker: &str) -> (r: Vec<
        String,
    >)
        ensures
            texts(r@) == paths_after(
                listed_files(self.view().root, self.current(), child_views(listing@)),
                marker@,
            ),
    {
        let files = self.script_files(listing);
        let ghost fs = text_pairs(files@);
        let mut i: usize = 0;
        assert(fs.skip(0) =~= fs);
        while i < files.len()
            invariant
                i <= files.len(),
                fs == text_pairs(files@),
                paths_after(fs, marker@) == paths_after(fs.skip(i as int), marker@),
            ensures
                i <= files.len(),
                paths_after(fs, marker@) == paths_after(fs.skip(i as int), marker@),
                i < files.len() ==> fs[i as int].1 == marker@,
            decreases files.len() - i,
        {
            if files[i].1 == marker.to_owned() {
                break ;
            }
            assert(fs.skip(i as int).drop_first() =~= fs.skip(i + 1));
            i = i + 1;
        }
        let mut r: Vec<String> = Vec::new();
        if i == files.len() {
            assert(fs.skip(i as int).len() == 0);
            assert(texts(r@) =~= Seq::<Seq<char>>::empty());
            return r;
        }
        let ghost rest = fs.skip(i + 1);
        assert(fs.skip(i as int).drop_first() =~= rest);
        let mut j: usize = i + 1;
        while j < files.len()
            invariant
                i < j <= files.len(),
                fs == text_pairs(files@),
                rest == fs.skip(i + 1),
                texts(r@) =~= rest.take(j - i - 1).map_values(|f: (Seq<char>, Seq<char>)| f.0),
            decreases files.len() - j,
        {
            let t = files[j].0.clone();
            assert(t@ == rest[j - i - 1].0);
            let ghost prev = texts(r@);
            r.push(t);
            assert(texts(r@) =~= prev.push(t@));
            assert(rest.take(j - i) =~= rest.take(j - i - 1).push(rest[j - i - 1]));
            assert(texts(r@) =~= rest.take(j - i).map_values(|f: (Seq<char>, Seq<char>)| f.0));
            j = j + 1;
        }
        assert(rest.take(j - i - 1) =~= rest);
        r
    }

    /// The relative paths of the visible, script-named children of the
    /// directory `path` below the root, given its children as read from disk.
    pub fn children_from_listing(&self, path: &str, listing: &Vec<DirChild>) -> (r: Vec<String>)
        ensures
            texts(r@) == listed_children(
                self.view().root,
                path_join(self.view().root, path@),
                child_views(listing@),
            ),
    {
        let dir = join_path(self.root_str.as_str(), path);
        let ghost cs = child_views(listing@);
        let ghost f = |c: DirChildView| listed_child(self.view().root, dir@, c);
        let mut kept: Vec<String> = Vec::new();
        let mut i: usize = 0;
        assert(cs.take(0).filter_map(f) =~= Seq::<Seq<char>>::empty());
        while i < listing.len()
            invariant
                i <= listing.len(),
                cs == child_views(listing@),
                f == (|c: DirChildView| listed_child(self.view().root, dir@, c)),
                texts(kept@) == cs.take(i as int).filter_map(f),
            decreases listing.len() - i,
        {
            let c = &listing[i];
            proof {
                cs.lemma_filter_map_take_succ(f, i as int);
            }
            match &c.name {
                Some(n) => {
                    if !hidden(n.as_str()) && script_name(n.as_str()) {
                        let rel = self.relative_child(dir.as_str(), n.as_str());
                        kept.push(rel);
                        assert(texts(kept@) =~= cs.take(i + 1).filter_map(f));
                    } else {
                        assert(texts(kept@) =~= cs.take(i + 1).filter_map(f));
                    }
                },
                None => {
                    assert(texts(kept@) =~= cs.take(i + 1).filter_map(f));
                },
            }
            i = i + 1;
        }
        assert(cs.take(i as int) =~= cs);
        kept
    }
}

proof fn lemma_listed_entries_last(root: Seq<char>, dir: Seq<char>, listing: Seq<DirChildView>)
    requires
        listing.len() > 0,
    ensures
        listed_entries(root, dir, listing) == match listed_entry(root, dir, listing.last()) {
            Some(x) => listed_entries(root, dir, listing.drop_last()) + seq![x],
            None => listed_entries(root, dir, listing.drop_last()),
        },
{
}

/// No entry of a listing of the current directory is hidden or private,
/// whatever order the entries come in.
pub proof fn lemma_listing_hides_dot_and_underscore(
    root: Seq<char>,
    dir: Seq<char>,
    listing: Seq<DirChildView>,
    r: Seq<EntryView>,
)
    requires
        r.to_multiset() == listed_entries(root, dir, listing).to_multiset(),
    ensures
        forall|i: int| 0 <= i < r.len() ==> !is_hidden(#[trigger] r[i].name),
{
    let l = listed_entries(root, dir, listing);
    assert forall|i: int| 0 <= i < r.len() implies !is_hidden(#[trigger] r[i].name) by {
        to_multiset_contains(r, r[i]);
        to_multiset_contains(l, r[i]);
        let j = choose|j: int| 0 <= j < l.len() && l[j] == r[i];
        lemma_listed_entries_visible(root, dir, listing, j);
    }
}

proof fn lemma_listed_entries_visible(
    root: Seq<char>,
    dir: Seq<char>,
    listing: Seq<DirChildView>,
    j: int,
)
    requires
        0 <= j < listed_entries(root, dir, listing).len(),
    ensures
        !is_hidden(listed_entries(root, dir, listing)[j].name),
    decreases listing.len(),
{
    lemma_listed_entries_last(root, dir, listing);
    let rest = listed_entries(root, dir, listing.drop_last());
    if j < rest.len() {
        lemma_listed_entries_visible(root, dir, listing.drop_last(), j);
    }
}

/// Each entry of a listing comes from one child: it is what that child
/// is listed as, under the child's name.
proof fn lemma_listed_entries_source(
    root: Seq<char>,
    dir: Seq<char>,
    listing: Seq<DirChildView>,
    j: int,
)
    requires
        0 <= j < listed_entries(root, dir, listing).len(),
    ensures
        exists|k: int|
            0 <= k < listing.len() && (#[trigger] listing[k]).name == Some(
                listed_entries(root, dir, listing)[j].name,
            ) && listed_entry(root, dir, listing[k]) == Some(listed_entries(root, dir, listing)[j]),
    decreases listing.len(),
{
    lemma_listed_entries_last(root, dir, listing);
    let rest = listed_entries(root, dir, listing.drop_last());
    let l = listed_entries(root, dir, listing);
    if j < rest.len() {
        lemma_listed_entries_source(root, dir, listing.drop_last(), j);
        let k = choose|k: int|
            0 <= k < listing.drop_last().len() && (#[trigger] listing.drop_last()[k]).name == Some(
                rest[j].name,
            ) && listed_entry(root, dir, listing.drop_last()[k]) == Some(rest[j]);
        assert(listing[k] == listing.drop_last()[k]);
    } else {
        let k = listing.len() - 1;
        assert(listing[k] == listing.last());
    }
}

/// When every child is a visible directory or script file, each gives one
/// entry under its own name: a directory of N scripts and M subdirectories
/// lists N + M entries, and their names are the children's names.
pub proof fn lemma_listing_counts_children(
    root: Seq<char>,
    dir: Seq<char>,
    listing: Seq<DirChildView>,
    r: Seq<EntryView>,
)
    requires
        forall|i: int|
            0 <= i < listing.len() ==> {
                let c = #[trigger] listing[i];
                c.name matches Some(n) && !is_hidden(n) && (c.is_directory || is_script_name(n))
            },
        r.to_multiset() == listed_entries(root, dir, listing).to_multiset(),
    ensures
        r.len() == listing.len(),
        forall|i: int|
            0 <= i < listing.len() ==> exists|j: int|
                0 <= j < r.len() && Some(#[trigger] r[j].name) == (#[trigger] listing[i]).name,
        forall|j: int|
            #![trigger r[j]]
            0 <= j < r.len() ==> exists|i: int|
                0 <= i < listing.len() && (#[trigger] listing[i]).name == Some(r[j].name),
{
    let l = listed_entries(root, dir, listing);
    lemma_listed_entries_len(root, dir, listing);
    to_multiset_len(r);
    to_multiset_len(l);
    assert forall|i: int| 0 <= i < listing.len() implies exists|j: int|
        0 <= j < r.len() && Some(#[trigger] r[j].name) == (#[trigger] listing[i]).name by {
        assert(l[i] == listed_entry(root, dir, listing[i]).unwrap());
        assert(l.contains(l[i]));
        to_multiset_contains(l, l[i]);
        to_multiset_contains(r, l[i]);
        let j = choose|j: int| 0 <= j < r.len() && r[j] == l[i];
        assert(Some(r[j].name) == listing[i].name);
    }
    assert forall|j: int| #![trigger r[j]] 0 <= j < r.len() implies exists|i: int|
        0 <= i < listing.len() && (#[trigger] listing[i]).name == Some(r[j].name) by {
        assert(r.contains(r[j]));
        to_multiset_contains(r, r[j]);
        to_multiset_contains(l, r[j]);
        let k = choose|k: int| 0 <= k < l.len() && l[k] == r[j];
        lemma_listed_entries_source(root, dir, listing, k);
    }
}

/// Children with distinct names give distinct entries.
proof fn lemma_listed_entries_distinct(root: Seq<char>, dir: Seq<char>, listing: Seq<DirChildView>)
    requires
        forall|i: int, k: int|
            0 <= i < k < listing.len() && listing[i].name is Some ==> #[trigger] listing[i].name
                != #[trigger] listing[k].name,
    ensures
        listed_entries(root, dir, listing).no_duplicates(),
    decreases listing.len(),
{
    if listing.len() > 0 {
        let rest = listing.drop_last();
        assert forall|i: int, k: int|
            0 <= i < k < rest.len() && rest[i].name is Some implies #[trigger] rest[i].name
                != #[trigger] rest[k].name by {
            assert(rest[i] == listing[i] && rest[k] == listing[k]);
        }
        lemma_listed_entries_distinct(root, dir, rest);
        lemma_listed_entries_last(root, dir, listing);
        let l0 = listed_entries(root, dir, rest);
        match listed_entry(root, dir, listing.last()) {
            Some(x) => {
                let l = l0 + seq![x];
                assert forall|a: int, b: int|
                    0 <= a < l.len() && 0 <= b < l.len() && a != b implies l[a] != l[b] by {
                    if a < l0.len() && b < l0.len() {
                    } else if a < l0.len() {
                        lemma_listed_entries_source(root, dir, rest, a);
                        let k = choose|k: int|
                            0 <= k < rest.len() && (#[trigger] rest[k]).name == Some(l0[a].name)
                                && listed_entry(root, dir, rest[k]) == Some(l0[a]);
                        assert(listing[k] == rest[k]);
                        assert(listing[listing.len() - 1] == listing.last());
                    } else if b < l0.len() {
                        lemma_listed_entries_source(root, dir, rest, b);
                        let k = choose|k: int|
                            0 <= k < rest.len() && (#[trigger] rest[k]).name == Some(l0[b].name)
                                && listed_entry(root, dir, rest[k]) == Some(l0[b]);
                        assert(listing[k] == rest[k]);
                        assert(listing[listing.len() - 1] == listing.last());
                    }
                }
            },
            None => {},
        }
    }
}

/// In a directory, where no two children share a name, a listing in order
/// is strictly increasing: no entry appears twice, and the order depends
/// only on which children there are, not on the order they were read in.
pub proof fn lemma_listing_strictly_ordered(
    root: Seq<char>,
    dir: Seq<char>,
    listing: Seq<DirChildView>,
    r: Seq<EntryView>,
)
    requires
        forall|i: int, k: int|
            0 <= i < k < listing.len() && listing[i].name is Some ==> #[trigger] listing[i].name
                != #[trigger] listing[k].name,
        sorted(r),
        r.to_multiset() == listed_entries(root, dir, listing).to_multiset(),
    ensures
        strictly_sorted(r),
{
    let l = listed_entries(root, dir, listing);
    lemma_listed_entries_distinct(root, dir, listing);
    l.lemma_multiset_has_no_duplicates();
    r.lemma_multiset_has_no_duplicates_conv();
    assert forall|i: int, j: int| 0 <= i < j < r.len() implies #[trigger] entry_lt(r[i], r[j]) by {
        assert(!entry_lt(r[j], r[i]));
        lemma_entry_lt_total(r[i], r[j]);
    }
}

proof fn lemma_listed_entries_len(root: Seq<char>, dir: Seq<char>, listing: Seq<DirChildView>)
    requires
        forall|i: int|
            0 <= i < listing.len() ==> {
                let c = #[trigger] listing[i];
                c.name matches Some(n) && !is_hidden(n) && (c.is_directory || is_script_name(n))
            },
    ensures
        listed_entries(root, dir, listing).len() == listing.len(),
        forall|i: int|
            0 <= i < listing.len() ==> listed_entries(root, dir, listing)[i] == listed_entry(
                root,
                dir,
                #[trigger] listing[i],
            ).unwrap(),
    decreases listing.len(),
{
    if listing.len() > 0 {
        lemma_listed_entries_last(root, dir, listing);
        let rest = listing.drop_last();
        assert forall|i: int|
            0 <= i < rest.len() implies {
            let c = #[trigger] rest[i];
            c.name matches Some(n) && !is_hidden(n) && (c.is_directory || is_script_name(n))
        } by {
            assert(rest[i] == listing[i]);
        }
        lemma_listed_entries_len(root, dir, rest);
        assert(listing.last() == listing[listing.len() - 1]);
        assert forall|i: int|
            0 <= i < listing.len() implies listed_entries(root, dir, listing)[i] == listed_entry(
            root,
            dir,
            #[trigger] listing[i],
        ).unwrap() by {
            if i < rest.len() {
                assert(rest[i] == listing[i]);
            }
        }
    } else {
        assert(listed_entries(root, dir, listing) =~= Seq::<EntryView>::empty());
    }
}

/// Two listings in order that hold the same entries are the same sequence:
/// listing an unchanged directory again gives the same result.
pub proof fn lemma_sorted_listing_unique(a: Seq<EntryView>, b: Seq<EntryView>)
    requires
        sorted(a),
        sorted(b),
        a.to_multiset() == b.to_multiset(),
    ensures
        a == b,
    decreases a.len(),
{
    to_multiset_len(a);
    to_multiset_len(b);
    if a.len() > 0 {
        assert(a.contains(a[0]));
        assert(b.contains(b[0]));
        to_multiset_contains(a, a[0]);
        to_multiset_contains(b, b[0]);
        to_multiset_contains(a, b[0]);
        to_multiset_contains(b, a[0]);
        let i = choose|i: int| 0 <= i < a.len() && a[i] == b[0];
        let j = choose|j: int| 0 <= j < b.len() && b[j] == a[0];
        if a[0] != b[0] {
            if i > 0 {
                assert(!entry_lt(a[i], a[0]));
            }
            if j > 0 {
                assert(!entry_lt(b[j], b[0]));
            }
            lemma_entry_lt_total(a[0], b[0]);
        }
        to_multiset_remove(a, 0);
        to_multiset_remove(b, 0);
        assert(a.remove(0) =~= a.drop_first());
        assert(b.remove(0) =~= b.drop_first());
        lemma_sorted_listing_unique(a.drop_first(), b.drop_first());
        assert(a =~= seq![a[0]] + a.drop_first());
        assert(b =~= seq![b[0]] + b.drop_first());
    } else {
        assert(a =~= b);
    }
}

/// Going down into a directory and straight back up restores the stack, so
/// the current directory and its listing are as before.
pub proof fn lemma_open_then_leave(
    root: Seq<char>,
    path: Seq<Seq<char>>,
    name: Seq<char>,
    listing: Seq<DirChildView>,
)
    ensures
        path.push(name).drop_last() == path,
        listed_entries(root, joined_all(root, path.push(name).drop_last()), listing)
            == listed_entries(root, joined_all(root, path), listing),
{
    assert(path.push(name).drop_last() =~= path);
}

} // verus!
