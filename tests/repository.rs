use scriptpick::entry::Entry;
use scriptpick::repository::{DirChild, Repository, RepositoryError};

fn child(name: &str, is_directory: bool) -> DirChild {
    DirChild { name: Some(String::from(name)), is_directory }
}

fn open(path: &str) -> Repository {
    Repository::new(Some(String::from(path)), Ok(true)).unwrap()
}

#[test]
fn repository_path_success() {
    let path = ".tests/repository/success";
    let r = Repository::new(Some(String::from(path)), Ok(true));

    assert_eq!(true, r.is_ok());
    assert_eq!(String::from(path), r.unwrap().base_as_str())
}

#[test]
fn repository_path_does_not_exist() {
    let r = Repository::new(Some(String::from(".tests/repository/failure")), Ok(false));

    assert!(r.is_err());
    match r {
        Err(RepositoryError::DoesNotExist) => assert!(true),
        _ => assert!(false, "Expected RepositoryError::DoesNotExist"),
    }
}

#[test]
fn repository_path_is_not_utf8() {
    let r = Repository::new(None, Ok(true));

    assert_eq!(true, r.is_err());
    match r {
        Err(RepositoryError::NotUTF8) => assert!(true),
        _ => assert!(false, "Expected RepositoryError::NotUTF8"),
    }
}

#[test]
fn repository_path_io_error() {
    let r = Repository::new(Some(String::from("root")), Err(String::from("denied")));
    match r {
        Err(RepositoryError::IOError(m)) => assert_eq!("denied", m),
        _ => panic!("expected an I/O error"),
    }
}

#[test]
fn repository_path_movement() {
    let path = ".tests/repository/dir1";
    let r = Repository::new(Some(String::from(path)), Ok(true));

    assert_eq!(true, r.is_ok());

    let mut repository = r.unwrap();
    assert_eq!(String::from(path), repository.base_as_str());

    let dir1 = vec![child("dir2", true), child("dir3", true), child("file1.sql", false)];
    let dir2 = vec![child("file2.sql", false)];

    let entries = repository.entries_from_listing(&dir1);
    assert_eq!(3, entries.len());

    repository.open_directory("dir2");
    let entries = repository.entries_from_listing(&dir2);
    assert_eq!(1, entries.len());

    repository.leave_directory();
    let entries = repository.entries_from_listing(&dir1);
    assert_eq!(3, entries.len());
}

#[test]
fn repository_path_relative() {
    let path = ".tests/repository/dir1";
    let r = Repository::new(Some(String::from(path)), Ok(true));

    assert_eq!(true, r.is_ok());

    let mut repository = r.unwrap();

    repository.open_directory("dir2");

    assert_eq!("/dir2", repository.current_relative_as_str())
}

#[test]
fn current_directory_joins_the_stack() {
    let mut repository = open("base");
    repository.open_directory("a");
    repository.open_directory("b");
    assert_eq!("base/a/b", repository.current_as_str());
    assert_eq!(Some(String::from("b")), repository.leave_directory());
    assert_eq!("base/a", repository.current_as_str());
    assert_eq!(Some(String::from("a")), repository.leave_directory());
    assert_eq!(None, repository.leave_directory());
    assert_eq!("base", repository.current_as_str());
}

#[test]
fn path_buffers_follow_the_text() {
    let mut repository = open("base");
    repository.open_directory("a");
    assert_eq!(std::path::PathBuf::from("base"), repository.base_as_path_buf());
    assert_eq!(std::path::PathBuf::from("base/a"), repository.current_as_path_buf());
    assert_eq!(std::path::PathBuf::from("/a"), repository.current_relative_as_path_buf());
}

#[test]
fn listing_skips_hidden_private_and_other_files() {
    let mut repository = open("root");
    repository.open_directory("sub");
    let listing = vec![
        child(".git", true),
        child("_private.sql", false),
        child("notes.txt", false),
        child("b.sql", false),
        child("a.sql", false),
        child("nested", true),
        child(".sql", false),
        DirChild { name: None, is_directory: false },
    ];
    let entries = repository.entries_from_listing(&listing);
    let paths: Vec<&str> = entries.iter().map(|e| e.relative_path.as_str()).collect();
    assert_eq!(vec!["sub/a.sql", "sub/b.sql", "sub/nested"], paths);
    assert!(entries[2].is_directory);
    assert_eq!("nested", entries[2].name);
    for e in entries.iter() {
        assert!(!e.name.starts_with('.') && !e.name.starts_with('_'));
    }
}

#[test]
fn listing_is_the_same_for_any_read_order() {
    let repository = open("root");
    let first = vec![child("z.sql", false), child("m", true), child("a.sql", false)];
    let second = vec![child("m", true), child("a.sql", false), child("z.sql", false)];
    let a = repository.entries_from_listing(&first);
    let b = repository.entries_from_listing(&second);
    assert_eq!(a, b);
    assert_eq!(a, repository.entries_from_listing(&first));
    assert_eq!(3, a.len());
    assert_eq!(Entry::new(false, String::from("a.sql"), String::from("a.sql")), a[0]);
}

#[test]
fn unreadable_directory_lists_nothing() {
    let repository = open("root");
    assert!(repository.entries_from_listing(&vec![]).is_empty());
}

#[test]
fn files_leave_out_directories() {
    let mut repository = open("root");
    repository.open_directory("d");
    let listing = vec![child("x.sql", true), child("one.sql", false), child("_two.sql", false)];
    assert_eq!(vec![String::from("d/one.sql")], repository.files_from_listing(&listing));
}

#[test]
fn files_after_marker() {
    let repository = open("root");
    let listing = vec![
        child("file1.sql", false),
        child("file2.sql", false),
        child("file3.sql", false),
        child("file4.sql", false),
    ];
    assert_eq!(
        vec![String::from("file3.sql"), String::from("file4.sql")],
        repository.files_after_from_listing(&listing, "file2.sql")
    );
    assert!(repository.files_after_from_listing(&listing, "file4.sql").is_empty());
    assert!(repository.files_after_from_listing(&listing, "missing.sql").is_empty());
}

#[test]
fn children_of_a_path() {
    let repository = open("root");
    let listing = vec![child("k.sql", false), child("dir.sql", true), child("other", true)];
    assert_eq!(
        vec![String::from("p/k.sql"), String::from("p/dir.sql")],
        repository.children_from_listing("p", &listing)
    );
}

#[test]
fn relative_paths_strip_the_root_only_at_the_front() {
    let dot = open(".");
    let entries = dot.entries_from_listing(&vec![child("a.sql", false)]);
    assert_eq!("a.sql", entries[0].relative_path);

    let mut repository = open("root");
    let entries = repository.entries_from_listing(&vec![child("root.sql", false)]);
    assert_eq!("root.sql", entries[0].relative_path);
    repository.open_directory("root");
    assert_eq!(vec![String::from("root/root.sql")], repository.files_from_listing(&vec![child("root.sql", false)]));
    assert_eq!("/root", repository.current_relative_as_str());
}

#[test]
fn root_with_trailing_separator() {
    let mut repository = open("base/");
    repository.open_directory("a");
    assert_eq!("base/a", repository.current_as_str());
    assert_eq!(vec![String::from("a/x.sql")], repository.files_from_listing(&vec![child("x.sql", false)]));
}
