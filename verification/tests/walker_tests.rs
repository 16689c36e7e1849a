use cargo_todoo::cli::Args;
use cargo_todoo::source::tree::Entry;
use cargo_todoo::source::tree::Step;
use cargo_todoo::source::tree::Walker;
use cargo_todoo::source::Tree;
use cargo_todoo::ScanError;

fn args(path: &str, ignore: Option<&str>) -> Args {
    Args {
        verbose: 0,
        ignore_regex: ignore.map(String::from),
        skip_regex: None,
        path: String::from(path),
    }
}

fn file_entry(name: &str, path: &str) -> Entry {
    Entry {
        name: String::from(name),
        path: String::from(path),
        is_dir: false,
        is_file: true,
    }
}

fn dir_entry(name: &str, path: &str) -> Entry {
    Entry {
        name: String::from(name),
        path: String::from(path),
        is_dir: true,
        is_file: false,
    }
}

/// Steps until the walker asks for a directory or finishes; panics if it
/// asks, since these walks are expected to need nothing more.
fn drain(walker: &mut Walker) {
    loop {
        assert!(walker.pending_dir().is_none());
        match walker.step() {
            Step::Done => return,
            Step::Progress => {},
            Step::Read(p) => panic!("unexpected read of {}", p),
        }
    }
}

#[test]
fn walk_collects_only_rs_files() {
    let mut walker = Walker::new(&args(".", None)).unwrap();
    assert_eq!(walker.pending_dir(), Some(String::from(".")));
    walker.supply(vec![
        file_entry("a.rs", "./a.rs"),
        file_entry("notes.txt", "./notes.txt"),
        file_entry("README", "./README"),
        file_entry(".rs", "./.rs"),
        file_entry("b.rs", "./b.rs"),
    ]);
    drain(&mut walker);
    let mut tree = Tree::new();
    tree.traverse(walker);
    assert_eq!(tree.entries, vec![String::from("./a.rs"), String::from("./b.rs")]);
}

#[test]
fn walk_descends_into_directories_depth_first() {
    let mut walker = Walker::new(&args(".", None)).unwrap();
    assert_eq!(walker.pending_dir(), Some(String::from(".")));
    walker.supply(vec![
        file_entry("a.rs", "./a.rs"),
        dir_entry("sub", "./sub"),
        file_entry("z.rs", "./z.rs"),
    ]);
    assert_eq!(walker.step(), Step::Progress);
    // the directory is asked for before its later sibling is decided on
    assert_eq!(walker.step(), Step::Read(String::from("./sub")));
    assert_eq!(walker.pending_dir(), Some(String::from("./sub")));
    walker.supply(vec![file_entry("inner.rs", "./sub/inner.rs")]);
    drain(&mut walker);
    let mut tree = Tree::new();
    tree.traverse(walker);
    assert_eq!(
        tree.entries,
        vec![
            String::from("./a.rs"),
            String::from("./sub/inner.rs"),
            String::from("./z.rs"),
        ]
    );
}

#[test]
fn ignored_file_contributes_nothing() {
    let mut walker = Walker::new(&args(".", Some("^skip"))).unwrap();
    walker.supply(vec![
        file_entry("skip_me.rs", "./skip_me.rs"),
        file_entry("keep.rs", "./keep.rs"),
    ]);
    drain(&mut walker);
    let files = walker.finish();
    assert_eq!(files, vec![String::from("./keep.rs")]);
}

#[test]
fn ignored_directory_is_never_read() {
    let mut walker = Walker::new(&args(".", Some("^skip"))).unwrap();
    walker.supply(vec![
        dir_entry("skip_dir", "./skip_dir"),
        file_entry("keep.rs", "./keep.rs"),
    ]);
    // the pruned directory is passed over without a read request
    drain(&mut walker);
    let files = walker.finish();
    assert_eq!(files, vec![String::from("./keep.rs")]);
}

#[test]
fn ignore_matches_anywhere_in_the_name() {
    let mut walker = Walker::new(&args(".", Some("test"))).unwrap();
    walker.supply(vec![
        file_entry("my_tests.rs", "./my_tests.rs"),
        file_entry("main.rs", "./main.rs"),
    ]);
    drain(&mut walker);
    assert_eq!(walker.finish(), vec![String::from("./main.rs")]);
}

#[test]
fn invalid_ignore_pattern_is_refused_up_front() {
    let r = Walker::new(&args(".", Some("[")));
    assert!(matches!(r, Err(ScanError::InvalidPattern)));
}

#[test]
fn symlink_like_entries_are_passed_over() {
    let mut walker = Walker::new(&args(".", None)).unwrap();
    walker.supply(vec![
        Entry {
            name: String::from("link.rs"),
            path: String::from("./link.rs"),
            is_dir: false,
            is_file: false,
        },
        file_entry("real.rs", "./real.rs"),
    ]);
    drain(&mut walker);
    assert_eq!(walker.finish(), vec![String::from("./real.rs")]);
}

#[test]
fn traverse_appends_to_existing_entries() {
    let mut tree = Tree::new();
    tree.entries.push(String::from("old.rs"));
    let mut walker = Walker::new(&args(".", None)).unwrap();
    walker.supply(vec![file_entry("new.rs", "./new.rs")]);
    drain(&mut walker);
    tree.traverse(walker);
    assert_eq!(tree.entries, vec![String::from("old.rs"), String::from("./new.rs")]);
}
