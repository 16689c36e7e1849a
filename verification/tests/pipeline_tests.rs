use cargo_todoo::cli::Args;
use cargo_todoo::report::aggregate;
use cargo_todoo::report::Source;
use cargo_todoo::source::tree::Entry;
use cargo_todoo::source::tree::Step;
use cargo_todoo::source::tree::Walker;
use cargo_todoo::source::Tree;

/// A tree with two files, one matching the ignore pattern: the walk discovers
/// only the other, and the report holds only its records.
#[test]
fn ignored_file_yields_no_records() {
    let args = Args {
        verbose: 0,
        ignore_regex: Some(String::from("^generated")),
        skip_regex: None,
        path: String::from("."),
    };
    let mut walker = Walker::new(&args).unwrap();
    assert_eq!(walker.pending_dir(), Some(String::from(".")));
    walker.supply(vec![
        Entry {
            name: String::from("generated.rs"),
            path: String::from("./generated.rs"),
            is_dir: false,
            is_file: true,
        },
        Entry {
            name: String::from("lib.rs"),
            path: String::from("./lib.rs"),
            is_dir: false,
            is_file: true,
        },
    ]);
    loop {
        assert!(walker.pending_dir().is_none());
        match walker.step() {
            Step::Done => break,
            Step::Progress => {},
            Step::Read(p) => panic!("unexpected read of {}", p),
        }
    }
    let mut tree = Tree::new();
    tree.traverse(walker);
    assert_eq!(tree.entries, vec![String::from("./lib.rs")]);

    // the reading layer would hand the aggregator only the discovered file
    let texts = [
        ("./generated.rs", "// TODO: from the ignored file\n"),
        ("./lib.rs", "// TODO: from the kept file\n"),
    ];
    let mut sources = Vec::new();
    for path in &tree.entries {
        let text = texts.iter().find(|(p, _)| p == path).unwrap().1;
        sources.push(Source { path: path.clone(), text: String::from(text) });
    }
    let report = aggregate(&sources).unwrap();
    assert_eq!(report.todos.len(), 1);
    assert_eq!(report.todos[0].file_name, "lib.rs");
    assert_eq!(report.todos[0].message, "from the kept file");
    assert_eq!(report.fixmes.len(), 0);
}

/// A discovered file with no matching line contributes an empty record set,
/// and the run still succeeds.
#[test]
fn empty_file_record_set_does_not_fail_the_run() {
    let sources = vec![
        Source { path: String::from("empty.rs"), text: String::from("fn f() {}\n") },
        Source { path: String::from("noted.rs"), text: String::from("// TODO: here\n") },
    ];
    let report = aggregate(&sources).unwrap();
    assert_eq!(report.todos.len(), 1);
    assert_eq!(report.todos[0].file_name, "noted.rs");
}
