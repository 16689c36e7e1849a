use cargo_todoo::report::aggregate;
use cargo_todoo::report::sort_by_priority;
use cargo_todoo::report::Source;
use cargo_todoo::source::Comment;
use cargo_todoo::ScanError;

fn comment(file_name: &str, priority: usize, message: &str) -> Comment {
    Comment {
        file_name: String::from(file_name),
        priority,
        message: String::from(message),
    }
}

fn source(path: &str, text: &str) -> Source {
    Source { path: String::from(path), text: String::from(text) }
}

#[test]
fn sort_is_descending() {
    let mut records = vec![
        comment("a.rs", 1, "one"),
        comment("a.rs", 3, "three"),
        comment("a.rs", 2, "two"),
    ];
    sort_by_priority(&mut records);
    let priorities: Vec<usize> = records.iter().map(|c| c.priority).collect();
    assert_eq!(priorities, vec![3, 2, 1]);
}

#[test]
fn sort_keeps_order_of_equal_priorities() {
    let mut records = vec![
        comment("a.rs", 1, "first low"),
        comment("a.rs", 3, "first high"),
        comment("b.rs", 3, "second high"),
        comment("b.rs", 1, "second low"),
        comment("c.rs", 2, "middle"),
    ];
    sort_by_priority(&mut records);
    assert_eq!(
        records,
        vec![
            comment("a.rs", 3, "first high"),
            comment("b.rs", 3, "second high"),
            comment("c.rs", 2, "middle"),
            comment("a.rs", 1, "first low"),
            comment("b.rs", 1, "second low"),
        ]
    );
}

#[test]
fn aggregate_builds_both_sections() {
    let sources = vec![
        source("src/a.rs", "// TODO: low note\n// FIXME: broken\n"),
        source("src/b.rs", "// TODOO: urgent note\n"),
    ];
    let report = aggregate(&sources).unwrap();
    assert_eq!(
        report.todos,
        vec![comment("b.rs", 2, "urgent note"), comment("a.rs", 1, "low note")]
    );
    assert_eq!(report.fixmes, vec![comment("a.rs", 1, "broken")]);
}

#[test]
fn aggregate_ties_stay_in_file_then_line_order() {
    let sources = vec![
        source("one.rs", "// TODO: a\nx\n// TODO: b\n"),
        source("two.rs", "// TODO: c\n"),
    ];
    let report = aggregate(&sources).unwrap();
    let messages: Vec<&str> = report.todos.iter().map(|c| c.message.as_str()).collect();
    assert_eq!(messages, vec!["a", "b", "c"]);
}

#[test]
fn aggregate_without_matches_is_empty_and_succeeds() {
    let sources = vec![source("clean.rs", "fn main() {}\nlet x = 1;\n")];
    let report = aggregate(&sources).unwrap();
    assert_eq!(report.todos.len(), 0);
    assert_eq!(report.fixmes.len(), 0);
}

#[test]
fn aggregate_of_nothing_is_empty() {
    let report = aggregate(&Vec::new()).unwrap();
    assert_eq!(report.todos.len(), 0);
    assert_eq!(report.fixmes.len(), 0);
}

#[test]
fn aggregate_fails_fast_on_nameless_path() {
    let sources = vec![
        source("good.rs", "// TODO: fine\n"),
        source("..", "// TODO: never reported\n"),
    ];
    let r = aggregate(&sources);
    assert!(matches!(r, Err(ScanError::MissingFileName)));
}

#[test]
fn aggregate_twice_gives_identical_reports() {
    let sources = vec![
        source("a.rs", "// TODOO: two\n// TODO: one\n// FIXMEEE: three\n"),
        source("b.rs", "// TODO: other\n"),
    ];
    let first = aggregate(&sources).unwrap();
    let second = aggregate(&sources).unwrap();
    assert_eq!(first.todos, second.todos);
    assert_eq!(first.fixmes, second.fixmes);
}

#[test]
fn records_only_from_files_that_were_scanned() {
    // the walk prunes an ignored file, so its text never reaches the
    // aggregator: records come only from what was discovered
    let scanned = vec![source("kept.rs", "// TODO: kept note\n")];
    let report = aggregate(&scanned).unwrap();
    assert_eq!(report.todos, vec![comment("kept.rs", 1, "kept note")]);
}
