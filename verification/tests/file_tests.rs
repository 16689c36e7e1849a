use cargo_todoo::source::file::base_name;
use cargo_todoo::source::file::split_lines;
use cargo_todoo::source::File;
use cargo_todoo::ScanError;

#[test]
fn base_name_strips_directories() {
    assert_eq!(base_name("src/main.rs"), Some(String::from("main.rs")));
    assert_eq!(base_name("a/b/c.txt"), Some(String::from("c.txt")));
    assert_eq!(base_name("plain.rs"), Some(String::from("plain.rs")));
}

#[test]
fn base_name_ignores_trailing_separators() {
    assert_eq!(base_name("a/b/"), Some(String::from("b")));
    assert_eq!(base_name("a///"), Some(String::from("a")));
}

#[test]
fn base_name_missing_cases() {
    assert_eq!(base_name(""), None);
    assert_eq!(base_name("/"), None);
    assert_eq!(base_name("."), None);
    assert_eq!(base_name(".."), None);
    assert_eq!(base_name("a/.."), None);
}

#[test]
fn split_lines_basic() {
    assert_eq!(split_lines("a\nb"), vec![String::from("a"), String::from("b")]);
    assert_eq!(split_lines("a\nb\n"), vec![String::from("a"), String::from("b")]);
}

#[test]
fn split_lines_crlf() {
    assert_eq!(
        split_lines("a\r\nb\r\n"),
        vec![String::from("a"), String::from("b")]
    );
}

#[test]
fn split_lines_edges() {
    assert_eq!(split_lines(""), Vec::<String>::new());
    assert_eq!(split_lines("\n"), vec![String::new()]);
    assert_eq!(split_lines("x\r"), vec![String::from("x\r")]);
}

#[test]
fn parse_todos_single_line() {
    let mut file = File::new();
    let lines = vec![String::from("// TODO: fix this")];
    let r = file.parse_todos("demo.rs", &lines);
    assert!(r.is_ok());
    assert_eq!(file.todos.len(), 1);
    assert_eq!(file.todos[0].file_name, "demo.rs");
    assert_eq!(file.todos[0].priority, 1);
    assert_eq!(file.todos[0].message, "fix this");
    assert_eq!(file.fixmes.len(), 0);
}

#[test]
fn parse_fixmes_uses_base_name() {
    let mut file = File::new();
    let lines = vec![
        String::from("fn nothing() {}"),
        String::from("// FIXMEE: Still unwrapping"),
    ];
    let r = file.parse_fixmes("src/source/demo.rs", &lines);
    assert!(r.is_ok());
    assert_eq!(file.fixmes.len(), 1);
    assert_eq!(file.fixmes[0].file_name, "demo.rs");
    assert_eq!(file.fixmes[0].priority, 2);
    assert_eq!(file.fixmes[0].message, "Still unwrapping");
}

#[test]
fn parse_keeps_line_order() {
    let mut file = File::new();
    let lines = vec![
        String::from("// TODO: first"),
        String::from("no marker here"),
        String::from("// TODOO: second"),
    ];
    assert!(file.parse_todos("demo.rs", &lines).is_ok());
    assert_eq!(file.todos.len(), 2);
    assert_eq!(file.todos[0].message, "first");
    assert_eq!(file.todos[1].message, "second");
}

#[test]
fn parse_without_matches_is_empty() {
    let mut file = File::new();
    let lines = vec![String::from("fn main() {}"), String::from("// plain comment")];
    assert!(file.parse_todos("demo.rs", &lines).is_ok());
    assert!(file.parse_fixmes("demo.rs", &lines).is_ok());
    assert_eq!(file.todos.len(), 0);
    assert_eq!(file.fixmes.len(), 0);
}

#[test]
fn parse_refuses_path_without_name() {
    let mut file = File::new();
    let lines = vec![String::from("// TODO: never seen")];
    let r = file.parse_todos("/", &lines);
    assert_eq!(r, Err(ScanError::MissingFileName));
    assert_eq!(file.todos.len(), 0);
}
