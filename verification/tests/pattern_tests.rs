use cargo_todoo::pattern::match_marker;
use cargo_todoo::pattern::Marker;

#[test]
fn todo_single_priority() {
    let r = match_marker("// TODO: fix this", Marker::Todo);
    assert_eq!(r, Some((1, String::from("fix this"))));
}

#[test]
fn todo_closing_token_stripped() {
    let r = match_marker("// TODOOO: big refactor needed */", Marker::Todo);
    assert_eq!(r, Some((3, String::from("big refactor needed"))));
}

#[test]
fn fixme_double_priority() {
    let r = match_marker("/* FIXMEE: check bounds */", Marker::Fixme);
    assert_eq!(r, Some((2, String::from("check bounds"))));
}

#[test]
fn priority_counts_letters() {
    assert_eq!(match_marker("TODO: a", Marker::Todo).unwrap().0, 1);
    assert_eq!(match_marker("TODOO: a", Marker::Todo).unwrap().0, 2);
    assert_eq!(match_marker("TODOOOOO: a", Marker::Todo).unwrap().0, 5);
    assert_eq!(match_marker("FIXME: a", Marker::Fixme).unwrap().0, 1);
    assert_eq!(match_marker("FIXMEEEE: a", Marker::Fixme).unwrap().0, 4);
}

#[test]
fn plain_line_matches_neither_kind() {
    let line = "let x = 5;";
    assert_eq!(match_marker(line, Marker::Todo), None);
    assert_eq!(match_marker(line, Marker::Fixme), None);
}

#[test]
fn todo_line_is_not_a_fixme() {
    assert_eq!(match_marker("// TODO: only todo", Marker::Fixme), None);
    assert_eq!(match_marker("// FIXME: only fixme", Marker::Todo), None);
}

#[test]
fn marker_needs_colon_and_space() {
    assert_eq!(match_marker("// TODO fix this", Marker::Todo), None);
    assert_eq!(match_marker("// TODO:fix this", Marker::Todo), None);
}

#[test]
fn marker_is_case_sensitive() {
    assert_eq!(match_marker("// todo: fix this", Marker::Todo), None);
    assert_eq!(match_marker("// Todo: fix this", Marker::Todo), None);
}

#[test]
fn stray_star_or_slash_spoils_the_line() {
    assert_eq!(match_marker("// TODO: a*b", Marker::Todo), None);
    assert_eq!(match_marker("// TODO: a/b", Marker::Todo), None);
    assert_eq!(match_marker("// TODO: a */ b", Marker::Todo), None);
}

#[test]
fn closer_variants() {
    assert_eq!(
        match_marker("x TODO: msg **//", Marker::Todo),
        Some((1, String::from("msg")))
    );
    assert_eq!(
        match_marker("x TODO: msg //", Marker::Todo),
        Some((1, String::from("msg")))
    );
    assert_eq!(match_marker("x TODO: msg *", Marker::Todo), None);
    assert_eq!(match_marker("x TODO: msg /*", Marker::Todo), None);
}

#[test]
fn first_marker_head_decides() {
    let r = match_marker("say TODO: one TODO: two", Marker::Todo);
    assert_eq!(r, Some((1, String::from("one TODO: two"))));
}

#[test]
fn empty_message_is_allowed() {
    assert_eq!(match_marker("// TODO: ", Marker::Todo), Some((1, String::new())));
}

#[test]
fn message_is_trimmed() {
    assert_eq!(
        match_marker("// TODO:  spaced out  ", Marker::Todo),
        Some((1, String::from("spaced out")))
    );
}

#[test]
fn letters_must_precede_colon() {
    // the run of terminal letters belongs to the marker, not the message
    assert_eq!(match_marker("// TOD: nothing", Marker::Todo), None);
    assert_eq!(match_marker("// FIXM: nothing", Marker::Fixme), None);
}
