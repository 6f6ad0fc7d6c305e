use george::config::{candidates, filled_lines, join, split_line, Config, ConfigFormatError};
use george::path::PathContext;
use george::Mapping;

fn ctx() -> PathContext {
    PathContext::new(Some("/home/user".to_string()), "/work".to_string()).unwrap()
}

fn mapping(name: &str, target: &str) -> Mapping {
    Mapping::new(name, target, &ctx())
}

#[test]
fn config_format_err() {
    let config = "
foo -> bar
fox -- tox
";

    let result = Config::build(config, &ctx());
    let expected = Err(ConfigFormatError::new("fox -- tox", 2));
    assert_eq!(result, expected);
}

#[test]
fn good_config() {
    let config = "
name -> target
~/.config -> my-config

from/here/ -> to/there
";
    let result = Config::build(config, &ctx());

    let mappings = vec![
        mapping("name", "target"),
        mapping("~/.config", "my-config"),
        mapping("from/here/", "to/there"),
    ];

    assert_eq!(result.map(|c| c.mappings().clone()), Ok(mappings));
}

#[test]
fn good_config_resolves_paths() {
    let result = Config::build("name -> target\n~/.config -> my-config\n", &ctx()).unwrap();
    let found: Vec<(String, String)> = result
        .mappings()
        .iter()
        .map(|m| (m.name().to_string(), m.target().to_string()))
        .collect();
    assert_eq!(
        found,
        vec![
            ("/work/name".to_string(), "/work/target".to_string()),
            ("/home/user/.config".to_string(), "/work/my-config".to_string()),
        ]
    );
}

#[test]
fn empty_text_declares_nothing() {
    assert_eq!(Config::build("", &ctx()).unwrap().mappings().len(), 0);
    assert_eq!(Config::build("\n\n\n", &ctx()).unwrap().mappings().len(), 0);
}

#[test]
fn last_line_needs_no_line_feed() {
    let result = Config::build("a -> b", &ctx()).unwrap();
    assert_eq!(result.mappings(), &vec![mapping("a", "b")]);
}

#[test]
fn carriage_return_before_line_feed_is_dropped() {
    let result = Config::build("a -> b\r\n\r\nc -> d\r\n", &ctx()).unwrap();
    assert_eq!(result.mappings(), &vec![mapping("a", "b"), mapping("c", "d")]);
}

#[test]
fn line_numbers_pass_over_empty_lines() {
    let result = Config::build("\n\n\na -> b\n\n\nbroken\nc -> d\n", &ctx());
    assert_eq!(result, Err(ConfigFormatError::new("broken", 2)));
}

#[test]
fn first_bad_line_is_reported() {
    let result = Config::build("one\ntwo\n", &ctx());
    assert_eq!(result, Err(ConfigFormatError::new("one", 1)));
}

#[test]
fn line_of_blanks_is_an_error() {
    let result = Config::build("a -> b\n   \n", &ctx());
    assert_eq!(result, Err(ConfigFormatError::new("   ", 2)));
}

#[test]
fn two_arrows_are_an_error() {
    let result = Config::build("a -> b -> c\n", &ctx());
    assert_eq!(result, Err(ConfigFormatError::new("a -> b -> c", 1)));
}

#[test]
fn indented_lines_are_read() {
    let result = Config::build("a -> b\n            c -> d", &ctx()).unwrap();
    assert_eq!(result.mappings(), &vec![mapping("a", "b"), mapping("c", "d")]);
}

#[test]
fn split_line_trims_both_parts() {
    let line = " \t name\u{a0} ->\u{3000}target \u{2003}";
    assert_eq!(split_line(line), Some(("name".to_string(), "target".to_string())));
}

#[test]
fn split_line_keeps_inner_blanks() {
    assert_eq!(split_line("my name->my target"), Some(("my name".to_string(), "my target".to_string())));
}

#[test]
fn split_line_without_arrow() {
    assert_eq!(split_line("fox -- tox"), None);
    assert_eq!(split_line("a->b->c"), None);
}

#[test]
fn split_line_of_an_arrow_alone() {
    assert_eq!(split_line("->"), Some((String::new(), String::new())));
}

#[test]
fn error_message() {
    let e = ConfigFormatError::new("fox -- tox", 2);
    assert_eq!(e.message(), "Config format error on line 2: fox -- tox");
    assert_eq!(e.line_nr(), 2);
    assert_eq!(e.line(), "fox -- tox");
    let e = ConfigFormatError::new("", 1230);
    assert_eq!(e.message(), "Config format error on line 1230: ");
    let e = ConfigFormatError::new("x", 0);
    assert_eq!(e.message(), "Config format error on line 0: x");
}

#[test]
fn join_adds_one_separator() {
    assert_eq!(join("/a/b", ".george"), "/a/b/.george");
    assert_eq!(join("/", ".george"), "/.george");
    assert_eq!(join("", ".george"), ".george");
    assert_eq!(join("/a/", "x"), "/a/x");
}

#[test]
fn candidates_walk_up_to_the_root() {
    assert_eq!(
        candidates("/home/user/dots"),
        vec![
            "/home/user/dots/.george".to_string(),
            "/home/user/.george".to_string(),
            "/home/.george".to_string(),
            "/.george".to_string(),
        ]
    );
    assert_eq!(candidates("/"), vec!["/.george".to_string()]);
}

#[test]
fn filled_lines_pass_over_empty_ones() {
    assert_eq!(filled_lines("\na\n\nb\r\n\r\nc"), vec!["a", "b", "c"]);
    assert_eq!(filled_lines(""), Vec::<String>::new());
    assert_eq!(filled_lines("\n\n"), Vec::<String>::new());
    assert_eq!(filled_lines(" \n\r"), vec![" ", "\r"]);
    assert_eq!(filled_lines("a\rb\n"), vec!["a\rb"]);
}
