use blogger::cli::{command_named, parse_flags, Command, Flags};
use blogger::errors::BloggerError;

fn args(list: &[&str]) -> Vec<String> {
    list.iter().map(|s| s.to_string()).collect()
}

#[test]
fn flags_start_empty() {
    let f = Flags::new();
    assert!(!f.contains("--src"));
    assert!(f.get("--src").is_none());
}

#[test]
fn insert_replaces_the_value_of_a_key() {
    let mut f = Flags::new();
    f.insert("--src".to_string(), Some("a".to_string()));
    f.insert("--dst".to_string(), None);
    assert_eq!(f.get("--src"), Some(&"a".to_string()));
    assert!(f.contains("--dst"));
    assert!(f.get("--dst").is_none());
    f.insert("--src".to_string(), Some("b".to_string()));
    assert_eq!(f.get("--src"), Some(&"b".to_string()));
    f.insert("--src".to_string(), None);
    assert!(f.contains("--src"));
    assert!(f.get("--src").is_none());
}

#[test]
fn must_names_the_first_missing_flag() {
    let mut f = Flags::new();
    f.insert("--src".to_string(), Some("a".to_string()));
    assert!(f.must(&["--src"]).is_ok());
    assert!(f.must(&[]).is_ok());
    match f.must(&["--src", "--dst", "--other"]) {
        Err(BloggerError::CommandError(msg)) => assert_eq!(msg, "expected flag --dst"),
        other => panic!("unexpected result: {:?}", other),
    }
}

#[test]
fn parse_flags_reads_key_and_value() {
    let f = parse_flags(&args(&["compile", "--src=in/a.blog", "--dst=out_dir/a.html"]));
    assert_eq!(f.get("--src"), Some(&"in/a.blog".to_string()));
    assert_eq!(f.get("--dst"), Some(&"out_dir/a.html".to_string()));
    assert!(!f.contains("compile"));
}

#[test]
fn parse_flags_passes_over_what_is_no_flag() {
    let f = parse_flags(&args(&[
        "--src",
        "-src=a",
        "--SRC=a",
        "--src=A",
        "--src = a",
        "--a=b=c",
        "src=a",
        "--empty=",
        "--=x",
    ]));
    assert!(!f.contains("--src"));
    assert!(!f.contains("-src"));
    assert!(!f.contains("--SRC"));
    assert!(!f.contains("--a"));
    assert!(!f.contains("src"));
    assert_eq!(f.get("--empty"), Some(&String::new()));
    assert_eq!(f.get("--"), Some(&"x".to_string()));
}

#[test]
fn later_flag_replaces_earlier() {
    let f = parse_flags(&args(&["--src=a", "--src=b"]));
    assert_eq!(f.get("--src"), Some(&"b".to_string()));
}

#[test]
fn commands_are_found_by_name() {
    assert_eq!(command_named("lex").unwrap(), Command::Lex);
    assert_eq!(command_named("parse").unwrap(), Command::Parse);
    assert_eq!(command_named("compile").unwrap(), Command::Compile);
    match command_named("build") {
        Err(BloggerError::CommandError(msg)) => assert_eq!(msg, "unknown command: build"),
        other => panic!("unexpected result: {:?}", other),
    }
    assert!(command_named("Lex").is_err());
    assert!(command_named("").is_err());
}
