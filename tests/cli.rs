use csgocfg::{parse_args, Command, Error};

fn args(a: &[&str]) -> Vec<String> {
    a.iter().map(|s| s.to_string()).collect()
}

#[test]
fn patch_needs_two_paths() {
    assert_eq!(
        parse_args(&args(&["patch", "t.cfg", "p.cfg"])).unwrap(),
        Command::Patch { target: "t.cfg".to_owned(), patch: "p.cfg".to_owned() }
    );
    assert!(matches!(
        parse_args(&args(&["patch", "t.cfg"])),
        Err(Error::MissingArgument("patch"))
    ));
    assert!(matches!(parse_args(&args(&["patch"])), Err(Error::MissingArgument("target"))));
}

#[test]
fn validate_needs_a_path() {
    assert_eq!(
        parse_args(&args(&["validate", "t.cfg"])).unwrap(),
        Command::Validate { target: "t.cfg".to_owned() }
    );
    assert!(matches!(parse_args(&args(&["validate"])), Err(Error::MissingArgument("target"))));
}

#[test]
fn unknown_or_missing_operation() {
    assert_eq!(
        parse_args(&args(&["frobnicate", "x"])).unwrap(),
        Command::Unrecognized("frobnicate".to_owned())
    );
    match parse_args(&Vec::new()) {
        Err(Error::UnrecognizedCommand(s)) => assert_eq!(s, "no command"),
        other => panic!("unexpected {:?}", other),
    }
}
