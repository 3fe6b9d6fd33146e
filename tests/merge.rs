use csgocfg::config::ConfigItem;
use csgocfg::merge::{collect_lines, insert_item};
use csgocfg::{apply_patch, merge_lines, parse_line, validate, Error, ParseError};
use std::cmp::Ordering;

fn lines(text: &[&str]) -> Vec<String> {
    text.iter().map(|s| s.to_string()).collect()
}

fn item(line: &str) -> ConfigItem {
    parse_line(line).unwrap().unwrap()
}

#[test]
fn patch_overrides_and_orders_by_group() {
    let target = lines(&["a", r#"vol "1""#]);
    let patch = lines(&[r#"vol "2""#, "b"]);
    let items = merge_lines(&target, &patch).unwrap();
    assert_eq!(
        items,
        vec![
            ConfigItem::Command("a".to_owned()),
            ConfigItem::Command("b".to_owned()),
            ConfigItem::Cvar("vol".to_owned(), "2".to_owned()),
        ]
    );
    let out = apply_patch(&target, &patch).unwrap();
    assert_eq!(out, lines(&["a", "b", r#"vol "2""#]));
}

#[test]
fn groups_come_commands_binds_variables() {
    let target = lines(&[r#"a_var "1""#, r#"bind "z" "x""#, "zcmd", r#"bind "a" "y""#, "acmd"]);
    let out = apply_patch(&target, &Vec::new()).unwrap();
    assert_eq!(
        out,
        lines(&["acmd", "zcmd", r#"bind "a" "y""#, r#"bind "z" "x""#, r#"a_var "1""#])
    );
}

#[test]
fn self_patch_keeps_entries() {
    let file = lines(&[
        "// settings",
        r#"sensitivity "1.5""#,
        r#"bind "w" "+forward""#,
        "",
        "unbindall",
        r#"volume "0.5" // loud"#,
    ]);
    let once = apply_patch(&file, &Vec::new()).unwrap();
    let twice = apply_patch(&file, &file).unwrap();
    assert_eq!(once, twice);
    assert_eq!(
        twice,
        lines(&[
            "unbindall",
            r#"bind "w" "+forward""#,
            r#"sensitivity "1.5""#,
            r#"volume "0.5""#,
        ])
    );
}

#[test]
fn later_line_of_one_file_wins() {
    let target = lines(&[r#"vol "1""#, r#"vol "3""#, r#"bind "k" "a""#, r#"bind "k" "b""#]);
    let out = apply_patch(&target, &Vec::new()).unwrap();
    assert_eq!(out, lines(&[r#"bind "k" "b""#, r#"vol "3""#]));
}

#[test]
fn same_identity_in_different_groups_stays_apart() {
    let target = lines(&["x", r#"x "1""#, r#"bind "x" "y""#]);
    let out = apply_patch(&target, &lines(&[r#"x "2""#])).unwrap();
    assert_eq!(out, lines(&["x", r#"bind "x" "y""#, r#"x "2""#]));
}

#[test]
fn malformed_target_line_fails_with_its_number() {
    let target = lines(&["a", "hud_scaling 0.8", "1bad"]);
    let patch = lines(&["b"]);
    match apply_patch(&target, &patch) {
        Err(Error::ParseError { source, line_number }) => {
            assert_eq!(source, ParseError::InvalidStringLiteral("0.8".to_owned()));
            assert_eq!(line_number, 2);
        }
        other => panic!("unexpected {:?}", other),
    }
}

#[test]
fn malformed_patch_line_fails_with_its_number() {
    let target = lines(&["a"]);
    let patch = lines(&["", "// c", "hud_scaling 0.8"]);
    match apply_patch(&target, &patch) {
        Err(Error::ParseError { source, line_number }) => {
            assert_eq!(source, ParseError::InvalidStringLiteral("0.8".to_owned()));
            assert_eq!(line_number, 3);
        }
        other => panic!("unexpected {:?}", other),
    }
}

#[test]
fn merged_lines_read_back() {
    let target = lines(&[
        r#"  bind"mouse1""+attack"  // fire"#,
        "unbindall",
        r#"url "http://x.org/a""#,
        r#"bind "a b" "say hi""#,
    ]);
    let patch = lines(&[r#"name "größe""#, "quit"]);
    let items = merge_lines(&target, &patch).unwrap();
    let out = apply_patch(&target, &patch).unwrap();
    assert_eq!(out.len(), items.len());
    for (line, it) in out.iter().zip(items.iter()) {
        assert_eq!(parse_line(line), Ok(Some(it.clone())));
    }
}

#[test]
fn validate_reports_first_bad_line() {
    assert!(validate(&lines(&["a", r#"b "1""#, "// c"])).is_ok());
    match validate(&lines(&["a", r#"b "1""#, "1x", "2y"])) {
        Err(Error::ParseError { source, line_number }) => {
            assert_eq!(source, ParseError::InvalidIdentifier("1x".to_owned()));
            assert_eq!(line_number, 3);
        }
        other => panic!("unexpected {:?}", other),
    }
    assert!(validate(&Vec::new()).is_ok());
}

#[test]
fn error_from_parse_failure_counts_from_one() {
    let e = Error::from((ParseError::UnexpectedEndOfLine("x".to_owned()), 0));
    match e {
        Error::ParseError { source, line_number } => {
            assert_eq!(source, ParseError::UnexpectedEndOfLine("x".to_owned()));
            assert_eq!(line_number, 1);
        }
        other => panic!("unexpected {:?}", other),
    }
}

#[test]
fn insert_item_replaces_same_entry() {
    let mut set = Vec::new();
    insert_item(&mut set, item(r#"vol "1""#));
    insert_item(&mut set, item("b"));
    insert_item(&mut set, item(r#"vol "2""#));
    insert_item(&mut set, item("a"));
    assert_eq!(set, vec![item("a"), item("b"), item(r#"vol "2""#)]);
}

#[test]
fn collect_lines_stops_at_first_error() {
    let mut set = Vec::new();
    let r = collect_lines(&mut set, &lines(&["a", "b c", "d"]));
    assert_eq!(r, Err((ParseError::InvalidStringLiteral("c".to_owned()), 1)));
    let mut set = Vec::new();
    assert_eq!(collect_lines(&mut set, &lines(&["b", "a", "// x"])), Ok(()));
    assert_eq!(set, vec![item("a"), item("b")]);
}

#[test]
fn identity_order() {
    assert_eq!(item("b").cmp_identity(&item(r#"bind "a" "x""#)), Ordering::Less);
    assert_eq!(item(r#"bind "z" "x""#).cmp_identity(&item(r#"a "1""#)), Ordering::Less);
    assert_eq!(item(r#"v "1""#).cmp_identity(&item(r#"v "2""#)), Ordering::Equal);
    assert_eq!(item("ab").cmp_identity(&item("a")), Ordering::Greater);
    assert_eq!(item("a").cmp_identity(&item("ab")), Ordering::Less);
    assert_eq!(item("B").cmp_identity(&item("a")), Ordering::Less);
    assert_eq!(item("é").cmp_identity(&item("z")), Ordering::Greater);
}

#[test]
fn canonical_lines() {
    assert_eq!(item("  quit // x").to_line(), "quit");
    assert_eq!(item(r#"vol"0.5""#).to_line(), r#"vol "0.5""#);
    assert_eq!(item(r#"bind"k"   "+jump""#).to_line(), r#"bind "k" "+jump""#);
}
