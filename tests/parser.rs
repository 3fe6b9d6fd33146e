use csgocfg::{parse_line, ConfigItem, ParseError};

fn cvar(name: &str, value: &str) -> ConfigItem {
    ConfigItem::Cvar(name.to_owned(), value.to_owned())
}

fn bind(key: &str, binding: &str) -> ConfigItem {
    ConfigItem::Bind(key.to_owned(), binding.to_owned())
}

fn command(name: &str) -> ConfigItem {
    ConfigItem::Command(name.to_owned())
}

#[test]
fn test_bind_parsing() -> Result<(), ParseError> {
    assert_eq!(
        parse_line(r#"bind "enter" "slot1""#)?,
        Some(ConfigItem::Bind("enter".to_owned(), "slot1".to_owned()))
    );
    assert_eq!(
        parse_line(r#"bind"mouse1""+attack""#)?,
        Some(ConfigItem::Bind("mouse1".to_owned(), "+attack".to_owned()))
    );
    assert_eq!(
        parse_line(r#"  bind    "4" "slot4"     // Comment  "#)?,
        Some(ConfigItem::Bind("4".to_owned(), "slot4".to_owned()))
    );
    assert!(parse_line(r#"bind "a" "non-ending string"#).is_err(),);

    Ok(())
}

#[test]
fn test_cvar_parsing() -> Result<(), ParseError> {
    assert_eq!(
        parse_line(r#"sensitivity "1.5""#)?,
        Some(ConfigItem::Cvar("sensitivity".to_owned(), "1.5".to_owned()))
    );
    assert_eq!(
        parse_line(r#"   volume     "0.5"  // Comment here  "#)?,
        Some(ConfigItem::Cvar("volume".to_owned(), "0.5".to_owned()))
    );
    assert!(parse_line(r#"hud_scaling 0.8"#).is_err());

    Ok(())
}

#[test]
fn test_cmd_parsing() -> Result<(), ParseError> {
    assert_eq!(
        parse_line(r#"  unbindall    "#)?,
        Some(ConfigItem::Command("unbindall".to_owned()))
    );
    assert_eq!(
        parse_line(r#"disconnect   //Comment Foo  "#)?,
        Some(ConfigItem::Command("disconnect".to_owned()))
    );
    assert!(parse_line(r#"1quit"#).is_err());

    Ok(())
}

#[test]
fn bare_identifiers_are_commands() {
    for s in ["unbindall", "_x@1", "@cmd", "a", "bind", "Z9_"] {
        assert_eq!(parse_line(s), Ok(Some(command(s))));
    }
}

#[test]
fn setting_with_any_spacing() {
    for line in [
        r#"vol"1""#,
        r#"vol "1""#,
        r#"vol     "1""#,
        r#"   vol "1"   "#,
        r#" vol"1" "#,
    ] {
        assert_eq!(parse_line(line), Ok(Some(cvar("vol", "1"))));
    }
}

#[test]
fn bind_with_any_key() {
    assert_eq!(parse_line(r#"bind "a b" "say hi""#), Ok(Some(bind("a b", "say hi"))));
    assert_eq!(parse_line(r#"bind "" """#), Ok(Some(bind("", ""))));
    assert_eq!(parse_line(r#"bind "x"   "y""#), Ok(Some(bind("x", "y"))));
}

#[test]
fn two_arguments_need_bind() {
    assert_eq!(
        parse_line(r#"someword "a" "b""#),
        Err(ParseError::UnexpectedEndOfLine(String::new()))
    );
    assert_eq!(
        parse_line(r#"someword "a" "b" // note"#),
        Err(ParseError::UnexpectedEndOfLine("// note".to_owned()))
    );
}

#[test]
fn trailing_comment_keeps_statement() {
    assert_eq!(parse_line(r#"volume "0.5"  // loud"#), parse_line(r#"volume "0.5""#));
    assert_eq!(parse_line(r#"volume "0.5"// loud"#), Ok(Some(cvar("volume", "0.5"))));
    assert_eq!(parse_line("quit//bye"), Ok(Some(command("quit"))));
    assert_eq!(
        parse_line(r#"bind "a" "b"//c"#),
        Ok(Some(bind("a", "b")))
    );
}

#[test]
fn blank_and_comment_lines_hold_nothing() {
    for line in ["", "   ", "//", "// comment", "    // comment  ", "//\"x\""] {
        assert_eq!(parse_line(line), Ok(None));
    }
}

#[test]
fn comment_marker_inside_quotes_is_text() {
    assert_eq!(
        parse_line(r#"url "http://example.org" // real comment"#),
        Ok(Some(cvar("url", "http://example.org")))
    );
}

#[test]
fn invalid_identifier_reports_rest_of_line() {
    assert_eq!(
        parse_line("  1quit now"),
        Err(ParseError::InvalidIdentifier("1quit now".to_owned()))
    );
    assert_eq!(parse_line("/x"), Err(ParseError::InvalidIdentifier("/x".to_owned())));
    assert_eq!(
        parse_line("\"a\""),
        Err(ParseError::InvalidIdentifier("\"a\"".to_owned()))
    );
}

#[test]
fn invalid_string_literal_reports_rest_of_line() {
    assert_eq!(
        parse_line("hud_scaling 0.8"),
        Err(ParseError::InvalidStringLiteral("0.8".to_owned()))
    );
    assert_eq!(
        parse_line(r#"bind "a" "non-ending string"#),
        Err(ParseError::InvalidStringLiteral("non-ending string".to_owned()))
    );
    assert_eq!(
        parse_line(r#"name "open"#),
        Err(ParseError::InvalidStringLiteral("open".to_owned()))
    );
    assert_eq!(
        parse_line(r#"name "a" b"#),
        Err(ParseError::InvalidStringLiteral("b".to_owned()))
    );
    assert_eq!(parse_line("name /"), Err(ParseError::InvalidStringLiteral("/".to_owned())));
}

#[test]
fn unexpected_end_of_line_reports_rest() {
    assert_eq!(
        parse_line(r#"bind "a" "b" extra"#),
        Err(ParseError::UnexpectedEndOfLine("extra".to_owned()))
    );
    assert_eq!(
        parse_line(r#"bind "a" "b" "c""#),
        Err(ParseError::UnexpectedEndOfLine("\"c\"".to_owned()))
    );
}

#[test]
fn tab_is_not_whitespace() {
    assert_eq!(
        parse_line("\tquit"),
        Err(ParseError::InvalidIdentifier("\tquit".to_owned()))
    );
}

#[test]
fn unicode_letters_and_digits_in_identifiers() {
    assert_eq!(parse_line(r#"größe "1""#), Ok(Some(cvar("größe", "1"))));
    assert_eq!(parse_line("名前"), Ok(Some(command("名前"))));
    assert_eq!(parse_line("x½"), Ok(Some(command("x½"))));
    assert_eq!(parse_line("→x"), Err(ParseError::InvalidIdentifier("→x".to_owned())));
    assert_eq!(parse_line("½x"), Err(ParseError::InvalidIdentifier("½x".to_owned())));
    assert_eq!(parse_line("x→"), Err(ParseError::InvalidStringLiteral("→".to_owned())));
}

#[test]
fn non_ascii_values_are_kept_whole() {
    assert_eq!(parse_line(r#"name "héllo wörld""#), Ok(Some(cvar("name", "héllo wörld"))));
    assert_eq!(parse_line(r#"bind "ä" "é""#), Ok(Some(bind("ä", "é"))));
}
