//! The line grammar: one statement, blank, or comment per line.
use vstd::prelude::*;
use crate::config::{bind_word, ConfigItem, ItemModel};
use crate::text::chars_of;

verus! {

/// Why a line could not be parsed; each variant holds the rest of the line from where parsing stopped.
#[derive(Debug, Clone, PartialEq, Eq)]
pub enum ParseError {
    /// The line does not start with an identifier.
    InvalidIdentifier(String),
    /// An argument is not a complete quoted string.
    InvalidStringLiteral(String),
    /// Text follows a complete statement, or a three-token line is not a `bind`.
    UnexpectedEndOfLine(String),
}

/// The mathematical value of a [`ParseError`].
pub enum ParseErrorModel {
    InvalidIdentifier(Seq<char>),
    InvalidStringLiteral(Seq<char>),
    UnexpectedEndOfLine(Seq<char>),
}

impl View for ParseError {
    type V = ParseErrorModel;

    open spec fn view(&self) -> ParseErrorModel {
        match self {
            ParseError::InvalidIdentifier(s) => ParseErrorModel::InvalidIdentifier(s@),
            ParseError::InvalidStringLiteral(s) => ParseErrorModel::InvalidStringLiteral(s@),
            ParseError::UnexpectedEndOfLine(s) => ParseErrorModel::UnexpectedEndOfLine(s@),
        }
    }
}

/// Whether a character has the Unicode Alphabetic property.
pub uninterp spec fn alphabetic(c: char) -> bool;

/// Whether a character has the Unicode Alphabetic or Numeric property.
pub uninterp spec fn alphanumeric(c: char) -> bool;

/// Relies on `char::is_alphabetic`: whether `c` has the Unicode Alphabetic property.
#[verifier::external_body]
fn unicode_alphabetic(c: char) -> (r: bool)
    ensures
        r == alphabetic(c),
{
    c.is_alphabetic()
}

/// Relies on `char::is_alphanumeric`: whether `c` is Alphabetic or Numeric in Unicode.
#[verifier::external_body]
fn unicode_alphanumeric(c: char) -> (r: bool)
    ensures
        r == alphanumeric(c),
{
    c.is_alphanumeric()
}

pub open spec fn is_ascii_char(c: char) -> bool {
    (c as int) < 128
}

pub open spec fn ascii_letter(c: char) -> bool {
    ('a' as int <= c as int <= 'z' as int) || ('A' as int <= c as int <= 'Z' as int)
}

pub open spec fn ascii_digit(c: char) -> bool {
    '0' as int <= c as int <= '9' as int
}

/// A letter: an ASCII letter, or beyond ASCII a Unicode alphabetic character.
pub open spec fn letter(c: char) -> bool {
    if is_ascii_char(c) {
        ascii_letter(c)
    } else {
        alphabetic(c)
    }
}

/// A letter or a digit: ASCII ones, or beyond ASCII a Unicode alphanumeric character.
pub open spec fn letter_or_digit(c: char) -> bool {
    if is_ascii_char(c) {
        ascii_letter(c) || ascii_digit(c)
    } else {
        alphanumeric(c)
    }
}

pub open spec fn ident_start(c: char) -> bool {
    letter(c) || c == '_' || c == '@'
}

pub open spec fn ident_rest(c: char) -> bool {
    letter_or_digit(c) || c == '_' || c == '@'
}

/// A name that may stand as a command or a variable.
pub open spec fn is_identifier(s: Seq<char>) -> bool {
    &&& s.len() > 0
    &&& ident_start(s[0])
    &&& forall|i: int| 1 <= i < s.len() ==> ident_rest(#[trigger] s[i])
}

/// Text that may stand between quotes.
pub open spec fn quote_free(s: Seq<char>) -> bool {
    forall|i: int| 0 <= i < s.len() ==> s[i] != '"'
}

/// The first position at or after `i` that holds no space.
pub open spec fn skip_spaces(s: Seq<char>, i: int) -> int
    decreases s.len() - i,
{
    if 0 <= i < s.len() && s[i] == ' ' {
        skip_spaces(s, i + 1)
    } else {
        i
    }
}

/// The end of the run of identifier characters that starts at `i`.
pub open spec fn ident_end(s: Seq<char>, i: int) -> int
    decreases s.len() - i,
{
    if 0 <= i < s.len() && ident_rest(s[i]) {
        ident_end(s, i + 1)
    } else {
        i
    }
}

/// The first position at or after `i` that holds `c`, or the end of `s`.
pub open spec fn find_char(s: Seq<char>, i: int, c: char) -> int
    decreases s.len() - i,
{
    if 0 <= i < s.len() && s[i] != c {
        find_char(s, i + 1, c)
    } else {
        i
    }
}

pub proof fn lemma_scan_bounds(s: Seq<char>, i: int, c: char)
    requires
        0 <= i <= s.len(),
    ensures
        i <= skip_spaces(s, i) <= s.len(),
        i <= ident_end(s, i) <= s.len(),
        i <= find_char(s, i, c) <= s.len(),
    decreases s.len() - i,
{
    if i < s.len() {
        lemma_scan_bounds(s, i + 1, c);
    }
}

/// `s` holds `t` from position `i` on.
pub open spec fn holds_at(s: Seq<char>, i: int, t: Seq<char>) -> bool {
    0 <= i && i + t.len() <= s.len() && s.subrange(i, i + t.len()) == t
}

/// Nothing but a comment, if anything, is left from `i` on.
pub open spec fn rest_is_blank(s: Seq<char>, i: int) -> bool {
    i >= s.len() || (i + 1 < s.len() && s[i] == '/' && s[i + 1] == '/')
}

/// The result of a line, once `name` has been read and its arguments start at `p`.
pub open spec fn parse_arguments(s: Seq<char>, name: Seq<char>, p: int) -> Result<
    Option<ItemModel>,
    ParseErrorModel,
> {
    let p1 = skip_spaces(s, p);
    let c1 = find_char(s, p1 + 1, '"');
    if rest_is_blank(s, p1) {
        Ok(Some(ItemModel::Command(name)))
    } else if s[p1] != '"' {
        Err(ParseErrorModel::InvalidStringLiteral(s.skip(p1)))
    } else if c1 >= s.len() {
        Err(ParseErrorModel::InvalidStringLiteral(s.skip(p1 + 1)))
    } else {
        parse_second(s, name, s.subrange(p1 + 1, c1), c1 + 1)
    }
}

/// The result of a line, once `name` and a first argument `arg` have been read up to `p`.
pub open spec fn parse_second(s: Seq<char>, name: Seq<char>, arg: Seq<char>, p: int) -> Result<
    Option<ItemModel>,
    ParseErrorModel,
> {
    let p2 = skip_spaces(s, p);
    let c2 = find_char(s, p2 + 1, '"');
    let p3 = skip_spaces(s, c2 + 1);
    if rest_is_blank(s, p2) {
        Ok(Some(ItemModel::Cvar(name, arg)))
    } else if s[p2] != '"' {
        Err(ParseErrorModel::InvalidStringLiteral(s.skip(p2)))
    } else if c2 >= s.len() {
        Err(ParseErrorModel::InvalidStringLiteral(s.skip(p2 + 1)))
    } else if rest_is_blank(s, p3) && name == bind_word() {
        Ok(Some(ItemModel::Bind(arg, s.subrange(p2 + 1, c2))))
    } else {
        Err(ParseErrorModel::UnexpectedEndOfLine(s.skip(p3)))
    }
}

/// What a line means: nothing (blank or comment), one statement, or an error.
pub open spec fn parse_model(s: Seq<char>) -> Result<Option<ItemModel>, ParseErrorModel> {
    let p0 = skip_spaces(s, 0);
    if rest_is_blank(s, p0) {
        Ok(None)
    } else if !ident_start(s[p0]) {
        Err(ParseErrorModel::InvalidIdentifier(s.skip(p0)))
    } else {
        let e = ident_end(s, p0 + 1);
        parse_arguments(s, s.subrange(p0, e), e)
    }
}

/// The mathematical value of what [`parse_line`] returns.
pub open spec fn outcome(r: Result<Option<ConfigItem>, ParseError>) -> Result<
    Option<ItemModel>,
    ParseErrorModel,
> {
    match r {
        Ok(None) => Ok(None),
        Ok(Some(item)) => Ok(Some(item@)),
        Err(e) => Err(e@),
    }
}

fn is_letter(c: char) -> (r: bool)
    ensures
        r == letter(c),
{
    if (c as u32) < 128 {
        ('a' <= c && c <= 'z') || ('A' <= c && c <= 'Z')
    } else {
        unicode_alphabetic(c)
    }
}

fn is_letter_or_digit(c: char) -> (r: bool)
    ensures
        r == letter_or_digit(c),
{
    if (c as u32) < 128 {
        ('a' <= c && c <= 'z') || ('A' <= c && c <= 'Z') || ('0' <= c && c <= '9')
    } else {
        unicode_alphanumeric(c)
    }
}

/// The position after `expected`, where `cs` holds it at `i`.
fn match_literal(cs: &Vec<char>, i: usize, expected: &str) -> (r: Option<usize>)
    requires
        i <= cs.len(),
    ensures
        r == (if holds_at(cs@, i as int, expected@) {
            Some((i + expected@.len()) as usize)
        } else {
            None::<usize>
        }),
{
    let n = expected.unicode_len();
    if n > cs.len() - i {
        return None;
    }
    let mut j: usize = 0;
    while j < n
        invariant
            j <= n,
            n == expected@.len(),
            i + n <= cs.len(),
            forall|k: int| 0 <= k < j ==> cs@[i + k] == expected@[k],
        decreases n - j,
    {
        if cs[i + j] != expected.get_char(j) {
            assert(cs@.subrange(i as int, i + n)[j as int] != expected@[j as int]);
            return None;
        }
        j = j + 1;
    }
    assert(cs@.subrange(i as int, i + n) =~= expected@);
    Some(i + n)
}

/// The first position at or after `i` that holds no space.
fn ignore_whitespace(cs: &Vec<char>, i: usize) -> (r: usize)
    requires
        i <= cs.len(),
    ensures
        r == skip_spaces(cs@, i as int),
        i <= r <= cs.len(),
{
    let mut j = i;
    while j < cs.len() && cs[j] == ' '
        invariant
            i <= j <= cs.len(),
            skip_spaces(cs@, j as int) == skip_spaces(cs@, i as int),
        decreases cs.len() - j,
    {
        j = j + 1;
    }
    j
}

/// The first position at or after `i` that holds `c`, if any.
fn match_until_char(cs: &Vec<char>, i: usize, c: char) -> (r: Option<usize>)
    requires
        i <= cs.len(),
    ensures
        r == (if find_char(cs@, i as int, c) < cs.len() {
            Some(find_char(cs@, i as int, c) as usize)
        } else {
            None::<usize>
        }),
        i <= find_char(cs@, i as int, c) <= cs.len(),
{
    let mut j = i;
    while j < cs.len() && cs[j] != c
        invariant
            i <= j <= cs.len(),
            find_char(cs@, j as int, c) == find_char(cs@, i as int, c),
        decreases cs.len() - j,
    {
        j = j + 1;
    }
    if j < cs.len() {
        Some(j)
    } else {
        None
    }
}

/// The end of the identifier that starts at `i`, if one does.
fn identifier(cs: &Vec<char>, i: usize) -> (r: Option<usize>)
    requires
        i < cs.len(),
    ensures
        r == (if ident_start(cs@[i as int]) {
            Some(ident_end(cs@, i + 1) as usize)
        } else {
            None::<usize>
        }),
        i < ident_end(cs@, i + 1) <= cs.len(),
{
    proof {
        lemma_scan_bounds(cs@, i + 1, ' ');
    }
    let c = cs[i];
    if !(is_letter(c) || c == '_' || c == '@') {
        return None;
    }
    let mut j = i + 1;
    while j < cs.len() && (is_letter_or_digit(cs[j]) || cs[j] == '_' || cs[j] == '@')
        invariant
            i < j <= cs.len(),
            ident_end(cs@, j as int) == ident_end(cs@, i + 1),
        decreases cs.len() - j,
    {
        j = j + 1;
    }
    Some(j)
}

/// The closing quote of the quoted string that starts at `i`; where there is none, the
/// position from which the rest of the line is reported.
fn string_literal(cs: &Vec<char>, i: usize) -> (r: Result<usize, usize>)
    requires
        i < cs.len(),
    ensures
        cs@[i as int] != '"' ==> r == Err::<usize, usize>(i),
        cs@[i as int] == '"' && find_char(cs@, i + 1, '"') >= cs.len() ==> r == Err::<
            usize,
            usize,
        >((i + 1) as usize),
        cs@[i as int] == '"' && find_char(cs@, i + 1, '"') < cs.len() ==> r == Ok::<usize, usize>(
            find_char(cs@, i + 1, '"') as usize,
        ),
{
    proof {
        reveal_strlit("\"");
        lemma_scan_bounds(cs@, i + 1, '"');
        if cs@[i as int] == '"' {
            assert(cs@.subrange(i as int, i + 1) =~= "\""@);
        }
    }
    match match_literal(cs, i, "\"") {
        None => Err(i),
        Some(start) => {
            assert(cs@.subrange(i as int, i + 1)[0] == cs@[i as int]);
            match match_until_char(cs, start, '"') {
                Some(close) => Ok(close),
                None => Err(start),
            }
        },
    }
}

/// Whether nothing but a comment, if anything, is left from `i` on.
fn is_empty_or_comment(cs: &Vec<char>, i: usize) -> (r: bool)
    requires
        i <= cs.len(),
    ensures
        r == rest_is_blank(cs@, i as int),
{
    proof {
        reveal_strlit("//");
    }
    let m = match_literal(cs, i, "//");
    proof {
        if i + 2 <= cs.len() {
            let t = cs@.subrange(i as int, i + 2);
            assert(t[0] == cs@[i as int] && t[1] == cs@[i + 1]);
            if cs@[i as int] == '/' && cs@[i + 1] == '/' {
                assert(t =~= "//"@);
            }
        }
    }
    i == cs.len() || m.is_some()
}

/// Parses one line: `None` for a blank or comment line, else its statement or why it is
/// malformed.
pub fn parse_line(line: &str) -> (r: Result<Option<ConfigItem>, ParseError>)
    ensures
        outcome(r) == parse_model(line@),
{
    let cs = chars_of(line);
    let n = cs.len();
    let p0 = ignore_whitespace(&cs, 0);
    if is_empty_or_comment(&cs, p0) {
        return Ok(None);
    }
    let e = match identifier(&cs, p0) {
        Some(e) => e,
        None => {
            assert(line@.skip(p0 as int) =~= line@.subrange(p0 as int, n as int));
            return Err(ParseError::InvalidIdentifier(line.substring_char(p0, n).to_owned()));
        },
    };
    let name = line.substring_char(p0, e).to_owned();
    let p1 = ignore_whitespace(&cs, e);
    if is_empty_or_comment(&cs, p1) {
        return Ok(Some(ConfigItem::Command(name)));
    }
    let c1 = match string_literal(&cs, p1) {
        Ok(c) => c,
        Err(q) => {
            assert(line@.skip(q as int) =~= line@.subrange(q as int, n as int));
            return Err(ParseError::InvalidStringLiteral(line.substring_char(q, n).to_owned()));
        },
    };
    proof {
        lemma_scan_bounds(cs@, p1 + 1, '"');
    }
    let arg1 = line.substring_char(p1 + 1, c1).to_owned();
    let p2 = ignore_whitespace(&cs, c1 + 1);
    if is_empty_or_comment(&cs, p2) {
        return Ok(Some(ConfigItem::Cvar(name, arg1)));
    }
    let c2 = match string_literal(&cs, p2) {
        Ok(c) => c,
        Err(q) => {
            assert(line@.skip(q as int) =~= line@.subrange(q as int, n as int));
            return Err(ParseError::InvalidStringLiteral(line.substring_char(q, n).to_owned()));
        },
    };
    proof {
        lemma_scan_bounds(cs@, p2 + 1, '"');
    }
    let arg2 = line.substring_char(p2 + 1, c2).to_owned();
    let p3 = ignore_whitespace(&cs, c2 + 1);
    let bind = String::from_str("bind");
    proof {
        reveal_strlit("bind");
        assert(bind@ =~= bind_word());
    }
    if is_empty_or_comment(&cs, p3) && name == bind {
        return Ok(Some(ConfigItem::Bind(arg1, arg2)));
    }
    assert(line@.skip(p3 as int) =~= line@.subrange(p3 as int, n as int));
    Err(ParseError::UnexpectedEndOfLine(line.substring_char(p3, n).to_owned()))
}

} // verus!
