//! What the grammar gives on lines built from their parts.
use vstd::prelude::*;
use crate::config::{bind_word, key, render, ItemModel};
use crate::merge::{entries, lemma_ordered_entries, merged, ordered, statements};
use crate::parser::{
    find_char, ident_end, ident_rest, ident_start, is_identifier, parse_model, quote_free,
    rest_is_blank, skip_spaces, ParseErrorModel,
};

verus! {

/// `n` spaces.
pub open spec fn spaces(n: nat) -> Seq<char> {
    Seq::new(n, |_i: int| ' ')
}

/// `v` between double quotes.
pub open spec fn quoted(v: Seq<char>) -> Seq<char> {
    seq!['"'] + v + seq!['"']
}

/// Spaces, then nothing or a comment.
pub open spec fn blank_tail(t: Seq<char>) -> bool {
    rest_is_blank(t, skip_spaces(t, 0))
}

proof fn lemma_skip_run(s: Seq<char>, i: int, j: int)
    requires
        0 <= i <= j <= s.len(),
        forall|k: int| i <= k < j ==> s[k] == ' ',
        j == s.len() || s[j] != ' ',
    ensures
        skip_spaces(s, i) == j,
    decreases j - i,
{
    if i < j {
        lemma_skip_run(s, i + 1, j);
    }
}

proof fn lemma_ident_run(s: Seq<char>, i: int, j: int)
    requires
        0 <= i <= j <= s.len(),
        forall|k: int| i <= k < j ==> ident_rest(s[k]),
        j == s.len() || !ident_rest(s[j]),
    ensures
        ident_end(s, i) == j,
    decreases j - i,
{
    if i < j {
        lemma_ident_run(s, i + 1, j);
    }
}

proof fn lemma_find_run(s: Seq<char>, i: int, j: int, c: char)
    requires
        0 <= i <= j <= s.len(),
        forall|k: int| i <= k < j ==> s[k] != c,
        j == s.len() || s[j] == c,
    ensures
        find_char(s, i, c) == j,
    decreases j - i,
{
    if i < j {
        lemma_find_run(s, i + 1, j, c);
    }
}

proof fn lemma_skip_shift(w: Seq<char>, t: Seq<char>, i: int)
    requires
        0 <= i <= t.len(),
    ensures
        skip_spaces(w + t, w.len() + i) == w.len() + skip_spaces(t, i),
    decreases t.len() - i,
{
    if i < t.len() && t[i] == ' ' {
        lemma_skip_shift(w, t, i + 1);
    }
}

/// After a statement `w`, a blank tail leaves the line blank from the end of `w` on.
proof fn lemma_tail(w: Seq<char>, t: Seq<char>)
    requires
        blank_tail(t),
    ensures
        rest_is_blank(w + t, skip_spaces(w + t, w.len() as int)),
        skip_spaces(w + t, w.len() as int) - w.len() == skip_spaces(t, 0),
        (w + t).skip(skip_spaces(w + t, w.len() as int)) == t.skip(skip_spaces(t, 0)),
        t.len() > 0 ==> t[0] == ' ' || t[0] == '/',
{
    lemma_skip_shift(w, t, 0);
    crate::parser::lemma_scan_bounds(t, 0, ' ');
    let q = skip_spaces(t, 0);
    assert((w + t).skip(w.len() + q) =~= t.skip(q));
}

/// Neither a space, a quote nor a slash belongs to an identifier.
proof fn lemma_separators()
    ensures
        !ident_rest(' '),
        !ident_rest('"'),
        !ident_rest('/'),
        !ident_start(' '),
        !ident_start('/'),
{
}

/// A line that starts with `a` spaces and the identifier `k`, which ends where no identifier
/// character follows.
proof fn lemma_head(u: Seq<char>, a: nat, k: Seq<char>)
    requires
        is_identifier(k),
        a + k.len() <= u.len(),
        u.subrange(0, (a + k.len()) as int) == spaces(a) + k,
        u.len() == a + k.len() || !ident_rest(u[(a + k.len()) as int]),
    ensures
        skip_spaces(u, 0) == a,
        !rest_is_blank(u, a as int),
        ident_start(u[a as int]),
        ident_end(u, (a + 1) as int) == a + k.len(),
        u.subrange(a as int, (a + k.len()) as int) == k,
{
    let n = a + k.len();
    lemma_separators();
    assert forall|j: int| 0 <= j < n implies u[j] == (spaces(a) + k)[j] by {
        assert(u.subrange(0, n as int)[j] == u[j]);
    }
    assert(u[a as int] == k[0]);
    lemma_skip_run(u, 0, a as int);
    assert forall|j: int| a + 1 <= j < n implies ident_rest(u[j]) by {
        assert(u[j] == k[j - a]);
    }
    lemma_ident_run(u, (a + 1) as int, n as int);
    assert(u.subrange(a as int, n as int) =~= k);
}

/// `b` spaces and the quoted `v` stand in `u` from `p` on.
proof fn lemma_argument(u: Seq<char>, p: int, b: nat, v: Seq<char>)
    requires
        0 <= p,
        quote_free(v),
        p + b + v.len() + 2 <= u.len(),
        u.subrange(p, p + b + v.len() + 2) == spaces(b) + quoted(v),
    ensures
        skip_spaces(u, p) == p + b,
        u[p + b] == '"',
        !rest_is_blank(u, p + b),
        find_char(u, p + b + 1, '"') == p + b + 1 + v.len(),
        u.subrange(p + b + 1, p + b + 1 + v.len()) == v,
{
    let n = p + b + v.len() + 2;
    let x = spaces(b) + quoted(v);
    assert forall|j: int| p <= j < n implies u[j] == x[j - p] by {
        assert(u.subrange(p, n)[j - p] == u[j]);
    }
    assert(u[p + b] == '"');
    lemma_skip_run(u, p, p + b);
    assert forall|j: int| p + b + 1 <= j < p + b + 1 + v.len() implies u[j] != '"' by {
        assert(u[j] == v[j - p - b - 1]);
    }
    assert(u[p + b + 1 + v.len()] == '"');
    lemma_find_run(u, p + b + 1, p + b + 1 + v.len(), '"');
    assert(u.subrange(p + b + 1, p + b + 1 + v.len()) =~= v);
}

/// An identifier alone, after any spaces and before any blank tail, is a command.
pub proof fn lemma_command_line(a: nat, k: Seq<char>, tail: Seq<char>)
    requires
        is_identifier(k),
        blank_tail(tail),
    ensures
        parse_model(spaces(a) + k + tail) == Ok::<Option<ItemModel>, ParseErrorModel>(
            Some(ItemModel::Command(k)),
        ),
{
    let w = spaces(a) + k;
    let u = w + tail;
    lemma_tail(w, tail);
    lemma_separators();
    assert(u.subrange(0, w.len() as int) =~= w);
    lemma_head(u, a, k);
}

/// A bare identifier is read as the command of that name.
pub proof fn lemma_identifier_is_command(s: Seq<char>)
    requires
        is_identifier(s),
    ensures
        parse_model(s) == Ok::<Option<ItemModel>, ParseErrorModel>(
            Some(ItemModel::Command(s)),
        ),
{
    lemma_command_line(0, s, Seq::empty());
    assert(spaces(0) + s + Seq::<char>::empty() =~= s);
}

/// An identifier and one quoted value, with any spaces before, between and after them and any
/// comment at the end, set a variable to that value.
pub proof fn lemma_setting_line(a: nat, k: Seq<char>, b: nat, v: Seq<char>, tail: Seq<char>)
    requires
        is_identifier(k),
        quote_free(v),
        blank_tail(tail),
    ensures
        parse_model(spaces(a) + k + spaces(b) + quoted(v) + tail) == Ok::<
            Option<ItemModel>,
            ParseErrorModel,
        >(Some(ItemModel::Cvar(k, v))),
{
    let e = a + k.len();
    let w = spaces(a) + k + spaces(b) + quoted(v);
    let u = w + tail;
    lemma_tail(w, tail);
    lemma_separators();
    assert(u.subrange(0, e as int) =~= spaces(a) + k);
    assert(u[e as int] == (spaces(b) + quoted(v))[0]);
    lemma_head(u, a, k);
    assert(u.subrange(e as int, w.len() as int) =~= spaces(b) + quoted(v));
    lemma_argument(u, e as int, b, v);
}

/// An identifier and two quoted values, with any spaces before, between and after them and any
/// comment at the end: a bind where the identifier is `bind`, else an error at the end of the
/// line.
pub proof fn lemma_two_argument_line(
    a: nat,
    k: Seq<char>,
    b: nat,
    x: Seq<char>,
    c: nat,
    y: Seq<char>,
    tail: Seq<char>,
)
    requires
        is_identifier(k),
        quote_free(x),
        quote_free(y),
        blank_tail(tail),
    ensures
        parse_model(spaces(a) + k + spaces(b) + quoted(x) + spaces(c) + quoted(y) + tail) == if k
            == bind_word() {
            Ok::<Option<ItemModel>, ParseErrorModel>(Some(ItemModel::Bind(x, y)))
        } else {
            Err::<Option<ItemModel>, ParseErrorModel>(
                ParseErrorModel::UnexpectedEndOfLine(tail.skip(skip_spaces(tail, 0))),
            )
        },
{
    let e = a + k.len();
    let m = e + b + x.len() + 2;
    let w = spaces(a) + k + spaces(b) + quoted(x) + spaces(c) + quoted(y);
    let u = w + tail;
    lemma_tail(w, tail);
    lemma_separators();
    assert(u.subrange(0, e as int) =~= spaces(a) + k);
    assert(u[e as int] == (spaces(b) + quoted(x))[0]);
    lemma_head(u, a, k);
    assert(u.subrange(e as int, m as int) =~= spaces(b) + quoted(x));
    lemma_argument(u, e as int, b, x);
    assert(u.subrange(m as int, w.len() as int) =~= spaces(c) + quoted(y));
    lemma_argument(u, m as int, c, y);
}

/// An identifier followed by spaces and a value that is not quoted is rejected at that value.
pub proof fn lemma_unquoted_value(a: nat, k: Seq<char>, b: nat, w: Seq<char>)
    requires
        is_identifier(k),
        b >= 1,
        w.len() > 0,
        w[0] != '"',
        w[0] != ' ',
        w[0] != '/',
    ensures
        parse_model(spaces(a) + k + spaces(b) + w) == Err::<Option<ItemModel>, ParseErrorModel>(
            ParseErrorModel::InvalidStringLiteral(w),
        ),
{
    let e = a + k.len();
    let u = spaces(a) + k + spaces(b) + w;
    lemma_separators();
    assert(u.subrange(0, e as int) =~= spaces(a) + k);
    assert(u[e as int] == ' ');
    lemma_head(u, a, k);
    assert forall|j: int| e <= j < e + b implies u[j] == ' ' by {
        assert(u[j] == spaces(b)[j - e]);
    }
    assert(u[(e + b) as int] == w[0]);
    lemma_skip_run(u, e as int, (e + b) as int);
    assert(u.skip((e + b) as int) =~= w);
}

/// A line of spaces and at most a comment holds no statement.
pub proof fn lemma_blank_line(t: Seq<char>)
    requires
        blank_tail(t),
    ensures
        parse_model(t) == Ok::<Option<ItemModel>, ParseErrorModel>(None),
{
}

proof fn lemma_skip_extend(s: Seq<char>, t: Seq<char>, i: int)
    requires
        0 <= i <= s.len(),
    ensures
        skip_spaces(s, i) < s.len() ==> skip_spaces(s + t, i) == skip_spaces(s, i),
        skip_spaces(s, i) >= s.len() ==> skip_spaces(s + t, i) == s.len() + skip_spaces(t, 0),
    decreases s.len() - i,
{
    crate::parser::lemma_scan_bounds(s, i, ' ');
    if i < s.len() {
        assert((s + t)[i] == s[i]);
        if s[i] == ' ' {
            lemma_skip_extend(s, t, i + 1);
        }
    } else {
        lemma_skip_shift(s, t, 0);
    }
}

proof fn lemma_ident_extend(s: Seq<char>, t: Seq<char>, i: int)
    requires
        0 <= i <= s.len(),
        t.len() > 0 ==> !ident_rest(t[0]),
    ensures
        ident_end(s + t, i) == ident_end(s, i),
    decreases s.len() - i,
{
    if i < s.len() {
        assert((s + t)[i] == s[i]);
        if ident_rest(s[i]) {
            lemma_ident_extend(s, t, i + 1);
        }
    } else if t.len() > 0 {
        assert((s + t)[i] == t[0]);
    }
}

proof fn lemma_find_extend(s: Seq<char>, t: Seq<char>, i: int, c: char)
    requires
        0 <= i <= s.len(),
        find_char(s, i, c) < s.len(),
    ensures
        find_char(s + t, i, c) == find_char(s, i, c),
    decreases s.len() - i,
{
    assert((s + t)[i] == s[i]);
    if s[i] != c {
        lemma_find_extend(s, t, i + 1, c);
    }
}

/// Where the rest of `s` from `i` on is blank, so is the rest of `s + t`.
proof fn lemma_blank_extend(s: Seq<char>, t: Seq<char>, i: int)
    requires
        0 <= i <= s.len(),
        rest_is_blank(s, skip_spaces(s, i)),
        blank_tail(t),
    ensures
        rest_is_blank(s + t, skip_spaces(s + t, i)),
{
    lemma_skip_extend(s, t, i);
    lemma_tail(s, t);
    let p = skip_spaces(s, i);
    crate::parser::lemma_scan_bounds(s, i, ' ');
    if p < s.len() {
        assert(p + 1 < s.len() && s[p] == '/' && s[p + 1] == '/');
        assert((s + t)[p] == s[p]);
        assert((s + t)[p + 1] == s[p + 1]);
    }
}

/// Where the rest of `s` from `i` on starts with a character other than a slash, so does the
/// rest of `s + t`.
proof fn lemma_token_extend(s: Seq<char>, t: Seq<char>, i: int)
    requires
        0 <= i <= s.len(),
        skip_spaces(s, i) < s.len(),
        s[skip_spaces(s, i)] != '/',
    ensures
        skip_spaces(s + t, i) == skip_spaces(s, i),
        (s + t)[skip_spaces(s, i)] == s[skip_spaces(s, i)],
        !rest_is_blank(s + t, skip_spaces(s, i)),
{
    lemma_skip_extend(s, t, i);
    crate::parser::lemma_scan_bounds(s, i, ' ');
    assert((s + t)[skip_spaces(s, i)] == s[skip_spaces(s, i)]);
}

/// A blank tail (spaces, a comment) after a line that holds a statement leaves the statement as
/// it is.
pub proof fn lemma_comment_after_statement(s: Seq<char>, t: Seq<char>)
    requires
        parse_model(s) matches Ok(Some(_)),
        blank_tail(t),
    ensures
        parse_model(s + t) == parse_model(s),
{
    let u = s + t;
    lemma_tail(s, t);
    lemma_separators();
    crate::parser::lemma_scan_bounds(s, 0, ' ');
    let p0 = skip_spaces(s, 0);
    assert(!rest_is_blank(s, p0) && ident_start(s[p0]));
    lemma_token_extend(s, t, 0);
    let e = ident_end(s, p0 + 1);
    crate::parser::lemma_scan_bounds(s, p0 + 1, ' ');
    lemma_ident_extend(s, t, p0 + 1);
    assert(u.subrange(p0, e) =~= s.subrange(p0, e));
    let name = s.subrange(p0, e);
    let p1 = skip_spaces(s, e);
    crate::parser::lemma_scan_bounds(s, e, ' ');
    if rest_is_blank(s, p1) {
        lemma_blank_extend(s, t, e);
    } else {
        assert(s[p1] == '"');
        lemma_token_extend(s, t, e);
        let c1 = find_char(s, p1 + 1, '"');
        crate::parser::lemma_scan_bounds(s, p1 + 1, '"');
        assert(c1 < s.len());
        lemma_find_extend(s, t, p1 + 1, '"');
        assert(u.subrange(p1 + 1, c1) =~= s.subrange(p1 + 1, c1));
        let p2 = skip_spaces(s, c1 + 1);
        crate::parser::lemma_scan_bounds(s, c1 + 1, ' ');
        if rest_is_blank(s, p2) {
            lemma_blank_extend(s, t, c1 + 1);
        } else {
            assert(s[p2] == '"');
            lemma_token_extend(s, t, c1 + 1);
            let c2 = find_char(s, p2 + 1, '"');
            crate::parser::lemma_scan_bounds(s, p2 + 1, '"');
            assert(c2 < s.len());
            lemma_find_extend(s, t, p2 + 1, '"');
            assert(u.subrange(p2 + 1, c2) =~= s.subrange(p2 + 1, c2));
            assert(rest_is_blank(s, skip_spaces(s, c2 + 1)));
            lemma_blank_extend(s, t, c2 + 1);
        }
    }
}

/// An item that a line can hold: identifiers where names stand, no quote inside quotes.
pub open spec fn writable(m: ItemModel) -> bool {
    match m {
        ItemModel::Command(n) => is_identifier(n),
        ItemModel::Cvar(n, v) => is_identifier(n) && quote_free(v),
        ItemModel::Bind(k, b) => quote_free(k) && quote_free(b),
    }
}

proof fn lemma_scan_runs(s: Seq<char>, i: int, c: char)
    requires
        0 <= i <= s.len(),
    ensures
        forall|j: int| i <= j < ident_end(s, i) ==> ident_rest(#[trigger] s[j]),
        forall|j: int| i <= j < find_char(s, i, c) ==> #[trigger] s[j] != c,
    decreases s.len() - i,
{
    if i < s.len() {
        lemma_scan_runs(s, i + 1, c);
    }
}

/// Whatever a line yields can be written as a line.
pub proof fn lemma_parsed_writable(s: Seq<char>)
    ensures
        parse_model(s) matches Ok(Some(m)) ==> writable(m),
{
    let p0 = skip_spaces(s, 0);
    crate::parser::lemma_scan_bounds(s, 0, ' ');
    if !rest_is_blank(s, p0) && ident_start(s[p0]) {
        let e = ident_end(s, p0 + 1);
        crate::parser::lemma_scan_bounds(s, p0 + 1, ' ');
        lemma_scan_runs(s, p0 + 1, ' ');
        let name = s.subrange(p0, e);
        assert(is_identifier(name)) by {
            assert(name[0] == s[p0]);
            assert forall|i: int| 1 <= i < name.len() implies ident_rest(#[trigger] name[i]) by {
                assert(name[i] == s[p0 + i]);
            }
        }
        let p1 = skip_spaces(s, e);
        crate::parser::lemma_scan_bounds(s, e, ' ');
        if p1 + 1 <= s.len() {
            let c1 = find_char(s, p1 + 1, '"');
            crate::parser::lemma_scan_bounds(s, p1 + 1, '"');
            lemma_scan_runs(s, p1 + 1, '"');
            let arg = s.subrange(p1 + 1, c1);
            assert(quote_free(arg)) by {
                assert forall|i: int| 0 <= i < arg.len() implies arg[i] != '"' by {
                    assert(arg[i] == s[p1 + 1 + i]);
                }
            }
            if c1 + 1 <= s.len() {
                let p2 = skip_spaces(s, c1 + 1);
                crate::parser::lemma_scan_bounds(s, c1 + 1, ' ');
                if p2 + 1 <= s.len() {
                    let c2 = find_char(s, p2 + 1, '"');
                    crate::parser::lemma_scan_bounds(s, p2 + 1, '"');
                    lemma_scan_runs(s, p2 + 1, '"');
                    let arg2 = s.subrange(p2 + 1, c2);
                    assert(quote_free(arg2)) by {
                        assert forall|i: int| 0 <= i < arg2.len() implies arg2[i] != '"' by {
                            assert(arg2[i] == s[p2 + 1 + i]);
                        }
                    }
                }
            }
        }
    }
}

proof fn lemma_setting_round_trip(n: Seq<char>, v: Seq<char>)
    requires
        is_identifier(n),
        quote_free(v),
    ensures
        parse_model(render(ItemModel::Cvar(n, v))) == Ok::<Option<ItemModel>, ParseErrorModel>(
            Some(ItemModel::Cvar(n, v)),
        ),
{
    lemma_setting_line(0, n, 1, v, Seq::empty());
    lemma_setting_text(n, v);
}

proof fn lemma_setting_text(n: Seq<char>, v: Seq<char>)
    ensures
        spaces(0) + n + spaces(1) + quoted(v) + Seq::empty() == render(ItemModel::Cvar(n, v)),
{
    let line = spaces(0) + n + spaces(1) + quoted(v) + Seq::empty();
    assert(spaces(0) =~= Seq::<char>::empty());
    assert(spaces(1) =~= seq![' ']);
    assert(line =~= render(ItemModel::Cvar(n, v)));
}

proof fn lemma_bind_text(k: Seq<char>, b: Seq<char>)
    ensures
        spaces(0) + bind_word() + spaces(1) + quoted(k) + spaces(1) + quoted(b) + Seq::empty()
            == render(ItemModel::Bind(k, b)),
{
    let line = spaces(0) + bind_word() + spaces(1) + quoted(k) + spaces(1) + quoted(b)
        + Seq::empty();
    assert(spaces(0) =~= Seq::<char>::empty());
    assert(spaces(1) =~= seq![' ']);
    assert(line =~= render(ItemModel::Bind(k, b)));
}

proof fn lemma_bind_round_trip(k: Seq<char>, b: Seq<char>)
    requires
        quote_free(k),
        quote_free(b),
    ensures
        parse_model(render(ItemModel::Bind(k, b))) == Ok::<Option<ItemModel>, ParseErrorModel>(
            Some(ItemModel::Bind(k, b)),
        ),
{
    let empty = Seq::<char>::empty();
    let w = bind_word();
    assert(is_identifier(w)) by {
        assert(ident_start(w[0]));
        assert forall|i: int| 1 <= i < w.len() implies ident_rest(#[trigger] w[i]) by {
            assert(ident_rest('i') && ident_rest('n') && ident_rest('d'));
        }
    }
    lemma_two_argument_line(0, w, 1, k, 1, b, empty);
    lemma_bind_text(k, b);
}

/// The canonical line of an item that a line can hold reads back as that item.
pub proof fn lemma_round_trip(m: ItemModel)
    requires
        writable(m),
    ensures
        parse_model(render(m)) == Ok::<Option<ItemModel>, ParseErrorModel>(Some(m)),
{
    match m {
        ItemModel::Command(n) => lemma_identifier_is_command(n),
        ItemModel::Cvar(n, v) => lemma_setting_round_trip(n, v),
        ItemModel::Bind(k, b) => lemma_bind_round_trip(k, b),
    }
}

proof fn lemma_statements_writable(lines: Seq<Seq<char>>)
    ensures
        forall|j: int| 0 <= j < statements(lines).len() ==> writable(#[trigger] statements(lines)[j]),
    decreases lines.len(),
{
    if lines.len() > 0 {
        let rest = statements(lines.drop_last());
        lemma_statements_writable(lines.drop_last());
        lemma_parsed_writable(lines.last());
        if let Ok(Some(m)) = parse_model(lines.last()) {
            assert forall|j: int| 0 <= j < rest.push(m).len() implies writable(
                #[trigger] rest.push(m)[j],
            ) by {
                if j < rest.len() {
                    assert(rest.push(m)[j] == rest[j]);
                }
            }
        }
    }
}

proof fn lemma_entries_writable(v: Seq<ItemModel>)
    requires
        forall|j: int| 0 <= j < v.len() ==> writable(#[trigger] v[j]),
    ensures
        forall|k: (int, Seq<char>)| #[trigger] entries(v).contains_key(k) ==> writable(entries(v)[k]),
    decreases v.len(),
{
    if v.len() > 0 {
        let d = v.drop_last();
        assert forall|j: int| 0 <= j < d.len() implies writable(#[trigger] d[j]) by {
            assert(d[j] == v[j]);
        }
        lemma_entries_writable(d);
        assert(writable(v[v.len() - 1]));
        assert forall|k: (int, Seq<char>)| #[trigger] entries(v).contains_key(k) implies writable(
            entries(v)[k],
        ) by {
            if k != key(v.last()) {
                assert(entries(d).contains_key(k));
            }
        }
    }
}

/// Each line that a merge writes reads back as the item it was written from.
pub proof fn lemma_merge_reads_back(
    target: Seq<Seq<char>>,
    patch: Seq<Seq<char>>,
    items: Seq<ItemModel>,
)
    requires
        ordered(items),
        entries(items) == merged(target, patch),
    ensures
        forall|i: int|
            0 <= i < items.len() ==> parse_model(render(#[trigger] items[i])) == Ok::<
                Option<ItemModel>,
                ParseErrorModel,
            >(Some(items[i])),
{
    let all = statements(target) + statements(patch);
    lemma_statements_writable(target);
    lemma_statements_writable(patch);
    assert forall|j: int| 0 <= j < all.len() implies writable(#[trigger] all[j]) by {
        if j < statements(target).len() {
            assert(all[j] == statements(target)[j]);
        } else {
            assert(all[j] == statements(patch)[j - statements(target).len()]);
        }
    }
    lemma_entries_writable(all);
    lemma_ordered_entries(items);
    assert forall|i: int| 0 <= i < items.len() implies parse_model(render(#[trigger] items[i]))
        == Ok::<Option<ItemModel>, ParseErrorModel>(Some(items[i])) by {
        assert(entries(items).contains_key(key(items[i])));
        lemma_round_trip(items[i]);
    }
}

} // verus!
