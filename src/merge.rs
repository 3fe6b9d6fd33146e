//! The merge collection: statements kept in output order, one per entry, the latest winning.
use vstd::prelude::*;
use crate::config::{key, precedes, ConfigItem, ItemModel};
use crate::parser::{parse_line, parse_model, ParseError, ParseErrorModel};
use crate::text::{lemma_chars_lt_irreflexive, lemma_chars_lt_transitive};
use std::cmp::Ordering;

verus! {

/// The models of a sequence of items.
pub open spec fn models(v: Seq<ConfigItem>) -> Seq<ItemModel> {
    v.map_values(|x: ConfigItem| x@)
}

/// The text of a sequence of lines.
pub open spec fn texts(v: Seq<String>) -> Seq<Seq<char>> {
    v.map_values(|x: String| x@)
}

/// Strictly increasing in the output order, hence no entry twice.
pub open spec fn ordered(v: Seq<ItemModel>) -> bool {
    forall|i: int, j: int| 0 <= i < j < v.len() ==> precedes(#[trigger] v[i], #[trigger] v[j])
}

/// The entries that a sequence of statements leaves, each key mapped to its latest statement.
pub open spec fn entries(v: Seq<ItemModel>) -> Map<(int, Seq<char>), ItemModel>
    decreases v.len(),
{
    if v.len() == 0 {
        Map::empty()
    } else {
        entries(v.drop_last()).insert(key(v.last()), v.last())
    }
}

/// The statements of a sequence of lines, in order, blank and comment lines left out.
pub open spec fn statements(lines: Seq<Seq<char>>) -> Seq<ItemModel>
    decreases lines.len(),
{
    if lines.len() == 0 {
        Seq::empty()
    } else {
        let rest = statements(lines.drop_last());
        match parse_model(lines.last()) {
            Ok(Some(m)) => rest.push(m),
            _ => rest,
        }
    }
}

/// Every line parses.
pub open spec fn well_formed(lines: Seq<Seq<char>>) -> bool {
    forall|i: int| 0 <= i < lines.len() ==> (#[trigger] parse_model(lines[i])) is Ok
}

/// Line `i` is the first that does not parse, and fails with `e`.
pub open spec fn first_failure(lines: Seq<Seq<char>>, i: int, e: ParseErrorModel) -> bool {
    &&& 0 <= i < lines.len()
    &&& parse_model(lines[i]) == Err::<Option<ItemModel>, ParseErrorModel>(e)
    &&& forall|j: int| 0 <= j < i ==> (#[trigger] parse_model(lines[j])) is Ok
}

/// The entries left by the target's statements and then the patch's.
pub open spec fn merged(target: Seq<Seq<char>>, patch: Seq<Seq<char>>) -> Map<
    (int, Seq<char>),
    ItemModel,
> {
    entries(statements(target) + statements(patch))
}

pub proof fn lemma_precedes_transitive(a: ItemModel, b: ItemModel, c: ItemModel)
    requires
        precedes(a, b),
        precedes(b, c),
    ensures
        precedes(a, c),
{
    if crate::config::rank(a) == crate::config::rank(b) && crate::config::rank(b)
        == crate::config::rank(c) {
        lemma_chars_lt_transitive(
            crate::config::identity(a),
            crate::config::identity(b),
            crate::config::identity(c),
        );
    }
}

pub proof fn lemma_precedes_distinct(a: ItemModel, b: ItemModel)
    requires
        precedes(a, b),
    ensures
        key(a) != key(b),
{
    lemma_chars_lt_irreflexive(crate::config::identity(a));
}

proof fn lemma_entries_push(v: Seq<ItemModel>, x: ItemModel)
    ensures
        entries(v.push(x)) == entries(v).insert(key(x), x),
{
    assert(v.push(x).drop_last() =~= v);
}

/// What follows a sequence acts on its entries alone.
pub proof fn lemma_entries_append(a: Seq<ItemModel>, b: Seq<ItemModel>, s: Seq<ItemModel>)
    requires
        entries(a) == entries(b),
    ensures
        entries(a + s) == entries(b + s),
    decreases s.len(),
{
    if s.len() == 0 {
        assert(a + s =~= a);
        assert(b + s =~= b);
    } else {
        lemma_entries_append(a, b, s.drop_last());
        assert((a + s).drop_last() =~= a + s.drop_last());
        assert((b + s).drop_last() =~= b + s.drop_last());
    }
}

/// The entries of `a + b`: those of `b`, and those of `a` whose key `b` does not hold.
pub proof fn lemma_entries_concat(a: Seq<ItemModel>, b: Seq<ItemModel>)
    ensures
        entries(a + b) == entries(a).union_prefer_right(entries(b)),
    decreases b.len(),
{
    if b.len() == 0 {
        assert(a + b =~= a);
        assert(entries(a).union_prefer_right(entries(b)) =~= entries(a));
    } else {
        lemma_entries_concat(a, b.drop_last());
        assert((a + b).drop_last() =~= a + b.drop_last());
        assert(entries(a + b) =~= entries(a).union_prefer_right(entries(b)));
    }
}

/// Patching by identity: the merge holds each entry of the patch, and each entry of the target
/// whose key the patch does not hold.
pub proof fn lemma_patch_overrides(target: Seq<Seq<char>>, patch: Seq<Seq<char>>)
    ensures
        merged(target, patch) == entries(statements(target)).union_prefer_right(
            entries(statements(patch)),
        ),
{
    lemma_entries_concat(statements(target), statements(patch));
}

/// Patching a file with itself leaves the entries of that file, with the patch's payload.
pub proof fn lemma_self_patch(lines: Seq<Seq<char>>)
    ensures
        merged(lines, lines) == entries(statements(lines)),
{
    lemma_patch_overrides(lines, lines);
    assert(entries(statements(lines)).union_prefer_right(entries(statements(lines)))
        =~= entries(statements(lines)));
}

/// In an ordered sequence each item is the entry of its key.
pub proof fn lemma_ordered_entries(v: Seq<ItemModel>)
    requires
        ordered(v),
    ensures
        forall|i: int|
            0 <= i < v.len() ==> entries(v).contains_key(key(#[trigger] v[i])) && entries(v)[key(
                v[i],
            )] == v[i],
    decreases v.len(),
{
    if v.len() > 0 {
        let d = v.drop_last();
        assert(ordered(d));
        lemma_ordered_entries(d);
        assert forall|i: int| 0 <= i < v.len() implies entries(v).contains_key(
            key(#[trigger] v[i]),
        ) && entries(v)[key(v[i])] == v[i] by {
            if i < v.len() - 1 {
                lemma_precedes_distinct(v[i], v.last());
                assert(d[i] == v[i]);
            }
        }
    }
}

/// Replacing an entry in an ordered sequence replaces it in its entries.
proof fn lemma_entries_update(v: Seq<ItemModel>, p: int, x: ItemModel)
    requires
        ordered(v),
        0 <= p < v.len(),
        key(v[p]) == key(x),
    ensures
        entries(v.update(p, x)) == entries(v).insert(key(x), x),
    decreases v.len(),
{
    let w = v.update(p, x);
    let last = v.len() - 1;
    if p == last {
        assert(w.drop_last() =~= v.drop_last());
        assert(entries(w) =~= entries(v).insert(key(x), x));
    } else {
        let d = v.drop_last();
        assert(ordered(d));
        lemma_entries_update(d, p, x);
        assert(w.drop_last() =~= d.update(p, x));
        lemma_precedes_distinct(v[p], v[last]);
        assert(entries(w) =~= entries(v).insert(key(x), x));
    }
}

/// Inserting a new entry into a sequence adds it to its entries.
proof fn lemma_entries_insert(v: Seq<ItemModel>, p: int, x: ItemModel)
    requires
        0 <= p <= v.len(),
        forall|i: int| p <= i < v.len() ==> key(#[trigger] v[i]) != key(x),
    ensures
        entries(v.insert(p, x)) == entries(v).insert(key(x), x),
    decreases v.len(),
{
    let w = v.insert(p, x);
    if p == v.len() {
        assert(w =~= v.push(x));
        lemma_entries_push(v, x);
    } else {
        let d = v.drop_last();
        let last = v.len() - 1;
        lemma_entries_insert(d, p, x);
        assert(w.drop_last() =~= d.insert(p, x));
        assert(w.last() == v[last]);
        assert(entries(w) =~= entries(v).insert(key(x), x));
    }
}

/// Puts `item` into the ordered collection `set`: it replaces the entry of the same key,
/// or is added at its place in the output order.
pub fn insert_item(set: &mut Vec<ConfigItem>, item: ConfigItem)
    requires
        ordered(models(old(set)@)),
    ensures
        ordered(models(final(set)@)),
        entries(models(final(set)@)) == entries(models(old(set)@)).insert(key(item@), item@),
{
    let ghost v = models(set@);
    let ghost x = item@;
    let mut p: usize = 0;
    let mut found = false;
    while p < set.len()
        invariant
            p <= set.len(),
            set@ == old(set)@,
            v == models(set@),
            x == item@,
            forall|i: int| 0 <= i < p ==> precedes(#[trigger] v[i], x),
            found ==> p < set.len() && key(v[p as int]) == key(x),
        ensures
            found ==> p < set.len() && key(v[p as int]) == key(x),
            !found ==> p == set.len() || precedes(x, v[p as int]),
        decreases set.len() - p + (if found { 0int } else { 1int }),
    {
        match set[p].cmp_identity(&item) {
            Ordering::Less => {
                p = p + 1;
            },
            Ordering::Equal => {
                found = true;
                break ;
            },
            Ordering::Greater => {
                assert(precedes(x, v[p as int]));
                break ;
            },
        }
    }
    if found {
        set.set(p, item);
        proof {
            assert(models(set@) =~= v.update(p as int, x));
            lemma_entries_update(v, p as int, x);
            let w = models(set@);
            assert forall|i: int, j: int| 0 <= i < j < w.len() implies precedes(
                #[trigger] w[i],
                #[trigger] w[j],
            ) by {
                assert(v[i] == w[i] || i == p);
                assert(v[j] == w[j] || j == p);
            }
        }
    } else {
        proof {
            assert forall|i: int| p <= i < v.len() implies key(#[trigger] v[i]) != key(x) by {
                if i > p {
                    lemma_precedes_transitive(x, v[p as int], v[i]);
                }
                lemma_precedes_distinct(x, v[i]);
            }
            lemma_entries_insert(v, p as int, x);
        }
        set.insert(p, item);
        proof {
            let w = models(set@);
            assert(w =~= v.insert(p as int, x));
            assert forall|i: int, j: int| 0 <= i < j < w.len() implies precedes(
                #[trigger] w[i],
                #[trigger] w[j],
            ) by {
                if j < p {
                    assert(w[i] == v[i] && w[j] == v[j]);
                } else if i < p && j == p {
                } else if i < p && j > p {
                    assert(w[j] == v[j - 1]);
                } else if i == p {
                    assert(w[j] == v[j - 1]);
                    if j - 1 > p {
                        lemma_precedes_transitive(x, v[p as int], v[j - 1]);
                    }
                } else {
                    assert(i > p);
                    assert(w[i] == v[i - 1]);
                    assert(w[j] == v[j - 1]);
                    assert(precedes(v[i - 1], v[j - 1]));
                }
            }
        }
    }
}

proof fn lemma_statements_step(lines: Seq<Seq<char>>, i: int)
    requires
        0 <= i < lines.len(),
    ensures
        statements(lines.take(i + 1)) == match parse_model(lines[i]) {
            Ok(Some(m)) => statements(lines.take(i)).push(m),
            _ => statements(lines.take(i)),
        },
{
    assert(lines.take(i + 1).drop_last() =~= lines.take(i));
}

/// Parses `lines` in order and puts each statement into `set`. Stops at the first line that
/// does not parse, with its error and its zero-based index.
pub fn collect_lines(set: &mut Vec<ConfigItem>, lines: &Vec<String>) -> (r: Result<
    (),
    (ParseError, usize),
>)
    requires
        ordered(models(old(set)@)),
    ensures
        ordered(models(final(set)@)),
        match r {
            Ok(()) => {
                &&& well_formed(texts(lines@))
                &&& entries(models(final(set)@)) == entries(
                    models(old(set)@) + statements(texts(lines@)),
                )
            },
            Err((e, i)) => first_failure(texts(lines@), i as int, e@),
        },
{
    let ghost t = texts(lines@);
    let ghost start = models(set@);
    let mut i: usize = 0;
    while i < lines.len()
        invariant
            i <= lines.len(),
            t == texts(lines@),
            ordered(models(set@)),
            entries(models(set@)) == entries(start + statements(t.take(i as int))),
            forall|j: int| 0 <= j < i ==> (#[trigger] parse_model(t[j])) is Ok,
        decreases lines.len() - i,
    {
        let parsed = parse_line(lines[i].as_str());
        proof {
            lemma_statements_step(t, i as int);
        }
        match parsed {
            Err(e) => {
                return Err((e, i));
            },
            Ok(None) => {},
            Ok(Some(item)) => {
                proof {
                    let before = statements(t.take(i as int));
                    lemma_entries_push(start + before, item@);
                    assert((start + before).push(item@) =~= start + before.push(item@));
                }
                insert_item(set, item);
            },
        }
        i = i + 1;
    }
    assert(t.take(i as int) =~= t);
    Ok(())
}

} // verus!
