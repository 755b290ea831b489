//! The laws the codec obeys, stated over the model and proved once for all
//! inputs.
use vstd::prelude::*;

use crate::model::count_char;
use crate::model::entry_line;
use crate::model::is_space;
use crate::model::lemma_count_one_unique;
use crate::model::lemma_split_len;
use crate::model::lemma_split_no_sep;
use crate::model::lemma_split_single_sep;
use crate::model::lemma_table_insert_fresh;
use crate::model::lemma_trim_bounds;
use crate::model::lemma_trim_idempotent;
use crate::model::lemma_trim_keeps;
use crate::model::lemma_trim_stable;
use crate::model::line_entry;
use crate::model::parse_lines;
use crate::model::parse_spec;
use crate::model::split_char;
use crate::model::starts_with_hash;
use crate::model::stringify_spec;
use crate::model::table_insert;
use crate::model::trim_spec;
use crate::model::Table;

verus! {

/// Parsing a single line reduces to the entry that line contributes.
pub proof fn lemma_parse_single_line(line: Seq<char>)
    requires
        forall|i: int| 0 <= i < line.len() ==> line[i] != '\n',
    ensures
        line_entry(line) is Some ==> parse_spec(line) == seq![line_entry(line).unwrap()],
        line_entry(line) is None ==> parse_spec(line) == Seq::<(Seq<char>, Seq<char>)>::empty(),
{
    let t = trim_spec(line);
    lemma_trim_keeps(line, '\n');
    lemma_split_no_sep(t, '\n');
    lemma_trim_idempotent(line);
    assert(line_entry(t) == line_entry(line));
    assert(seq![t].drop_last() =~~= Seq::<Seq<char>>::empty());
    assert(parse_lines(Seq::<Seq<char>>::empty()) == Seq::<(Seq<char>, Seq<char>)>::empty());
    if line_entry(line) is Some {
        let e = line_entry(line).unwrap();
        assert(parse_lines(seq![t]) == table_insert(
            Seq::<(Seq<char>, Seq<char>)>::empty(),
            e.0,
            e.1,
        ));
        assert(table_insert(Seq::<(Seq<char>, Seq<char>)>::empty(), e.0, e.1) =~= seq![e]);
    }
}

/// Any line whose trimmed text holds exactly one colon, at position `j`, and
/// whose part before the colon does not begin with `#`, parses to the single
/// entry made of the trimmed text before and the trimmed text after the
/// colon.
pub proof fn lemma_parse_valid_line(line: Seq<char>, j: int)
    requires
        forall|i: int| 0 <= i < line.len() ==> line[i] != '\n',
        0 <= j < trim_spec(line).len(),
        trim_spec(line)[j] == ':',
        count_char(trim_spec(line), ':') == 1,
        !(j >= 1 && trim_spec(line)[0] == '#'),
    ensures
        line_entry(line) == Some(
            (trim_spec(trim_spec(line).take(j)), trim_spec(trim_spec(line).skip(j + 1))),
        ),
        parse_spec(line) == seq![
            (trim_spec(trim_spec(line).take(j)), trim_spec(trim_spec(line).skip(j + 1))),
        ],
{
    let t = trim_spec(line);
    lemma_count_one_unique(t, ':', j);
    lemma_split_single_sep(t, ':', j);
    if j >= 1 {
        assert(t.take(j)[0] == t[0]);
    }
    assert(!starts_with_hash(t.take(j)));
    assert(line_entry(line) == Some((trim_spec(t.take(j)), trim_spec(t.skip(j + 1)))));
    lemma_parse_single_line(line);
}

/// A line whose trimmed text does not hold exactly one colon — none at all,
/// or two or more — contributes no entry.
pub proof fn lemma_parse_drops_bad_colon_count(line: Seq<char>)
    requires
        forall|i: int| 0 <= i < line.len() ==> line[i] != '\n',
        count_char(trim_spec(line), ':') != 1,
    ensures
        line_entry(line) is None,
        parse_spec(line) == Seq::<(Seq<char>, Seq<char>)>::empty(),
{
    lemma_split_len(trim_spec(line), ':');
    lemma_parse_single_line(line);
}

/// A line whose trimmed text begins with `#` contributes no entry — also
/// when it happens to split into exactly two colon-separated parts.
pub proof fn lemma_parse_drops_comment(line: Seq<char>)
    requires
        forall|i: int| 0 <= i < line.len() ==> line[i] != '\n',
        trim_spec(line).len() > 0,
        trim_spec(line)[0] == '#',
    ensures
        line_entry(line) is None,
        parse_spec(line) == Seq::<(Seq<char>, Seq<char>)>::empty(),
{
    let t = trim_spec(line);
    let parts = split_char(t, ':');
    assert(parts[0].len() > 0 && parts[0][0] == '#');
    lemma_parse_single_line(line);
}

/// Parsing an empty or all-whitespace text yields the empty table.
pub proof fn lemma_parse_whitespace(text: Seq<char>)
    requires
        forall|i: int| 0 <= i < text.len() ==> is_space(text[i]),
    ensures
        parse_spec(text) == Seq::<(Seq<char>, Seq<char>)>::empty(),
{
    lemma_trim_bounds(text, 0, 0);
    assert(text.subrange(0, 0) =~= Seq::<char>::empty());
    let empty = Seq::<char>::empty();
    let lines = split_char(empty, '\n');
    assert(lines =~~= seq![empty]);
    assert(lines.drop_last() =~~= Seq::<Seq<char>>::empty());
    assert(trim_spec(empty) == empty);
    assert(split_char(empty, ':') =~~= seq![empty]);
    assert(line_entry(empty) is None);
    assert(parse_lines(lines) == parse_lines(lines.drop_last()));
    assert(parse_spec(text) == Seq::<(Seq<char>, Seq<char>)>::empty());
}

/// A field that survives a round trip unchanged: free of colons and
/// newlines, with no whitespace at either edge.
pub open spec fn trimmed_field(s: Seq<char>) -> bool {
    &&& forall|i: int| 0 <= i < s.len() ==> s[i] != ':' && s[i] != '\n'
    &&& (s.len() > 0 ==> !is_space(s[0]) && !is_space(s[s.len() - 1]))
}

/// An entry that survives a round trip unchanged: both fields trimmed, and
/// the username not beginning with `#`.
pub open spec fn round_trip_entry(e: (Seq<char>, Seq<char>)) -> bool {
    &&& trimmed_field(e.0)
    &&& trimmed_field(e.1)
    &&& !starts_with_hash(e.0)
}

/// A table that survives a round trip unchanged: every entry does, and the
/// usernames are mutually distinct.
pub open spec fn round_trip_table(t: Table) -> bool {
    &&& forall|i: int, j: int| 0 <= i < j < t.len() ==> t[i].0 != t[j].0
    &&& forall|i: int| 0 <= i < t.len() ==> round_trip_entry(t[i])
}

/// The serialised form of a round-trip entry, its newline dropped, parses
/// back to exactly that entry.
pub proof fn lemma_line_entry_of_body(e: (Seq<char>, Seq<char>))
    requires
        round_trip_entry(e),
    ensures
        line_entry(e.0 + seq![':'] + e.1) == Some(e),
{
    let k = e.0;
    let v = e.1;
    let lb = k + seq![':'] + v;
    let j = k.len() as int;
    assert(lb.len() > 0);
    assert(lb[j] == ':');
    if k.len() > 0 {
        assert(lb[0] == k[0]);
    }
    if v.len() > 0 {
        assert(lb[lb.len() - 1] == v[v.len() - 1]);
    } else {
        assert(lb[lb.len() - 1] == ':');
    }
    assert(!is_space(lb[0]));
    assert(!is_space(lb[lb.len() - 1]));
    lemma_trim_stable(lb);
    assert forall|i: int| 0 <= i < lb.len() && i != j implies lb[i] != ':' by {
        if i < j {
            assert(lb[i] == k[i]);
        } else {
            assert(lb[i] == v[i - j - 1]);
        }
    }
    lemma_split_single_sep(lb, ':', j);
    assert(lb.take(j) =~= k);
    assert(lb.skip(j + 1) =~= v);
    lemma_trim_stable(k);
    lemma_trim_stable(v);
    assert(line_entry(lb) == Some((k, v)));
    assert((k, v) == e);
}

/// The serialised form of a nonempty round-trip table is nonempty, begins
/// with a non-whitespace character, ends with its one trailing newline, and
/// has a non-whitespace character just before that newline.
pub proof fn lemma_stringify_shape(t: Table)
    requires
        round_trip_table(t),
        t.len() > 0,
    ensures
        stringify_spec(t).len() >= 2,
        stringify_spec(t).last() == '\n',
        !is_space(stringify_spec(t)[0]),
        !is_space(stringify_spec(t)[stringify_spec(t).len() - 2]),
    decreases t.len(),
{
    let u = t.drop_last();
    let e = t.last();
    let k = e.0;
    let v = e.1;
    let st = stringify_spec(t);
    let su = stringify_spec(u);
    let el = entry_line(k, v);
    assert(st == su + el);
    assert(el.len() >= 2);
    assert(el.last() == '\n');
    assert(st.last() == '\n');
    if v.len() > 0 {
        assert(el[el.len() - 2] == v[v.len() - 1]);
    } else {
        assert(el[el.len() - 2] == ':');
    }
    assert(!is_space(st[st.len() - 2]));
    if u.len() == 0 {
        assert(su.len() == 0);
        if k.len() > 0 {
            assert(st[0] == k[0]);
        } else {
            assert(st[0] == ':');
        }
    } else {
        assert(round_trip_table(u)) by {
            assert(forall|i: int| 0 <= i < u.len() ==> u[i] == t[i]);
        }
        lemma_stringify_shape(u);
        assert(st[0] == su[0]);
    }
}

/// Trimming the serialised form of a nonempty round-trip table removes
/// exactly the final newline.
pub proof fn lemma_trim_stringify(t: Table)
    requires
        round_trip_table(t),
        t.len() > 0,
    ensures
        trim_spec(stringify_spec(t)) == stringify_spec(t).take(stringify_spec(t).len() - 1),
{
    let st = stringify_spec(t);
    lemma_stringify_shape(t);
    lemma_trim_bounds(st, 0, st.len() - 1);
}

/// Round trip: parsing the serialised form of a round-trip table yields the
/// table unchanged, entries and order alike.
pub proof fn lemma_stringify_parse_round_trip(t: Table)
    requires
        round_trip_table(t),
    ensures
        parse_spec(stringify_spec(t)) == t,
    decreases t.len(),
{
    if t.len() == 0 {
        lemma_parse_whitespace(Seq::<char>::empty());
        assert(t =~= Seq::<(Seq<char>, Seq<char>)>::empty());
    } else {
        let u = t.drop_last();
        let e = t.last();
        let k = e.0;
        let v = e.1;
        let lb = k + seq![':'] + v;
        let st = stringify_spec(t);
        let su = stringify_spec(u);
        assert(round_trip_table(u)) by {
            assert(forall|i: int| 0 <= i < u.len() ==> u[i] == t[i]);
        }
        assert(st == su + entry_line(k, v));
        assert(st =~= su + lb + seq!['\n']);
        lemma_trim_stringify(t);
        assert(trim_spec(st) =~= su + lb);
        lemma_line_entry_of_body(e);
        assert forall|i: int| 0 <= i < lb.len() implies lb[i] != '\n' by {
            if i < k.len() {
                assert(lb[i] == k[i]);
            } else if i == k.len() {
                assert(lb[i] == ':');
            } else {
                assert(lb[i] == v[i - k.len() - 1]);
            }
        }
        lemma_split_no_sep(lb, '\n');
        if u.len() == 0 {
            assert(su.len() == 0);
            assert(trim_spec(st) =~= lb);
            let lines = split_char(lb, '\n');
            assert(lines == seq![lb]);
            assert(seq![lb].drop_last() =~~= Seq::<Seq<char>>::empty());
            assert(parse_lines(Seq::<Seq<char>>::empty()) == Seq::<(Seq<char>, Seq<char>)>::empty());
            assert(parse_lines(lines) == table_insert(
                Seq::<(Seq<char>, Seq<char>)>::empty(),
                e.0,
                e.1,
            ));
            assert(table_insert(Seq::<(Seq<char>, Seq<char>)>::empty(), e.0, e.1) =~= seq![e]);
            assert(t =~= seq![e]);
        } else {
            lemma_stringify_parse_round_trip(u);
            lemma_stringify_shape(u);
            lemma_trim_stringify(u);
            assert(su =~= su.take(su.len() - 1) + seq!['\n']);
            assert(trim_spec(st) =~= trim_spec(su) + seq!['\n'] + lb);
            crate::model::lemma_split_append(trim_spec(su), lb, '\n');
            let lsu = split_char(trim_spec(su), '\n');
            assert(split_char(trim_spec(st), '\n') == lsu + seq![lb]);
            assert(lsu + seq![lb] =~~= lsu.push(lb));
            assert(lsu.push(lb).drop_last() =~~= lsu);
            assert(parse_lines(lsu) == parse_spec(su));
            assert(parse_lines(lsu.push(lb)) == table_insert(u, e.0, e.1));
            lemma_table_insert_fresh(u, e.0, e.1);
            assert(u.push((e.0, e.1)) =~= t);
            assert(parse_spec(st) == t);
        }
    }
}

} // verus!

