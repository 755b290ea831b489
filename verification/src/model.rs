//! The mathematical model of the htpasswd format: what trimming, line
//! splitting and colon splitting mean, which entry a line contributes, and
//! what a whole text parses to.
use vstd::prelude::*;

verus! {

/// The characters treated as whitespace when trimming: the ASCII whitespace
/// characters.
pub open spec fn is_space(c: char) -> bool {
    c == ' ' || c == '\t' || c == '\n' || c == '\r' || c == '\u{b}' || c == '\u{c}'
}

/// A credential table: username/password-hash pairs in their order.
pub type Table = Seq<(Seq<char>, Seq<char>)>;

pub open spec fn trim_start_spec(s: Seq<char>) -> Seq<char>
    decreases s.len(),
{
    if s.len() > 0 && is_space(s[0]) {
        trim_start_spec(s.drop_first())
    } else {
        s
    }
}

pub open spec fn trim_end_spec(s: Seq<char>) -> Seq<char>
    decreases s.len(),
{
    if s.len() > 0 && is_space(s.last()) {
        trim_end_spec(s.drop_last())
    } else {
        s
    }
}

/// The text with leading and trailing whitespace removed.
pub open spec fn trim_spec(s: Seq<char>) -> Seq<char> {
    trim_end_spec(trim_start_spec(s))
}

/// The pieces of `s` between occurrences of `sep`; always at least one piece,
/// and empty pieces are kept.
pub open spec fn split_char(s: Seq<char>, sep: char) -> Seq<Seq<char>>
    decreases s.len(),
{
    if s.len() == 0 {
        seq![Seq::<char>::empty()]
    } else if s[0] == sep {
        seq![Seq::<char>::empty()] + split_char(s.drop_first(), sep)
    } else {
        let rest = split_char(s.drop_first(), sep);
        seq![seq![s[0]] + rest[0]] + rest.drop_first()
    }
}

/// How many times `c` occurs in `s`.
pub open spec fn count_char(s: Seq<char>, c: char) -> nat
    decreases s.len(),
{
    if s.len() == 0 {
        0
    } else {
        (if s[0] == c {
            1nat
        } else {
            0nat
        }) + count_char(s.drop_first(), c)
    }
}

pub open spec fn starts_with_hash(s: Seq<char>) -> bool {
    s.len() > 0 && s[0] == '#'
}

/// The entry a single line contributes, if any: the trimmed line must split
/// on `:` into exactly two parts, the first part must not begin with `#`,
/// and the parts are then trimmed.
pub open spec fn line_entry(line: Seq<char>) -> Option<(Seq<char>, Seq<char>)> {
    let t = trim_spec(line);
    let parts = split_char(t, ':');
    if parts.len() == 2 && !starts_with_hash(parts[0]) {
        Some((trim_spec(parts[0]), trim_spec(parts[1])))
    } else {
        None
    }
}

/// Insert or overwrite: an existing key keeps its place in the order and is
/// given the new value; a new key is appended at the end.
pub open spec fn table_insert(t: Table, k: Seq<char>, v: Seq<char>) -> Table
    decreases t.len(),
{
    if t.len() == 0 {
        seq![(k, v)]
    } else if t[0].0 == k {
        seq![(k, v)] + t.drop_first()
    } else {
        seq![t[0]] + table_insert(t.drop_first(), k, v)
    }
}

/// The table built by reading the given lines in order.
pub open spec fn parse_lines(lines: Seq<Seq<char>>) -> Table
    decreases lines.len(),
{
    if lines.len() == 0 {
        Seq::empty()
    } else {
        let rest = parse_lines(lines.drop_last());
        match line_entry(lines.last()) {
            Some(e) => table_insert(rest, e.0, e.1),
            None => rest,
        }
    }
}

/// What `parse` returns: trim the whole text, split it into lines, and fold
/// the lines into a table.
pub open spec fn parse_spec(text: Seq<char>) -> Table {
    parse_lines(split_char(trim_spec(text), '\n'))
}

/// The serialised form of one entry: `username:password-hash` and a newline.
pub open spec fn entry_line(k: Seq<char>, v: Seq<char>) -> Seq<char> {
    k + seq![':'] + v + seq!['\n']
}

/// What `stringify` returns: the entries' lines concatenated in table order.
pub open spec fn stringify_spec(t: Table) -> Seq<char>
    decreases t.len(),
{
    if t.len() == 0 {
        Seq::empty()
    } else {
        stringify_spec(t.drop_last()) + entry_line(t.last().0, t.last().1)
    }
}

/// Trimming from the front removes exactly the leading run of whitespace.
pub proof fn lemma_trim_start_bound(s: Seq<char>, a: int)
    requires
        0 <= a <= s.len(),
        forall|i: int| 0 <= i < a ==> is_space(s[i]),
        a < s.len() ==> !is_space(s[a]),
    ensures
        trim_start_spec(s) == s.skip(a),
    decreases a,
{
    if a == 0 {
        assert(s.skip(0) =~= s);
    } else {
        assert(is_space(s[0]));
        assert(s.drop_first() =~= s.skip(1));
        lemma_trim_start_bound(s.drop_first(), a - 1);
        assert(s.drop_first().skip(a - 1) =~= s.skip(a));
    }
}

/// Trimming from the back removes exactly the trailing run of whitespace.
pub proof fn lemma_trim_end_bound(s: Seq<char>, b: int)
    requires
        0 <= b <= s.len(),
        forall|i: int| b <= i < s.len() ==> is_space(s[i]),
        b > 0 ==> !is_space(s[b - 1]),
    ensures
        trim_end_spec(s) == s.take(b),
    decreases s.len() - b,
{
    if b == s.len() {
        assert(s.take(b) =~= s);
    } else {
        assert(is_space(s.last()));
        lemma_trim_end_bound(s.drop_last(), b);
        assert(s.drop_last().take(b) =~= s.take(b));
    }
}

/// Trimming keeps exactly the range between the leading and the trailing
/// run of whitespace.
pub proof fn lemma_trim_bounds(s: Seq<char>, a: int, b: int)
    requires
        0 <= a <= b <= s.len(),
        forall|i: int| 0 <= i < a ==> is_space(s[i]),
        forall|i: int| b <= i < s.len() ==> is_space(s[i]),
        a < b ==> !is_space(s[a]) && !is_space(s[b - 1]),
    ensures
        trim_spec(s) == s.subrange(a, b),
{
    if a < b {
        lemma_trim_start_bound(s, a);
        lemma_trim_end_bound(s.skip(a), b - a);
        assert(s.skip(a).take(b - a) =~= s.subrange(a, b));
    } else {
        lemma_trim_start_bound(s, s.len() as int);
        assert(s.skip(s.len() as int) =~= Seq::<char>::empty());
        assert(s.subrange(a, b) =~= Seq::<char>::empty());
    }
}

/// A nonempty trimmed text neither begins nor ends with whitespace.
pub proof fn lemma_trim_start_nonspace(s: Seq<char>)
    ensures
        trim_start_spec(s).len() > 0 ==> !is_space(trim_start_spec(s)[0]),
    decreases s.len(),
{
    if s.len() > 0 && is_space(s[0]) {
        lemma_trim_start_nonspace(s.drop_first());
    }
}

/// A nonempty text trimmed from the back keeps its first character and does
/// not end with whitespace.
pub proof fn lemma_trim_end_nonspace(s: Seq<char>)
    ensures
        trim_end_spec(s).len() > 0 ==> !is_space(trim_end_spec(s).last()),
        trim_end_spec(s).len() > 0 ==> trim_end_spec(s)[0] == s[0],
    decreases s.len(),
{
    if s.len() > 0 && is_space(s.last()) {
        lemma_trim_end_nonspace(s.drop_last());
    }
}

/// A nonempty trimmed text neither begins nor ends with whitespace.
pub proof fn lemma_trim_props(s: Seq<char>)
    ensures
        trim_spec(s).len() > 0 ==> !is_space(trim_spec(s)[0]) && !is_space(trim_spec(s).last()),
{
    lemma_trim_start_nonspace(s);
    lemma_trim_end_nonspace(trim_start_spec(s));
}

/// A text with no whitespace at either edge is unchanged by trimming.
pub proof fn lemma_trim_stable(s: Seq<char>)
    requires
        s.len() == 0 || (!is_space(s[0]) && !is_space(s[s.len() - 1])),
    ensures
        trim_spec(s) == s,
{
    lemma_trim_bounds(s, 0, s.len() as int);
    assert(s.subrange(0, s.len() as int) =~= s);
}

/// Trimming twice is the same as trimming once.
pub proof fn lemma_trim_idempotent(s: Seq<char>)
    ensures
        trim_spec(trim_spec(s)) == trim_spec(s),
{
    lemma_trim_props(s);
    lemma_trim_stable(trim_spec(s));
}

/// Trimming introduces no character that the text did not hold.
pub proof fn lemma_trim_start_keeps(s: Seq<char>, c: char)
    requires
        forall|i: int| 0 <= i < s.len() ==> s[i] != c,
    ensures
        forall|i: int| 0 <= i < trim_start_spec(s).len() ==> trim_start_spec(s)[i] != c,
    decreases s.len(),
{
    if s.len() > 0 && is_space(s[0]) {
        assert forall|i: int| 0 <= i < s.drop_first().len() implies s.drop_first()[i] != c by {
            assert(s.drop_first()[i] == s[i + 1]);
        }
        lemma_trim_start_keeps(s.drop_first(), c);
        assert(trim_start_spec(s) == trim_start_spec(s.drop_first()));
    }
}

/// Trimming introduces no character that the text did not hold.
pub proof fn lemma_trim_end_keeps(s: Seq<char>, c: char)
    requires
        forall|i: int| 0 <= i < s.len() ==> s[i] != c,
    ensures
        forall|i: int| 0 <= i < trim_end_spec(s).len() ==> trim_end_spec(s)[i] != c,
    decreases s.len(),
{
    if s.len() > 0 && is_space(s.last()) {
        assert forall|i: int| 0 <= i < s.drop_last().len() implies s.drop_last()[i] != c by {
            assert(s.drop_last()[i] == s[i]);
        }
        lemma_trim_end_keeps(s.drop_last(), c);
        assert(trim_end_spec(s) == trim_end_spec(s.drop_last()));
    }
}

/// Trimming introduces no character that the text did not hold.
pub proof fn lemma_trim_keeps(s: Seq<char>, c: char)
    requires
        forall|i: int| 0 <= i < s.len() ==> s[i] != c,
    ensures
        forall|i: int| 0 <= i < trim_spec(s).len() ==> trim_spec(s)[i] != c,
{
    lemma_trim_start_keeps(s, c);
    lemma_trim_end_keeps(trim_start_spec(s), c);
}

/// Splitting yields one more piece than there are separators.
pub proof fn lemma_split_len(s: Seq<char>, sep: char)
    ensures
        split_char(s, sep).len() == count_char(s, sep) + 1,
    decreases s.len(),
{
    if s.len() > 0 {
        lemma_split_len(s.drop_first(), sep);
    }
}

/// Splitting a text free of the separator yields that one piece.
pub proof fn lemma_split_no_sep(s: Seq<char>, sep: char)
    requires
        forall|i: int| 0 <= i < s.len() ==> s[i] != sep,
    ensures
        split_char(s, sep) == seq![s],
    decreases s.len(),
{
    if s.len() == 0 {
        assert(split_char(s, sep) =~~= seq![s]);
    } else {
        lemma_split_no_sep(s.drop_first(), sep);
        assert(seq![s[0]] + s.drop_first() =~= s);
        assert(split_char(s, sep) =~~= seq![s]);
    }
}

/// Splitting around one separator splits each side on its own.
pub proof fn lemma_split_append(x: Seq<char>, y: Seq<char>, sep: char)
    ensures
        split_char(x + seq![sep] + y, sep) == split_char(x, sep) + split_char(y, sep),
    decreases x.len(),
{
    let s = x + seq![sep] + y;
    lemma_split_len(x, sep);
    lemma_split_len(y, sep);
    if x.len() == 0 {
        assert(s[0] == sep);
        assert(s.drop_first() =~= y);
        assert(split_char(s, sep) =~~= split_char(x, sep) + split_char(y, sep));
    } else {
        lemma_split_append(x.drop_first(), y, sep);
        lemma_split_len(x.drop_first(), sep);
        assert(s[0] == x[0]);
        assert(s.drop_first() =~= x.drop_first() + seq![sep] + y);
        if x[0] == sep {
            assert(split_char(s, sep) =~~= split_char(x, sep) + split_char(y, sep));
        } else {
            let rest_s = split_char(s.drop_first(), sep);
            let rest_x = split_char(x.drop_first(), sep);
            assert(rest_s == rest_x + split_char(y, sep));
            assert(rest_s[0] == rest_x[0]);
            assert(rest_s.drop_first() =~~= rest_x.drop_first() + split_char(y, sep));
            assert(split_char(s, sep) =~~= split_char(x, sep) + split_char(y, sep));
        }
    }
}

/// Counting over a text extended by one character.
pub proof fn lemma_count_snoc(s: Seq<char>, x: char, c: char)
    ensures
        count_char(s.push(x), c) == count_char(s, c) + (if x == c {
            1nat
        } else {
            0nat
        }),
    decreases s.len(),
{
    if s.len() == 0 {
        assert(s.push(x)[0] == x);
        assert(s.push(x).drop_first() =~= s);
    } else {
        assert(s.push(x)[0] == s[0]);
        assert(s.push(x).drop_first() =~= s.drop_first().push(x));
        lemma_count_snoc(s.drop_first(), x, c);
    }
}

/// A character that occurs has count at least one.
pub proof fn lemma_count_at_least_one(s: Seq<char>, c: char, i: int)
    requires
        0 <= i < s.len(),
        s[i] == c,
    ensures
        count_char(s, c) >= 1,
    decreases s.len(),
{
    if i > 0 {
        lemma_count_at_least_one(s.drop_first(), c, i - 1);
    }
}

/// Two occurrences give a count of at least two.
pub proof fn lemma_count_at_least_two(s: Seq<char>, c: char, i: int, j: int)
    requires
        0 <= i < j < s.len(),
        s[i] == c,
        s[j] == c,
    ensures
        count_char(s, c) >= 2,
    decreases s.len(),
{
    if i == 0 {
        lemma_count_at_least_one(s.drop_first(), c, j - 1);
    } else {
        lemma_count_at_least_two(s.drop_first(), c, i - 1, j - 1);
    }
}

/// If a character counts once, its one occurrence is the only one.
pub proof fn lemma_count_one_unique(s: Seq<char>, c: char, j: int)
    requires
        0 <= j < s.len(),
        s[j] == c,
        count_char(s, c) == 1,
    ensures
        forall|i: int| 0 <= i < s.len() && i != j ==> s[i] != c,
{
    assert forall|i: int| 0 <= i < s.len() && i != j implies s[i] != c by {
        if s[i] == c {
            if i < j {
                lemma_count_at_least_two(s, c, i, j);
            } else {
                lemma_count_at_least_two(s, c, j, i);
            }
        }
    }
}

/// A text holding its one separator at `j` splits into the part before and
/// the part after.
pub proof fn lemma_split_single_sep(s: Seq<char>, sep: char, j: int)
    requires
        0 <= j < s.len(),
        s[j] == sep,
        forall|i: int| 0 <= i < s.len() && i != j ==> s[i] != sep,
    ensures
        split_char(s, sep) == seq![s.take(j), s.skip(j + 1)],
{
    assert(s =~= s.take(j) + seq![sep] + s.skip(j + 1));
    lemma_split_append(s.take(j), s.skip(j + 1), sep);
    lemma_split_no_sep(s.take(j), sep);
    lemma_split_no_sep(s.skip(j + 1), sep);
    assert(split_char(s, sep) =~~= seq![s.take(j), s.skip(j + 1)]);
}

/// Inserting a key the table does not hold appends the entry at the end.
pub proof fn lemma_table_insert_fresh(t: Table, k: Seq<char>, v: Seq<char>)
    requires
        forall|i: int| 0 <= i < t.len() ==> t[i].0 != k,
    ensures
        table_insert(t, k, v) == t.push((k, v)),
    decreases t.len(),
{
    if t.len() == 0 {
        assert(table_insert(t, k, v) =~= t.push((k, v)));
    } else {
        assert(t[0].0 != k);
        lemma_table_insert_fresh(t.drop_first(), k, v);
        assert(seq![t[0]] + t.drop_first().push((k, v)) =~= t.push((k, v)));
        assert(table_insert(t, k, v) =~= t.push((k, v)));
    }
}

} // verus!
