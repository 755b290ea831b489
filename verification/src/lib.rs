//! Parsing and serialising of the htpasswd credential file format: one
//! `username:password-hash` entry per line, with comment lines, blank lines
//! and malformed lines skipped, and entries kept in insertion order.
use vstd::prelude::*;

pub mod laws;
pub mod model;
pub mod ordered_map;

use indexmap::IndexMap;
use vstd::string::*;

use crate::model::count_char;
use crate::model::is_space;
use crate::model::lemma_count_one_unique;
use crate::model::lemma_count_snoc;
use crate::model::lemma_split_append;
use crate::model::lemma_split_len;
use crate::model::lemma_split_no_sep;
use crate::model::lemma_split_single_sep;
use crate::model::lemma_trim_bounds;
use crate::model::line_entry;
use crate::model::parse_lines;
use crate::model::parse_spec;
use crate::model::split_char;
use crate::model::stringify_spec;
use crate::model::table_insert;
use crate::ordered_map::entries_of;
use crate::ordered_map::map_entry_at;
use crate::ordered_map::map_insert;
use crate::ordered_map::map_len;
use crate::ordered_map::map_new;

verus! {

/// Whether a character counts as whitespace for trimming.
fn is_space_char(c: char) -> (b: bool)
    ensures
        b == is_space(c),
{
    c == ' ' || c == '\t' || c == '\n' || c == '\r' || c == '\u{b}' || c == '\u{c}'
}

/// The first position in `[lo, hi)` holding a non-whitespace character, or
/// `hi` if there is none.
fn scan_space_forward(text: &str, lo: usize, hi: usize) -> (r: usize)
    requires
        lo <= hi <= text@.len(),
    ensures
        lo <= r <= hi,
        forall|i: int| lo <= i < r ==> is_space(text@[i]),
        r < hi ==> !is_space(text@[r as int]),
{
    let mut r = lo;
    while r < hi
        invariant
            lo <= r <= hi <= text@.len(),
            forall|i: int| lo <= i < r ==> is_space(text@[i]),
        decreases hi - r,
    {
        if !is_space_char(text.get_char(r)) {
            return r;
        }
        r = r + 1;
    }
    r
}

/// The position just after the last non-whitespace character in `[lo, hi)`,
/// or `lo` if there is none.
fn scan_space_backward(text: &str, lo: usize, hi: usize) -> (r: usize)
    requires
        lo <= hi <= text@.len(),
    ensures
        lo <= r <= hi,
        forall|i: int| r <= i < hi ==> is_space(text@[i]),
        r > lo ==> !is_space(text@[r - 1]),
{
    let mut r = hi;
    while r > lo
        invariant
            lo <= r <= hi <= text@.len(),
            forall|i: int| r <= i < hi ==> is_space(text@[i]),
        decreases r,
    {
        if !is_space_char(text.get_char(r - 1)) {
            return r;
        }
        r = r - 1;
    }
    r
}

/// How often `target` occurs in `text[lo..hi]`, and where it first occurs.
fn count_and_find(text: &str, lo: usize, hi: usize, target: char) -> (r: (usize, usize))
    requires
        lo <= hi <= text@.len(),
    ensures
        r.0 == count_char(text@.subrange(lo as int, hi as int), target),
        r.0 > 0 ==> lo <= r.1 < hi && text@[r.1 as int] == target && forall|i: int|
            lo <= i < r.1 ==> text@[i] != target,
{
    let mut cnt: usize = 0;
    let mut first: usize = lo;
    let mut j = lo;
    proof {
        assert(text@.subrange(lo as int, lo as int) =~= Seq::<char>::empty());
    }
    while j < hi
        invariant
            lo <= j <= hi <= text@.len(),
            cnt <= j - lo,
            cnt == count_char(text@.subrange(lo as int, j as int), target),
            cnt > 0 ==> lo <= first < j && text@[first as int] == target && forall|i: int|
                lo <= i < first ==> text@[i] != target,
            cnt == 0 ==> forall|i: int| lo <= i < j ==> text@[i] != target,
        decreases hi - j,
    {
        let c = text.get_char(j);
        proof {
            assert(text@.subrange(lo as int, j + 1) =~= text@.subrange(lo as int, j as int).push(
                text@[j as int],
            ));
            lemma_count_snoc(text@.subrange(lo as int, j as int), text@[j as int], target);
        }
        if c == target {
            if cnt == 0 {
                first = j;
            }
            cnt = cnt + 1;
        }
        j = j + 1;
    }
    (cnt, first)
}

/// Reads one raw line, `text[lo..hi]`, and inserts the entry it contributes,
/// if it contributes one.
fn process_line(text: &str, lo: usize, hi: usize, m: &mut IndexMap<String, String>)
    requires
        lo <= hi <= text@.len(),
    ensures
        entries_of(*final(m)) == (match line_entry(text@.subrange(lo as int, hi as int)) {
            Some(e) => table_insert(entries_of(*old(m)), e.0, e.1),
            None => entries_of(*old(m)),
        }),
{
    let ghost line = text@.subrange(lo as int, hi as int);
    let a = scan_space_forward(text, lo, hi);
    let b = scan_space_backward(text, a, hi);
    proof {
        assert forall|i: int| 0 <= i < a - lo implies is_space(line[i]) by {
            assert(line[i] == text@[lo + i]);
        }
        assert forall|i: int| b - lo <= i < line.len() implies is_space(line[i]) by {
            assert(line[i] == text@[lo + i]);
        }
        lemma_trim_bounds(line, a - lo, b - lo);
        assert(line.subrange(a - lo, b - lo) =~= text@.subrange(a as int, b as int));
    }
    let ghost t = text@.subrange(a as int, b as int);
    let (cnt, jc) = count_and_find(text, a, b, ':');
    if cnt != 1 {
        proof {
            lemma_split_len(t, ':');
        }
        return ;
    }
    let ghost j = jc - a;
    proof {
        assert(t[j] == text@[jc as int]);
        lemma_count_one_unique(t, ':', j);
        lemma_split_single_sep(t, ':', j);
    }
    let ghost parts = split_char(t, ':');
    if jc > a && text.get_char(a) == '#' {
        proof {
            assert(parts[0] == t.take(j));
            assert(t.take(j)[0] == text@[a as int]);
        }
        return ;
    }
    proof {
        assert(parts[0] == t.take(j));
        if j > 0 {
            assert(t.take(j)[0] == text@[a as int]);
        }
    }
    let ka = scan_space_forward(text, a, jc);
    let kb = scan_space_backward(text, ka, jc);
    let va = scan_space_forward(text, jc + 1, b);
    let vb = scan_space_backward(text, va, b);
    proof {
        assert(parts[0] =~= text@.subrange(a as int, jc as int));
        assert forall|i: int| 0 <= i < ka - a implies is_space(parts[0][i]) by {
            assert(parts[0][i] == text@[a + i]);
        }
        assert forall|i: int| kb - a <= i < parts[0].len() implies is_space(parts[0][i]) by {
            assert(parts[0][i] == text@[a + i]);
        }
        lemma_trim_bounds(parts[0], ka - a, kb - a);
        assert(parts[0].subrange(ka - a, kb - a) =~= text@.subrange(ka as int, kb as int));
        assert(parts[1] =~= text@.subrange(jc + 1, b as int));
        assert forall|i: int| 0 <= i < va - (jc + 1) implies is_space(parts[1][i]) by {
            assert(parts[1][i] == text@[jc + 1 + i]);
        }
        assert forall|i: int| vb - (jc + 1) <= i < parts[1].len() implies is_space(parts[1][i]) by {
            assert(parts[1][i] == text@[jc + 1 + i]);
        }
        lemma_trim_bounds(parts[1], va - (jc + 1), vb - (jc + 1));
        assert(parts[1].subrange(va - (jc + 1), vb - (jc + 1)) =~= text@.subrange(
            va as int,
            vb as int,
        ));
    }
    let key = text.substring_char(ka, kb).to_owned();
    let value = text.substring_char(va, vb).to_owned();
    proof {
        assert(line_entry(line) == Some((key@, value@)));
    }
    map_insert(m, key, value);
}

/// Parse an htpasswd text into a credential table.
///
/// The whole text is trimmed and split into lines; each line is trimmed and
/// split on `:`; a line that does not split into exactly two parts, or whose
/// first part begins with `#`, is skipped; the two parts are trimmed and
/// inserted, a later entry overwriting an earlier one under the same
/// username. Malformed input is never an error: it yields a smaller table.
pub fn parse(text: &str) -> (m: IndexMap<String, String>)
    ensures
        entries_of(m) == parse_spec(text@),
{
    let n = text.unicode_len();
    let t0 = scan_space_forward(text, 0, n);
    let t1 = scan_space_backward(text, t0, n);
    proof {
        lemma_trim_bounds(text@, t0 as int, t1 as int);
    }
    let ghost trimmed = text@.subrange(t0 as int, t1 as int);
    let ghost lines = split_char(trimmed, '\n');
    let mut m = map_new();
    let ghost mut done: Seq<Seq<char>> = Seq::empty();
    let mut i = t0;
    proof {
        assert(lines.skip(0) =~~= lines);
        assert(done =~~= lines.take(0));
    }
    loop
        invariant_except_break
            t0 <= i <= t1 <= text@.len(),
            trimmed == text@.subrange(t0 as int, t1 as int),
            lines == split_char(trimmed, '\n'),
            done.len() <= lines.len(),
            done == lines.take(done.len() as int),
            split_char(text@.subrange(i as int, t1 as int), '\n') == lines.skip(
                done.len() as int,
            ),
            entries_of(m) == parse_lines(done),
        ensures
            entries_of(m) == parse_lines(lines),
        decreases t1 - i,
    {
        let mut j = i;
        while j < t1 && text.get_char(j) != '\n'
            invariant
                i <= j <= t1 <= text@.len(),
                forall|k: int| i <= k < j ==> text@[k] != '\n',
            decreases t1 - j,
        {
            j = j + 1;
        }
        let ghost line = text@.subrange(i as int, j as int);
        let ghost rem = text@.subrange(i as int, t1 as int);
        let ghost dl = done.len() as int;
        process_line(text, i, j, &mut m);
        proof {
            lemma_split_no_sep(line, '\n');
            lemma_split_len(rem, '\n');
            if j < t1 {
                assert(rem =~= line + seq!['\n'] + text@.subrange(j + 1, t1 as int));
                lemma_split_append(line, text@.subrange(j + 1, t1 as int), '\n');
            } else {
                assert(rem =~= line);
            }
            assert(split_char(rem, '\n')[0] == line);
            assert(lines[dl] == line);
            assert(done.push(line) =~~= lines.take(dl + 1));
            assert(done.push(line).drop_last() =~~= done);
            done = done.push(line);
            assert(parse_lines(done) == (match line_entry(line) {
                Some(e) => table_insert(parse_lines(lines.take(dl)), e.0, e.1),
                None => parse_lines(lines.take(dl)),
            }));
            assert(entries_of(m) == parse_lines(done));
        }
        if j < t1 {
            proof {
                let after = text@.subrange(j + 1, t1 as int);
                assert((seq![line] + split_char(after, '\n')).drop_first() =~~= split_char(
                    after,
                    '\n',
                ));
                assert(lines.skip(dl).drop_first() =~~= lines.skip(dl + 1));
                assert(split_char(after, '\n') =~~= lines.skip(dl + 1));
            }
            i = j + 1;
        } else {
            proof {
                assert(done.len() == lines.len());
                assert(done =~~= lines);
            }
            break ;
        }
    }
    m
}

/// Serialise a credential table: one `username:password-hash` line per
/// entry, in table order, each followed by a newline; the empty table gives
/// the empty string.
pub fn stringify(map: IndexMap<String, String>) -> (s: String)
    ensures
        s@ == stringify_spec(entries_of(map)),
{
    let mut s = String::new();
    let n = map_len(&map);
    let mut idx: usize = 0;
    proof {
        assert(entries_of(map).take(0) =~~= Seq::<(Seq<char>, Seq<char>)>::empty());
    }
    while idx < n
        invariant
            idx <= n,
            n == entries_of(map).len(),
            s@ == stringify_spec(entries_of(map).take(idx as int)),
        decreases n - idx,
    {
        let kv = map_entry_at(&map, idx);
        s.append(kv.0.as_str());
        s.append(":");
        s.append(kv.1.as_str());
        s.append("\n");
        proof {
            reveal_strlit(":");
            reveal_strlit("\n");
            assert(":"@ =~= seq![':']);
            assert("\n"@ =~= seq!['\n']);
            assert(entries_of(map).take(idx + 1).drop_last() =~~= entries_of(map).take(
                idx as int,
            ));
            assert(entries_of(map).take(idx + 1).last() == entries_of(map)[idx as int]);
            assert(s@ =~= stringify_spec(entries_of(map).take(idx + 1)));
        }
        idx = idx + 1;
    }
    proof {
        assert(entries_of(map).take(n as int) =~~= entries_of(map));
    }
    s
}

} // verus!
