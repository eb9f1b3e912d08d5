//! The text of the tracking file: one `url=title` line per entry.
//!
//! Lines end with `\n`, or `\r\n`; the last one needs no end. The first `=` of
//! a line separates URL and title, so a title may hold `=` and a URL may not.
//! A line without `=` is skipped, and so is an empty one; where a URL comes
//! twice, the later line wins.

use crate::store::map_of;
use vstd::prelude::*;

verus! {

/// A line without the carriage return that ends it, if one does.
pub open spec fn trim_cr(line: Seq<char>) -> Seq<char> {
    if line.len() > 0 && line.last() == '\r' {
        line.drop_last()
    } else {
        line
    }
}

/// Text cut at each `\n`: the lines that a `\n` ends, each without a carriage
/// return before that `\n`, and what follows the last `\n`.
pub open spec fn split_lines(s: Seq<char>) -> (Seq<Seq<char>>, Seq<char>)
    decreases s.len(),
{
    if s.len() == 0 {
        (Seq::empty(), Seq::empty())
    } else {
        let (done, rest) = split_lines(s.drop_last());
        if s.last() == '\n' {
            (done.push(trim_cr(rest)), Seq::empty())
        } else {
            (done, rest.push(s.last()))
        }
    }
}

/// The lines of a text; a last line needs no `\n` after it.
pub open spec fn lines_of(s: Seq<char>) -> Seq<Seq<char>> {
    let (done, rest) = split_lines(s);
    if rest.len() == 0 {
        done
    } else {
        done.push(rest)
    }
}

/// `line[k]` is the first `=` of the line.
pub open spec fn first_eq_at(line: Seq<char>, k: int) -> bool {
    &&& 0 <= k < line.len()
    &&& line[k] == '='
    &&& forall|j: int| 0 <= j < k ==> line[j] != '='
}

/// The (url, title) pair of a line, split at its first `=`; `None` for a line
/// without `=`.
pub open spec fn parse_line(line: Seq<char>) -> Option<(Seq<char>, Seq<char>)> {
    if exists|k: int| first_eq_at(line, k) {
        let k = choose|k: int| first_eq_at(line, k);
        Some((line.subrange(0, k), line.subrange(k + 1, line.len() as int)))
    } else {
        None
    }
}

/// The pairs of the lines that have one, in order.
pub open spec fn pairs_of_lines(lines: Seq<Seq<char>>) -> Seq<(Seq<char>, Seq<char>)>
    decreases lines.len(),
{
    if lines.len() == 0 {
        Seq::empty()
    } else {
        let ps = pairs_of_lines(lines.drop_last());
        match parse_line(lines.last()) {
            Some(p) => ps.push(p),
            None => ps,
        }
    }
}

/// A line that is skipped for want of `=`; empty lines are not counted.
pub open spec fn is_malformed(line: Seq<char>) -> bool {
    line.len() > 0 && parse_line(line) is None
}

/// How many lines are skipped for want of `=`.
pub open spec fn malformed_count(lines: Seq<Seq<char>>) -> nat
    decreases lines.len(),
{
    if lines.len() == 0 {
        0
    } else {
        malformed_count(lines.drop_last()) + if is_malformed(lines.last()) {
            1nat
        } else {
            0nat
        }
    }
}

/// The mapping that a tracking file's text gives.
pub open spec fn parse_text(s: Seq<char>) -> Map<Seq<char>, Seq<char>> {
    map_of(pairs_of_lines(lines_of(s)))
}

/// The line that records one entry, without its `\n`.
pub open spec fn entry_line(e: (Seq<char>, Seq<char>)) -> Seq<char> {
    e.0 + seq!['='] + e.1
}

/// The text that records the entries, one line each.
pub open spec fn render_pairs(es: Seq<(Seq<char>, Seq<char>)>) -> Seq<char>
    decreases es.len(),
{
    if es.len() == 0 {
        Seq::empty()
    } else {
        render_pairs(es.drop_last()) + entry_line(es.last()) + seq!['\n']
    }
}

/// No `\n` in `s`.
pub open spec fn no_newline(s: Seq<char>) -> bool {
    forall|i: int| 0 <= i < s.len() ==> s[i] != '\n'
}

/// An entry that survives a round trip through the text: neither part holds
/// `\n`, the URL holds no `=`, and the title does not end in `\r` (which
/// would be read as part of a `\r\n` line end).
pub open spec fn storable(e: (Seq<char>, Seq<char>)) -> bool {
    &&& no_newline(e.0)
    &&& no_newline(e.1)
    &&& forall|i: int| 0 <= i < e.0.len() ==> e.0[i] != '='
    &&& !(e.1.len() > 0 && e.1.last() == '\r')
}

proof fn lemma_split_append(a: Seq<char>, b: Seq<char>)
    requires
        split_lines(a).1.len() == 0,
    ensures
        split_lines(a + b) == (split_lines(a).0 + split_lines(b).0, split_lines(b).1),
    decreases b.len(),
{
    if b.len() == 0 {
        assert(a + b =~= a);
        assert(split_lines(a).0 + split_lines(b).0 =~= split_lines(a).0);
    } else {
        assert((a + b).drop_last() =~= a + b.drop_last());
        lemma_split_append(a, b.drop_last());
        let (bd, br) = split_lines(b.drop_last());
        assert((split_lines(a).0 + bd).push(trim_cr(br)) =~= split_lines(a).0 + bd.push(
            trim_cr(br),
        ));
    }
}

proof fn lemma_split_one_line(l: Seq<char>)
    requires
        forall|i: int| 0 <= i < l.len() ==> l[i] != '\n',
    ensures
        split_lines(l) == (Seq::<Seq<char>>::empty(), l),
    decreases l.len(),
{
    if l.len() > 0 {
        lemma_split_one_line(l.drop_last());
        assert(l.drop_last().push(l.last()) =~= l);
    }
}

proof fn lemma_parse_entry_line(e: (Seq<char>, Seq<char>))
    requires
        storable(e),
    ensures
        parse_line(entry_line(e)) == Some(e),
{
    let line = entry_line(e);
    let k = e.0.len() as int;
    assert(first_eq_at(line, k));
    let k2 = choose|k2: int| first_eq_at(line, k2);
    assert(k2 == k) by {
        if k2 < k {
            assert(line[k2] == e.0[k2]);
        }
    }
    assert(line.subrange(0, k) =~= e.0);
    assert(line.subrange(k + 1, line.len() as int) =~= e.1);
}

pub(crate) proof fn lemma_split_render(es: Seq<(Seq<char>, Seq<char>)>)
    requires
        forall|i: int| 0 <= i < es.len() ==> storable(#[trigger] es[i]),
    ensures
        split_lines(render_pairs(es)) == (es.map_values(|e| entry_line(e)), Seq::<char>::empty()),
    decreases es.len(),
{
    if es.len() == 0 {
        assert(es.map_values(|e| entry_line(e)) =~= Seq::<Seq<char>>::empty());
    } else {
        let init = es.drop_last();
        assert forall|i: int| 0 <= i < init.len() implies storable(#[trigger] init[i]) by {
            assert(init[i] == es[i]);
        }
        lemma_split_render(init);
        let e = es.last();
        assert(storable(es[es.len() - 1]));
        let l = entry_line(e);
        assert forall|i: int| 0 <= i < l.len() implies l[i] != '\n' by {
            if i < e.0.len() {
                assert(l[i] == e.0[i]);
            } else if i > e.0.len() {
                assert(l[i] == e.1[i - e.0.len() - 1]);
            }
        }
        lemma_split_one_line(l);
        assert((l + seq!['\n']).drop_last() =~= l);
        if e.1.len() > 0 {
            assert(l.last() == e.1.last());
        } else {
            assert(l.last() == '=');
        }
        assert(trim_cr(l) == l);
        assert(split_lines(l + seq!['\n']).0 =~= seq![l]);
        assert(render_pairs(es) =~= render_pairs(init) + (l + seq!['\n']));
        lemma_split_append(render_pairs(init), l + seq!['\n']);
        assert(es.map_values(|e| entry_line(e)) =~= init.map_values(|e| entry_line(e)).push(l));
    }
}

pub(crate) proof fn lemma_pairs_of_entry_lines(es: Seq<(Seq<char>, Seq<char>)>)
    requires
        forall|i: int| 0 <= i < es.len() ==> storable(#[trigger] es[i]),
    ensures
        pairs_of_lines(es.map_values(|e| entry_line(e))) == es,
    decreases es.len(),
{
    if es.len() > 0 {
        let init = es.drop_last();
        assert forall|i: int| 0 <= i < init.len() implies storable(#[trigger] init[i]) by {
            assert(init[i] == es[i]);
        }
        lemma_pairs_of_entry_lines(init);
        assert(storable(es[es.len() - 1]));
        lemma_parse_entry_line(es.last());
        let lines = es.map_values(|e| entry_line(e));
        assert(lines.drop_last() =~= init.map_values(|e| entry_line(e)));
        assert(init.push(es.last()) =~= es);
    }
}

} // verus!
