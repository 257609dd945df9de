//! Splitting input text into lines.
//!
//! The puzzles consume newline-separated text.  `split_lines` is the
//! mathematical splitting of a character sequence: lines end at `'\n'`, a
//! carriage return standing immediately before a line feed is stripped, and
//! a final line ending is optional (text ending in `'\n'` yields the same
//! lines as the same text without it).  `split_to_lines` produces exactly
//! those lines as string slices.

use vstd::prelude::*;

verus! {

/// Index of the first `'\n'` in `s`, or `|s|` when there is none.
pub open spec fn newline_at(s: Seq<char>) -> nat
    decreases s.len(),
{
    if s.len() == 0 {
        0
    } else if s[0] == '\n' {
        0
    } else {
        1 + newline_at(s.drop_first())
    }
}

/// The first line of `s`: everything before the first `'\n'`, with one
/// carriage return stripped from its end when the `'\n'` is present.
pub open spec fn first_line(s: Seq<char>) -> Seq<char> {
    let i = newline_at(s) as int;
    let raw = s.subrange(0, i);
    if i < s.len() && raw.len() > 0 && raw.last() == '\r' {
        raw.drop_last()
    } else {
        raw
    }
}

/// The lines of `s`.  Empty text has no lines, and a final `'\n'` does not
/// open an extra empty line.
pub open spec fn split_lines(s: Seq<char>) -> Seq<Seq<char>>
    decreases s.len(),
{
    if s.len() == 0 {
        Seq::empty()
    } else {
        let i = newline_at(s) as int;
        if i >= s.len() {
            seq![first_line(s)]
        } else {
            seq![first_line(s)] + split_lines(s.subrange(i + 1, s.len() as int))
        }
    }
}

pub proof fn lemma_newline_at(s: Seq<char>)
    ensures
        0 <= newline_at(s) <= s.len(),
        newline_at(s) < s.len() ==> s[newline_at(s) as int] == '\n',
        forall|j: int| 0 <= j < newline_at(s) ==> s[j] != '\n',
    decreases s.len(),
{
    if s.len() > 0 && s[0] != '\n' {
        lemma_newline_at(s.drop_first());
        let t = s.drop_first();
        if newline_at(t) < t.len() {
            assert(s[newline_at(s) as int] == t[newline_at(t) as int]);
        }
        assert forall|j: int| 0 <= j < newline_at(s) implies s[j] != '\n' by {
            if j > 0 {
                assert(t[j - 1] == s[j]);
                assert(t[j - 1] != '\n');
            }
        }
    }
}

/// Splitting agrees with scanning: when no `'\n'` stands before `i` and
/// either `i` is the end or `s[i]` is `'\n'`, then `i` is where the first
/// line ends.
pub proof fn lemma_newline_at_is(s: Seq<char>, i: int)
    requires
        0 <= i <= s.len(),
        forall|j: int| 0 <= j < i ==> s[j] != '\n',
        i < s.len() ==> s[i] == '\n',
    ensures
        newline_at(s) == i,
{
    lemma_newline_at(s);
    let p = newline_at(s) as int;
    if p < i {
        assert(s[p] != '\n');
    }
    if i < p {
        assert(s[i] != '\n');
    }
}

/// Index of the first line that `ok` rejects, or `|ls|` when every line
/// passes.
pub open spec fn first_rejected<T>(ls: Seq<T>, ok: spec_fn(T) -> bool) -> nat
    decreases ls.len(),
{
    if ls.len() == 0 {
        0
    } else if !ok(ls[0]) {
        0
    } else {
        1 + first_rejected(ls.drop_first(), ok)
    }
}

pub proof fn lemma_first_rejected<T>(ls: Seq<T>, ok: spec_fn(T) -> bool)
    ensures
        0 <= first_rejected(ls, ok) <= ls.len(),
        first_rejected(ls, ok) < ls.len() ==> !ok(ls[first_rejected(ls, ok) as int]),
        forall|j: int| 0 <= j < first_rejected(ls, ok) ==> ok(ls[j]),
    decreases ls.len(),
{
    if ls.len() > 0 && ok(ls[0]) {
        let t = ls.drop_first();
        lemma_first_rejected(t, ok);
        if first_rejected(t, ok) < t.len() {
            assert(ls[first_rejected(ls, ok) as int] == t[first_rejected(t, ok) as int]);
        }
        assert forall|j: int| 0 <= j < first_rejected(ls, ok) implies ok(ls[j]) by {
            if j > 0 {
                assert(t[j - 1] == ls[j]);
                assert(ok(t[j - 1]));
            }
        }
    }
}

/// Scanning agrees with the definition: when every line before `i` passes
/// and either `i` is the end or line `i` is rejected, then `i` is the first
/// rejected index.
pub proof fn lemma_first_rejected_is<T>(ls: Seq<T>, ok: spec_fn(T) -> bool, i: int)
    requires
        0 <= i <= ls.len(),
        forall|j: int| 0 <= j < i ==> ok(ls[j]),
        i < ls.len() ==> !ok(ls[i]),
    ensures
        first_rejected(ls, ok) == i,
{
    lemma_first_rejected(ls, ok);
    let p = first_rejected(ls, ok) as int;
    if p < i {
        assert(ok(ls[p]));
    }
    if i < p {
        assert(ok(ls[i]));
    }
}

/// Produce the lines of `s` as string slices.
pub fn split_to_lines<'a>(s: &'a str) -> (lines: Vec<&'a str>)
    ensures
        lines@.len() == split_lines(s@).len(),
        forall|i: int| 0 <= i < lines@.len() ==> lines@[i]@ == split_lines(s@)[i],
{
    let n = s.unicode_len();
    let mut lines: Vec<&'a str> = Vec::new();
    let mut start: usize = 0;
    let ghost whole = split_lines(s@);
    proof {
        assert(s@.subrange(0, n as int) =~= s@);
    }
    while start < n
        invariant
            start <= n,
            n == s@.len(),
            whole == split_lines(s@),
            whole =~= lines@.map_values(|l: &str| l@) + split_lines(
                s@.subrange(start as int, n as int),
            ),
        decreases n - start,
    {
        let ghost rest = s@.subrange(start as int, n as int);
        // Scan for the end of the current line.
        let mut j: usize = start;
        while j < n && s.get_char(j) != '\n'
            invariant
                start <= j <= n,
                n == s@.len(),
                forall|m: int| start <= m < j ==> s@[m] != '\n',
            decreases n - j,
        {
            j = j + 1;
        }
        proof {
            assert(forall|m: int| 0 <= m < j - start ==> rest[m] == s@[start + m]);
            lemma_newline_at_is(rest, j - start);
        }
        // Strip one carriage return when the line ends at a `'\n'`.
        let mut stop: usize = j;
        if j < n && stop > start && s.get_char(stop - 1) == '\r' {
            stop = stop - 1;
        }
        let line = s.substring_char(start, stop);
        proof {
            let raw = rest.subrange(0, j - start);
            assert(raw =~= s@.subrange(start as int, j as int));
            if j < n && raw.len() > 0 && raw.last() == '\r' {
                assert(first_line(rest) =~= raw.drop_last());
                assert(line@ =~= first_line(rest));
            } else {
                assert(stop == j);
                assert(first_line(rest) =~= raw);
                assert(line@ =~= first_line(rest));
            }
        }
        lines.push(line);
        let next: usize = if j < n {
            j + 1
        } else {
            n
        };
        proof {
            let old_map = lines@.drop_last().map_values(|l: &str| l@);
            assert(lines@.map_values(|l: &str| l@) =~= old_map.push(line@));
            if j < n {
                assert(split_lines(rest) =~= seq![first_line(rest)] + split_lines(
                    rest.subrange(j - start + 1, rest.len() as int),
                ));
                assert(rest.subrange(j - start + 1, rest.len() as int) =~= s@.subrange(
                    next as int,
                    n as int,
                ));
            } else {
                assert(split_lines(rest) =~= seq![first_line(rest)]);
                assert(s@.subrange(next as int, n as int).len() == 0);
                assert(split_lines(s@.subrange(next as int, n as int)) =~= Seq::<
                    Seq<char>,
                >::empty());
            }
            assert(whole =~= lines@.map_values(|l: &str| l@) + split_lines(
                s@.subrange(next as int, n as int),
            ));
        }
        start = next;
    }
    proof {
        assert(s@.subrange(start as int, n as int).len() == 0);
        assert(split_lines(s@.subrange(start as int, n as int)) =~= Seq::<Seq<char>>::empty());
        assert(whole =~= lines@.map_values(|l: &str| l@));
        assert(forall|i: int|
            0 <= i < lines@.len() ==> lines@.map_values(|l: &str| l@)[i] == lines@[i]@);
    }
    lines
}

} // verus!
