//! Grouped totals and their largest values.
//!
//! The input is a list of non-negative integers, one per line, with blank
//! lines closing one group of consecutive values and opening the next.
//! Part 1 reports the largest group total; part 2 reports the sum of the
//! three largest group totals.

use vstd::prelude::*;
use vstd::string::StringExecFns;
use crate::error::Error;
use crate::lines::{split_lines, split_to_lines};
use crate::sums::{seq_max0, seq_sum, lemma_seq_sum_prefix};
use crate::topk::{top_k_of, lemma_top_k_of, lemma_top_k_unique, multi_max};

verus! {

/// `c` is a decimal digit.
pub open spec fn is_digit(c: char) -> bool {
    '0' <= c && c <= '9'
}

/// The numeric value of the digit `c`.
pub open spec fn digit_val(c: char) -> int {
    (c as u32) - 48
}

/// Every character of `s` is a decimal digit.
pub open spec fn all_digits(s: Seq<char>) -> bool {
    forall|i: int| 0 <= i < s.len() ==> is_digit(s[i])
}

/// The value of `s` read as a decimal numeral.
pub open spec fn digits_val(s: Seq<char>) -> int
    decreases s.len(),
{
    if s.len() == 0 {
        0
    } else {
        10 * digits_val(s.drop_last()) + digit_val(s.last())
    }
}

/// The digits of `s` once an optional leading plus sign is stripped.
pub open spec fn literal_digits(s: Seq<char>) -> Seq<char> {
    if s.len() > 0 && s[0] == '+' {
        s.drop_first()
    } else {
        s
    }
}

/// `s` is a well-formed machine-word numeral: at least one digit after an
/// optional `'+'`, and a value that fits in `usize`.
pub open spec fn is_usize_literal(s: Seq<char>) -> bool {
    let d = literal_digits(s);
    &&& s.len() > 0
    &&& d.len() > 0
    &&& all_digits(d)
    &&& digits_val(d) <= usize::MAX
}

/// The numeric value of the numeral `s`.
pub open spec fn line_value(s: Seq<char>) -> int {
    digits_val(literal_digits(s))
}

pub proof fn lemma_digits_val_nonneg(s: Seq<char>)
    requires
        all_digits(s),
    ensures
        digits_val(s) >= 0,
    decreases s.len(),
{
    if s.len() > 0 {
        assert(all_digits(s.drop_last()));
        lemma_digits_val_nonneg(s.drop_last());
    }
}

/// A numeral is at least the value of each of its leading portions, so a
/// leading portion that overflows decides the whole.
pub proof fn lemma_digits_val_prefix(s: Seq<char>, k: int)
    requires
        all_digits(s),
        0 <= k <= s.len(),
    ensures
        digits_val(s.subrange(0, k)) <= digits_val(s),
    decreases s.len(),
{
    if k == s.len() {
        assert(s.subrange(0, k) =~= s);
    } else {
        assert(all_digits(s.drop_last()));
        lemma_digits_val_prefix(s.drop_last(), k);
        assert(s.drop_last().subrange(0, k) =~= s.subrange(0, k));
        lemma_digits_val_nonneg(s.drop_last());
    }
}

/// Parse one line as a non-negative machine-word integer.
///
/// Succeeds exactly on well-formed numerals (`is_usize_literal`); any other
/// line, including a numeral too large for `usize`, is returned inside a
/// parse error.
pub fn parse_calories(line: &str) -> (r: Result<usize, Error>)
    ensures
        match r {
            Ok(v) => is_usize_literal(line@) && v as int == line_value(line@),
            Err(e) => {
                &&& !is_usize_literal(line@)
                &&& e matches Error::Parse(t) && t@ == line@
            },
        },
{
    let n = line.unicode_len();
    let mut start: usize = 0;
    if n > 0 && line.get_char(0) == '+' {
        start = 1;
    }
    let ghost digits = line@.subrange(start as int, n as int);
    proof {
        assert(digits =~= literal_digits(line@));
    }
    if start >= n {
        return Err(Error::Parse(String::from_str(line)));
    }
    let mut v: usize = 0;
    let mut i: usize = start;
    while i < n
        invariant
            start <= i <= n,
            n == line@.len(),
            start < n,
            digits == line@.subrange(start as int, n as int),
            digits == literal_digits(line@),
            all_digits(line@.subrange(start as int, i as int)),
            v as int == digits_val(line@.subrange(start as int, i as int)),
        decreases n - i,
    {
        let c = line.get_char(i);
        if c < '0' || c > '9' {
            proof {
                assert(digits[i - start] == line@[i as int]);
                assert(!is_digit(digits[i - start]));
                assert(!all_digits(digits));
                assert(!is_usize_literal(line@));
            }
            return Err(Error::Parse(String::from_str(line)));
        }
        let d = (c as u32 - 48) as usize;
        let ghost upto = line@.subrange(start as int, i as int);
        let ghost next = line@.subrange(start as int, i as int + 1);
        proof {
            assert(next.drop_last() =~= upto);
            assert(next.last() == line@[i as int]);
            assert(all_digits(next));
            assert(digits_val(next) == 10 * (v as int) + d);
        }
        let step = match v.checked_mul(10) {
            Some(t) => t.checked_add(d),
            None => None,
        };
        match step {
            Some(t) => {
                v = t;
            },
            None => {
                proof {
                    // The digits read so far already exceed the machine
                    // word, so if the rest are digits too the numeral is
                    // out of range; otherwise it is malformed.  Either way
                    // it is no machine-word numeral.
                    assert(digits_val(next) > usize::MAX);
                    if all_digits(digits) {
                        assert(next =~= digits.subrange(0, i - start + 1));
                        lemma_digits_val_prefix(digits, i - start + 1);
                        assert(digits_val(digits) > usize::MAX);
                    }
                    assert(!is_usize_literal(line@));
                }
                return Err(Error::Parse(String::from_str(line)));
            },
        }
        i = i + 1;
    }
    proof {
        assert(line@.subrange(start as int, n as int) =~= digits);
        assert(is_usize_literal(line@));
    }
    Ok(v)
}

/// What grouping the input's lines comes to: the list of group totals, or
/// the first malformed line, or a group total beyond the machine word.
pub enum Grouping {
    Totals(Seq<int>),
    BadLine(Seq<char>),
    TooBig,
}

/// One line's effect on the running totals: a blank line opens a fresh
/// group, a numeral joins the current group (opening the first), and
/// anything else is malformed.
pub open spec fn grouping_step(totals: Seq<int>, line: Seq<char>) -> Grouping {
    if line.len() == 0 {
        Grouping::Totals(totals.push(0))
    } else if !is_usize_literal(line) {
        Grouping::BadLine(line)
    } else if totals.len() == 0 {
        Grouping::Totals(seq![line_value(line)])
    } else if totals.last() + line_value(line) > usize::MAX {
        Grouping::TooBig
    } else {
        Grouping::Totals(totals.update(totals.len() - 1, totals.last() + line_value(line)))
    }
}

/// The lines folded in order; the first failure is kept.
pub open spec fn group_lines(ls: Seq<Seq<char>>) -> Grouping
    decreases ls.len(),
{
    if ls.len() == 0 {
        Grouping::Totals(Seq::empty())
    } else {
        match group_lines(ls.drop_last()) {
            Grouping::Totals(t) => grouping_step(t, ls.last()),
            Grouping::BadLine(b) => Grouping::BadLine(b),
            Grouping::TooBig => Grouping::TooBig,
        }
    }
}

/// The grouping of a whole input text.
pub open spec fn grouped(input: Seq<char>) -> Grouping {
    group_lines(split_lines(input))
}

/// A failure among the first `k` lines decides the whole input.
proof fn lemma_group_lines_stuck(ls: Seq<Seq<char>>, k: int)
    requires
        0 <= k <= ls.len(),
        !(group_lines(ls.subrange(0, k)) is Totals),
    ensures
        group_lines(ls) == group_lines(ls.subrange(0, k)),
    decreases ls.len(),
{
    if k == ls.len() {
        assert(ls.subrange(0, k) =~= ls);
    } else {
        assert(ls.drop_last().subrange(0, k) =~= ls.subrange(0, k));
        lemma_group_lines_stuck(ls.drop_last(), k);
    }
}

/// Sum each group of consecutive numerals, opening a new group at each
/// blank line.
pub fn group_stashes(input: &str) -> (r: Result<Vec<usize>, Error>)
    ensures
        match grouped(input@) {
            Grouping::Totals(t) => {
                &&& r matches Ok(v)
                &&& v@.len() == t.len()
                &&& forall|i: int| 0 <= i < t.len() ==> v@[i] as int == t[i]
            },
            Grouping::BadLine(b) => {
                &&& r matches Err(e)
                &&& e matches Error::Parse(s) && s@ == b
            },
            Grouping::TooBig => r matches Err(Error::Overflow),
        },
{
    let lines = split_to_lines(input);
    let ghost lviews = lines@.map_values(|l: &str| l@);
    proof {
        assert(lviews =~= split_lines(input@));
    }
    let mut totals: Vec<usize> = Vec::new();
    let mut i: usize = 0;
    proof {
        assert(lviews.subrange(0, 0) =~= Seq::<Seq<char>>::empty());
        assert(totals@.map_values(|u: usize| u as int) =~= Seq::<int>::empty());
    }
    while i < lines.len()
        invariant
            i <= lines@.len(),
            lviews == lines@.map_values(|l: &str| l@),
            lviews == split_lines(input@),
            group_lines(lviews.subrange(0, i as int)) == Grouping::Totals(
                totals@.map_values(|u: usize| u as int),
            ),
        decreases lines@.len() - i,
    {
        let line = lines[i];
        let ghost prefix = lviews.subrange(0, i as int);
        let ghost tspec = totals@.map_values(|u: usize| u as int);
        proof {
            assert(lviews.subrange(0, i as int + 1).drop_last() =~= prefix);
            assert(lviews.subrange(0, i as int + 1).last() == line@);
        }
        if line.is_empty() {
            totals.push(0);
            proof {
                assert(totals@.map_values(|u: usize| u as int) =~= tspec.push(0));
            }
        } else {
            match parse_calories(line) {
                Err(e) => {
                    proof {
                        assert(group_lines(lviews.subrange(0, i as int + 1))
                            == Grouping::BadLine(line@));
                        lemma_group_lines_stuck(lviews, i as int + 1);
                    }
                    return Err(e);
                },
                Ok(v) => {
                    if totals.len() == 0 {
                        totals.push(v);
                        proof {
                            assert(totals@.map_values(|u: usize| u as int) =~= seq![
                                line_value(line@),
                            ]);
                        }
                    } else {
                        let last = totals[totals.len() - 1];
                        match last.checked_add(v) {
                            Some(t) => {
                                totals.pop();
                                totals.push(t);
                                proof {
                                    assert(totals@.map_values(|u: usize| u as int) =~= tspec
                                        .update(tspec.len() - 1, tspec.last() + line_value(line@)));
                                }
                            },
                            None => {
                                proof {
                                    assert(group_lines(lviews.subrange(0, i as int + 1))
                                        == Grouping::TooBig);
                                    lemma_group_lines_stuck(lviews, i as int + 1);
                                }
                                return Err(Error::Overflow);
                            },
                        }
                    }
                },
            }
        }
        i = i + 1;
    }
    proof {
        assert(lviews.subrange(0, lines@.len() as int) =~= lviews);
    }
    Ok(totals)
}

/// The largest group total of the input, or 0 when there are no groups.
pub fn part1(input: &str) -> (r: Result<usize, Error>)
    ensures
        match grouped(input@) {
            Grouping::Totals(t) => r matches Ok(v) && v as int == seq_max0(t),
            Grouping::BadLine(b) => {
                &&& r matches Err(e)
                &&& e matches Error::Parse(s) && s@ == b
            },
            Grouping::TooBig => r matches Err(Error::Overflow),
        },
{
    let totals = match group_stashes(input) {
        Ok(v) => v,
        Err(e) => {
            return Err(e);
        },
    };
    let ghost t = grouped(input@)->Totals_0;
    let mut m: usize = 0;
    let mut i: usize = 0;
    proof {
        assert(t.subrange(0, 0) =~= Seq::<int>::empty());
    }
    while i < totals.len()
        invariant
            i <= totals@.len(),
            totals@.len() == t.len(),
            forall|j: int| 0 <= j < t.len() ==> totals@[j] as int == t[j],
            m as int == seq_max0(t.subrange(0, i as int)),
        decreases totals@.len() - i,
    {
        proof {
            assert(t.subrange(0, i as int + 1).drop_last() =~= t.subrange(0, i as int));
            assert(t.subrange(0, i as int + 1).last() == t[i as int]);
        }
        let v = totals[i];
        if v > m {
            m = v;
        }
        i = i + 1;
    }
    proof {
        assert(t.subrange(0, t.len() as int) =~= t);
    }
    Ok(m)
}

/// The sum of the three largest group totals of the input.
pub fn part2(input: &str) -> (r: Result<usize, Error>)
    ensures
        match grouped(input@) {
            Grouping::Totals(t) => {
                let top = top_k_of(t.map_values(|x: int| x as usize), 3);
                if seq_sum(top) <= usize::MAX {
                    r matches Ok(v) && v as int == seq_sum(top)
                } else {
                    r matches Err(Error::Overflow)
                }
            },
            Grouping::BadLine(b) => {
                &&& r matches Err(e)
                &&& e matches Error::Parse(s) && s@ == b
            },
            Grouping::TooBig => r matches Err(Error::Overflow),
        },
{
    let totals = match group_stashes(input) {
        Ok(v) => v,
        Err(e) => {
            return Err(e);
        },
    };
    let ghost t = grouped(input@)->Totals_0;
    let ghost tu = t.map_values(|x: int| x as usize);
    proof {
        assert(tu =~= totals@);
    }
    let maxes = multi_max(totals, 3);
    proof {
        lemma_top_k_of(tu, 3);
        lemma_top_k_unique(tu, tu, 3, maxes@, top_k_of(tu, 3));
    }
    let ghost top = top_k_of(tu, 3);
    let mut acc: usize = 0;
    let mut i: usize = 0;
    proof {
        assert(top.subrange(0, 0) =~= Seq::<usize>::empty());
    }
    while i < maxes.len()
        invariant
            i <= maxes@.len(),
            maxes@ == top,
            grouped(input@) == Grouping::Totals(t),
            top == top_k_of(t.map_values(|x: int| x as usize), 3),
            acc as int == seq_sum(top.subrange(0, i as int)),
        decreases maxes@.len() - i,
    {
        proof {
            assert(top.subrange(0, i as int + 1).drop_last() =~= top.subrange(0, i as int));
            assert(top.subrange(0, i as int + 1).last() == top[i as int]);
        }
        let v = maxes[i];
        match acc.checked_add(v) {
            Some(s) => {
                acc = s;
            },
            None => {
                proof {
                    assert(seq_sum(top.subrange(0, i as int + 1)) == acc as int + v as int);
                    lemma_seq_sum_prefix(top, i as int + 1);
                    assert(seq_sum(top) > usize::MAX);
                }
                return Err(Error::Overflow);
            },
        }
        i = i + 1;
    }
    proof {
        assert(top.subrange(0, top.len() as int) =~= top);
        lemma_seq_sum_prefix(top, top.len() as int);
    }
    Ok(acc)
}

} // verus!
