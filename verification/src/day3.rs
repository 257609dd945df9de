//! Rucksack and group priorities.
//!
//! Each input line lists the items of one rucksack as characters.  Part 1
//! halves each line into two compartments and scores the one item common to
//! both; part 2 takes lines in groups of three and scores the one item
//! common to all three.  An item's score is its priority: `a`..`z` are
//! 1..26 and `A`..`Z` are 27..52.

use vstd::prelude::*;
use crate::error::Error;
use crate::lines::{
    split_lines, split_to_lines, first_rejected, lemma_first_rejected, lemma_first_rejected_is,
};
use crate::sums::{seq_sum, lemma_seq_sum_prefix};

verus! {

/// `c` is a lower-case letter.
pub open spec fn is_lowercase(c: char) -> bool {
    'a' <= c && c <= 'z'
}

/// `c` is an upper-case letter.
pub open spec fn is_uppercase(c: char) -> bool {
    'A' <= c && c <= 'Z'
}

/// `c` is a letter of the recognised alphabet.
pub open spec fn is_alphabetic(c: char) -> bool {
    is_lowercase(c) || is_uppercase(c)
}

/// The priority of an item: `a`..`z` are 1..26, `A`..`Z` are 27..52.
pub open spec fn priority_spec(c: char) -> int {
    if is_lowercase(c) {
        (c as u32) - 96
    } else if is_uppercase(c) {
        (c as u32) - 38
    } else {
        0
    }
}

/// Some letter has priority `p`.
pub open spec fn priority_attained(p: int) -> bool {
    exists|c: char| is_alphabetic(c) && #[trigger] priority_spec(c) == p
}

/// The priority mapping is a bijection between the 52 letters and 1..52,
/// with `a` at 1, `z` at 26, `A` at 27 and `Z` at 52.
pub proof fn lemma_priority_bijection()
    ensures
        priority_spec('a') == 1,
        priority_spec('z') == 26,
        priority_spec('A') == 27,
        priority_spec('Z') == 52,
        forall|c: char| is_alphabetic(c) ==> 1 <= #[trigger] priority_spec(c) <= 52,
        forall|c1: char, c2: char|
            is_alphabetic(c1) && is_alphabetic(c2) && #[trigger] priority_spec(c1)
                == #[trigger] priority_spec(c2) ==> c1 == c2,
        forall|p: int| 1 <= p <= 52 ==> #[trigger] priority_attained(p),
{
    assert forall|p: int| 1 <= p <= 52 implies #[trigger] priority_attained(p) by {
        if p <= 26 {
            let c = ((p + 96) as u8) as char;
            assert(is_alphabetic(c) && priority_spec(c) == p);
        } else {
            let c = ((p + 38) as u8) as char;
            assert(is_alphabetic(c) && priority_spec(c) == p);
        }
    }
}

/// The priority of an item.
///
/// Succeeds exactly on the 52 recognised letters.
pub fn calculate_priority(item_type: char) -> (r: Result<usize, Error>)
    ensures
        match r {
            Ok(v) => is_alphabetic(item_type) && v as int == priority_spec(item_type),
            Err(e) => !is_alphabetic(item_type) && e == Error::Priority(item_type),
        },
{
    if item_type >= 'a' && item_type <= 'z' {
        Ok((item_type as u32 - 96) as usize)
    } else if item_type >= 'A' && item_type <= 'Z' {
        Ok((item_type as u32 - 38) as usize)
    } else {
        Err(Error::Priority(item_type))
    }
}

/// `c` is held by every one of the given character sets (and there is at
/// least one set).
pub open spec fn common_all(cs: Seq<Seq<char>>, c: char) -> bool {
    &&& cs.len() > 0
    &&& forall|i: int| 0 <= i < cs.len() ==> #[trigger] cs[i].contains(c)
}

/// Some character is common to all the sets.
pub open spec fn has_common(cs: Seq<Seq<char>>) -> bool {
    exists|c: char| common_all(cs, c)
}

/// At most one character is common to all the sets.
pub open spec fn unique_common(cs: Seq<Seq<char>>) -> bool {
    forall|c1: char, c2: char| common_all(cs, c1) && common_all(cs, c2) ==> c1 == c2
}

/// The character common to all the sets (meaningful when it exists).
pub open spec fn common_item(cs: Seq<Seq<char>>) -> char {
    choose|c: char| common_all(cs, c)
}

/// The sets share exactly one character and it is a recognised letter.
pub open spec fn ok_intersection(cs: Seq<Seq<char>>) -> bool {
    &&& has_common(cs)
    &&& unique_common(cs)
    &&& is_alphabetic(common_item(cs))
}

/// The failure an intersection comes to: no common character, more than
/// one, or a common character outside the alphabet.
pub open spec fn intersect_err(cs: Seq<Seq<char>>) -> Error {
    if !has_common(cs) {
        Error::EmptyIntersection
    } else if !unique_common(cs) {
        Error::AmbiguousIntersection
    } else {
        Error::Priority(common_item(cs))
    }
}

/// The two compartments of a rucksack line: the line split at its
/// character midpoint, the extra character of an odd-length line falling
/// into the second half.
pub open spec fn sack_sets(l: Seq<char>) -> Seq<Seq<char>> {
    seq![l.subrange(0, l.len() as int / 2), l.subrange(l.len() as int / 2, l.len() as int)]
}

/// The line parses as a rucksack: its halves share exactly one item and
/// that item is a letter.
pub open spec fn sack_ok(l: Seq<char>) -> bool {
    ok_intersection(sack_sets(l))
}

/// The error the line's rucksack parse comes to.
pub open spec fn sack_err(l: Seq<char>) -> Error {
    intersect_err(sack_sets(l))
}

/// The priority of the one item the line's halves share.
pub open spec fn sack_priority(l: Seq<char>) -> int {
    priority_spec(common_item(sack_sets(l)))
}

/// Does `v` hold `c` anywhere in `[from, to)`?
fn range_contains(v: &Vec<char>, from: usize, to: usize, c: char) -> (r: bool)
    requires
        from <= to <= v@.len(),
    ensures
        r == v@.subrange(from as int, to as int).contains(c),
{
    let ghost range = v@.subrange(from as int, to as int);
    let mut i: usize = from;
    while i < to
        invariant
            from <= i <= to <= v@.len(),
            range == v@.subrange(from as int, to as int),
            forall|j: int| from <= j < i ==> v@[j] != c,
        decreases to - i,
    {
        if v[i] == c {
            proof {
                assert(range[i - from] == c);
            }
            return true;
        }
        i = i + 1;
    }
    proof {
        assert forall|j: int| 0 <= j < range.len() implies range[j] != c by {
            assert(range[j] == v@[from + j]);
        }
    }
    false
}

/// The characters of `s` as a vector.
fn str_chars(s: &str) -> (v: Vec<char>)
    ensures
        v@ == s@,
{
    let n = s.unicode_len();
    let mut v: Vec<char> = Vec::new();
    let mut i: usize = 0;
    while i < n
        invariant
            i <= n,
            n == s@.len(),
            v@ == s@.subrange(0, i as int),
        decreases n - i,
    {
        v.push(s.get_char(i));
        proof {
            assert(v@ =~= s@.subrange(0, i as int + 1));
        }
        i = i + 1;
    }
    proof {
        assert(s@.subrange(0, n as int) =~= s@);
    }
    v
}

/// One compartment of a rucksack: a bag of item characters.
pub struct Compartment {
    pub contents: Vec<char>,
}

impl Compartment {
    /// Read a compartment: every character of the input is an item.
    pub fn parse(input: &str) -> (c: Compartment)
        ensures
            c.contents@ == input@,
    {
        Compartment { contents: str_chars(input) }
    }
}

/// A rucksack: a line of items whose two halves share exactly one item,
/// together with that item's priority.
pub struct Rucksack {
    pub contents: Vec<char>,
    pub priority: usize,
}

impl Rucksack {
    /// The stored priority is the priority of the one item the halves of
    /// the stored contents share.
    pub open spec fn wf(&self) -> bool {
        &&& sack_ok(self.contents@)
        &&& self.priority as int == sack_priority(self.contents@)
    }

    /// The one item two compartments share.
    ///
    /// Fails when the compartments share no item or more than one; never
    /// picks one silently.
    pub fn calculate_item_type(first: &Compartment, second: &Compartment) -> (r: Result<
        char,
        Error,
    >)
        ensures
            ({
                let cs = seq![first.contents@, second.contents@];
                match r {
                    Ok(c) => has_common(cs) && unique_common(cs) && common_all(cs, c) && c
                        == common_item(cs),
                    Err(e) => {
                        &&& !(has_common(cs) && unique_common(cs))
                        &&& e == (if !has_common(cs) {
                            Error::EmptyIntersection
                        } else {
                            Error::AmbiguousIntersection
                        })
                    },
                }
            }),
    {
        let ghost cs = seq![first.contents@, second.contents@];
        let n = first.contents.len();
        let m = second.contents.len();
        let mut found: Vec<char> = Vec::new();
        let mut i: usize = 0;
        proof {
            assert(first.contents@.subrange(0, n as int) =~= first.contents@);
            assert(second.contents@.subrange(0, m as int) =~= second.contents@);
        }
        while i < n
            invariant
                i <= n,
                n == first.contents@.len(),
                m == second.contents@.len(),
                cs == seq![first.contents@, second.contents@],
                forall|a: int, b: int|
                    0 <= a < b < found@.len() ==> found@[a] != found@[b],
                forall|a: int| 0 <= a < found@.len() ==> common_all(cs, #[trigger] found@[a]),
                forall|c: char|
                    common_all(cs, c) && first.contents@.subrange(0, i as int).contains(c)
                        ==> found@.contains(c),
            decreases n - i,
        {
            let c = first.contents[i];
            let ghost old_found = found@;
            let already = range_contains(&found, 0, found.len(), c);
            let in_second = range_contains(&second.contents, 0, m, c);
            proof {
                assert(old_found.subrange(0, old_found.len() as int) =~= old_found);
                assert(second.contents@.subrange(0, m as int) =~= second.contents@);
            }
            if !already && in_second {
                proof {
                    assert(first.contents@.contains(c)) by {
                        assert(first.contents@[i as int] == c);
                    }
                    assert(common_all(cs, c)) by {
                        assert(cs[0].contains(c));
                        assert(cs[1].contains(c));
                    }
                }
                found.push(c);
            }
            proof {
                assert forall|c2: char|
                    common_all(cs, c2) && first.contents@.subrange(0, i as int + 1).contains(
                        c2,
                    ) implies found@.contains(c2) by {
                    let pre = first.contents@.subrange(0, i as int);
                    let cur = first.contents@.subrange(0, i as int + 1);
                    let k = choose|k: int| 0 <= k < cur.len() && cur[k] == c2;
                    if k < i {
                        assert(pre.contains(c2)) by {
                            assert(pre[k] == c2);
                        }
                        let a = choose|a: int| 0 <= a < old_found.len() && old_found[a] == c2;
                        assert(found@[a] == c2);
                    } else {
                        assert(c2 == c);
                        assert(cs[1].contains(c2));
                        if already {
                            let a = choose|a: int|
                                0 <= a < old_found.len() && old_found[a] == c2;
                            assert(found@[a] == c2);
                        } else {
                            assert(found@.last() == c);
                        }
                    }
                }
            }
            i = i + 1;
        }
        proof {
            assert forall|c: char| common_all(cs, c) implies found@.contains(c) by {
                assert(cs[0].contains(c));
            }
        }
        if found.len() == 0 {
            proof {
                assert forall|c: char| !common_all(cs, c) by {
                    if common_all(cs, c) {
                        assert(found@.contains(c));
                    }
                }
            }
            Err(Error::EmptyIntersection)
        } else if found.len() > 1 {
            proof {
                assert(found@[0] != found@[1]);
                assert(!unique_common(cs));
            }
            Err(Error::AmbiguousIntersection)
        } else {
            let c = found[0];
            proof {
                assert(common_all(cs, c));
                assert forall|c1: char, c2: char|
                    common_all(cs, c1) && common_all(cs, c2) implies c1 == c2 by {
                    assert(found@.contains(c1));
                    assert(found@.contains(c2));
                    let a = choose|a: int| 0 <= a < found@.len() && found@[a] == c1;
                    let b = choose|b: int| 0 <= b < found@.len() && found@[b] == c2;
                    assert(a == 0 && b == 0);
                }
                assert(common_all(cs, common_item(cs)));
            }
            Ok(c)
        }
    }

    /// Read one line as a rucksack.
    ///
    /// The line is halved at its character midpoint into two compartments,
    /// which must share exactly one item, and that item must be a letter;
    /// the rucksack keeps the line and the item's priority.
    pub fn parse(input: &str) -> (r: Result<Rucksack, Error>)
        ensures
            match r {
                Ok(rs) => rs.wf() && rs.contents@ == input@,
                Err(e) => !sack_ok(input@) && e == sack_err(input@),
            },
    {
        let chars = str_chars(input);
        let mid = chars.len() / 2;
        let first = Compartment::parse(input.substring_char(0, mid));
        let second = Compartment::parse(input.substring_char(mid, chars.len()));
        let ghost cs = sack_sets(input@);
        proof {
            assert(first.contents@ == cs[0]);
            assert(second.contents@ == cs[1]);
            assert(cs =~= seq![first.contents@, second.contents@]);
        }
        let item_type = match Self::calculate_item_type(&first, &second) {
            Ok(c) => c,
            Err(e) => {
                return Err(e);
            },
        };
        let priority = match calculate_priority(item_type) {
            Ok(p) => p,
            Err(e) => {
                return Err(e);
            },
        };
        Ok(Rucksack { contents: chars, priority })
    }
}

/// A group of rucksacks sharing one badge item.
pub struct Group {
    pub rucksacks: Vec<Rucksack>,
}

/// The full contents of each rucksack of a group.
pub open spec fn group_sets(g: &Group) -> Seq<Seq<char>> {
    g.rucksacks@.map_values(|r: Rucksack| r.contents@)
}

/// Does every rucksack of the group hold `c`?
fn all_contain(rucksacks: &Vec<Rucksack>, c: char) -> (r: bool)
    ensures
        r == forall|i: int|
            0 <= i < rucksacks@.len() ==> #[trigger] rucksacks@[i].contents@.contains(c),
{
    let mut i: usize = 0;
    while i < rucksacks.len()
        invariant
            i <= rucksacks@.len(),
            forall|j: int| 0 <= j < i ==> #[trigger] rucksacks@[j].contents@.contains(c),
        decreases rucksacks@.len() - i,
    {
        let sack = &rucksacks[i];
        let n = sack.contents.len();
        proof {
            assert(sack.contents@.subrange(0, n as int) =~= sack.contents@);
        }
        if !range_contains(&sack.contents, 0, n, c) {
            return false;
        }
        i = i + 1;
    }
    true
}

impl Group {
    /// A group over the given rucksacks.
    pub fn new(rucksacks: Vec<Rucksack>) -> (g: Group)
        ensures
            g.rucksacks == rucksacks,
    {
        Group { rucksacks }
    }

    /// Read one group: each line is a rucksack.  The first line that fails
    /// to parse as a rucksack decides the result.
    pub fn parse(lines: Vec<&str>) -> (r: Result<Group, Error>)
        ensures
            ({
                let lv = lines@.map_values(|l: &str| l@);
                let bad = first_rejected(lv, |l: Seq<char>| sack_ok(l));
                match r {
                    Ok(g) => {
                        &&& bad == lv.len()
                        &&& g.rucksacks@.len() == lv.len()
                        &&& forall|i: int|
                            0 <= i < lv.len() ==> (#[trigger] g.rucksacks@[i]).wf()
                                && g.rucksacks@[i].contents@ == lv[i]
                    },
                    Err(e) => bad < lv.len() && e == sack_err(lv[bad as int]),
                }
            }),
    {
        let ghost lv = lines@.map_values(|l: &str| l@);
        let ghost okf = |l: Seq<char>| sack_ok(l);
        let mut rucksacks: Vec<Rucksack> = Vec::new();
        let mut i: usize = 0;
        while i < lines.len()
            invariant
                i <= lines@.len(),
                lv == lines@.map_values(|l: &str| l@),
                okf == (|l: Seq<char>| sack_ok(l)),
                rucksacks@.len() == i,
                forall|j: int| 0 <= j < i ==> okf(lv[j]),
                forall|j: int|
                    0 <= j < i ==> (#[trigger] rucksacks@[j]).wf() && rucksacks@[j].contents@
                        == lv[j],
            decreases lines@.len() - i,
        {
            let line = lines[i];
            proof {
                assert(line@ == lv[i as int]);
            }
            match Rucksack::parse(line) {
                Ok(rs) => {
                    rucksacks.push(rs);
                },
                Err(e) => {
                    proof {
                        lemma_first_rejected_is(lv, okf, i as int);
                    }
                    return Err(e);
                },
            }
            i = i + 1;
        }
        proof {
            lemma_first_rejected_is(lv, okf, lv.len() as int);
        }
        Ok(Group::new(rucksacks))
    }

    /// The priority of the group's badge: the one item common to the full
    /// contents of every rucksack of the group.
    ///
    /// Fails when the rucksacks share no item, share more than one, or
    /// share an item outside the alphabet; a group of no rucksacks shares
    /// nothing.
    pub fn score(&self) -> (r: Result<usize, Error>)
        ensures
            ({
                let cs = group_sets(self);
                match r {
                    Ok(v) => ok_intersection(cs) && v as int == priority_spec(common_item(cs)),
                    Err(e) => !ok_intersection(cs) && e == intersect_err(cs),
                }
            }),
    {
        let ghost cs = group_sets(self);
        if self.rucksacks.len() == 0 {
            proof {
                assert(forall|c: char| !common_all(cs, c));
                assert(!has_common(cs));
            }
            return Err(Error::EmptyIntersection);
        }
        let head = &self.rucksacks[0];
        let n = head.contents.len();
        let mut found: Vec<char> = Vec::new();
        let mut i: usize = 0;
        while i < n
            invariant
                i <= n,
                self.rucksacks@.len() > 0,
                n == self.rucksacks@[0].contents@.len(),
                cs == group_sets(self),
                forall|a: int, b: int|
                    0 <= a < b < found@.len() ==> found@[a] != found@[b],
                forall|a: int| 0 <= a < found@.len() ==> common_all(cs, #[trigger] found@[a]),
                forall|c: char|
                    common_all(cs, c) && self.rucksacks@[0].contents@.subrange(
                        0,
                        i as int,
                    ).contains(c) ==> found@.contains(c),
            decreases n - i,
        {
            let c = self.rucksacks[0].contents[i];
            let ghost old_found = found@;
            let already = range_contains(&found, 0, found.len(), c);
            let everywhere = all_contain(&self.rucksacks, c);
            proof {
                assert(old_found.subrange(0, old_found.len() as int) =~= old_found);
            }
            if !already && everywhere {
                proof {
                    assert(common_all(cs, c)) by {
                        assert forall|k: int| 0 <= k < cs.len() implies #[trigger] cs[k]
                            .contains(c) by {
                            assert(cs[k] == self.rucksacks@[k].contents@);
                        }
                    }
                }
                found.push(c);
            }
            proof {
                let head_view = self.rucksacks@[0].contents@;
                assert forall|c2: char|
                    common_all(cs, c2) && head_view.subrange(0, i as int + 1).contains(
                        c2,
                    ) implies found@.contains(c2) by {
                    let pre = head_view.subrange(0, i as int);
                    let cur = head_view.subrange(0, i as int + 1);
                    let k = choose|k: int| 0 <= k < cur.len() && cur[k] == c2;
                    if k < i {
                        assert(pre.contains(c2)) by {
                            assert(pre[k] == c2);
                        }
                        let a = choose|a: int| 0 <= a < old_found.len() && old_found[a] == c2;
                        assert(found@[a] == c2);
                    } else {
                        assert(c2 == c);
                        assert(everywhere) by {
                            assert forall|m: int|
                                0 <= m < self.rucksacks@.len() implies #[trigger] self
                                .rucksacks@[m].contents@.contains(c2) by {
                                assert(cs[m].contains(c2));
                                assert(cs[m] == self.rucksacks@[m].contents@);
                            }
                        }
                        if already {
                            let a = choose|a: int|
                                0 <= a < old_found.len() && old_found[a] == c2;
                            assert(found@[a] == c2);
                        } else {
                            assert(found@.last() == c);
                        }
                    }
                }
            }
            i = i + 1;
        }
        proof {
            let head_view = self.rucksacks@[0].contents@;
            assert(head_view.subrange(0, n as int) =~= head_view);
            assert forall|c: char| common_all(cs, c) implies found@.contains(c) by {
                assert(cs[0].contains(c));
                assert(cs[0] == head_view);
            }
        }
        let group_type = if found.len() == 0 {
            proof {
                assert forall|c: char| !common_all(cs, c) by {
                    if common_all(cs, c) {
                        assert(found@.contains(c));
                    }
                }
            }
            return Err(Error::EmptyIntersection);
        } else if found.len() > 1 {
            proof {
                assert(found@[0] != found@[1]);
                assert(!unique_common(cs));
            }
            return Err(Error::AmbiguousIntersection);
        } else {
            proof {
                assert(common_all(cs, found@[0]));
                assert forall|c1: char, c2: char|
                    common_all(cs, c1) && common_all(cs, c2) implies c1 == c2 by {
                    assert(found@.contains(c1));
                    assert(found@.contains(c2));
                    let a = choose|a: int| 0 <= a < found@.len() && found@[a] == c1;
                    let b = choose|b: int| 0 <= b < found@.len() && found@[b] == c2;
                    assert(a == 0 && b == 0);
                }
                assert(common_all(cs, common_item(cs)));
            }
            found[0]
        };
        calculate_priority(group_type)
    }
}

/// Sum the stored priorities of the given rucksacks.
pub fn score_rucksacks(sacks: Vec<Rucksack>) -> (r: Result<usize, Error>)
    ensures
        ({
            let ps = sacks@.map_values(|rs: Rucksack| rs.priority);
            if seq_sum(ps) <= usize::MAX {
                r matches Ok(v) && v as int == seq_sum(ps)
            } else {
                r matches Err(Error::Overflow)
            }
        }),
{
    let ghost ps = sacks@.map_values(|rs: Rucksack| rs.priority);
    let mut acc: usize = 0;
    let mut i: usize = 0;
    proof {
        assert(ps.subrange(0, 0) =~= Seq::<usize>::empty());
    }
    while i < sacks.len()
        invariant
            i <= sacks@.len(),
            ps == sacks@.map_values(|rs: Rucksack| rs.priority),
            acc as int == seq_sum(ps.subrange(0, i as int)),
        decreases sacks@.len() - i,
    {
        proof {
            assert(ps.subrange(0, i as int + 1).drop_last() =~= ps.subrange(0, i as int));
            assert(ps.subrange(0, i as int + 1).last() == ps[i as int]);
        }
        let v = sacks[i].priority;
        match acc.checked_add(v) {
            Some(t) => {
                acc = t;
            },
            None => {
                proof {
                    lemma_seq_sum_prefix(ps, i as int + 1);
                }
                return Err(Error::Overflow);
            },
        }
        i = i + 1;
    }
    proof {
        assert(ps.subrange(0, ps.len() as int) =~= ps);
    }
    Ok(acc)
}

/// Sum the badge priorities of the given groups.  The first group whose
/// intersection fails decides the result; only then can the sum overflow.
pub fn score_groups(groups: &Vec<Group>) -> (r: Result<usize, Error>)
    ensures
        ({
            let gv = groups@.map_values(|g: Group| g.rucksacks@.map_values(|rs: Rucksack| rs.contents@));
            let bad = first_rejected(gv, |cs: Seq<Seq<char>>| ok_intersection(cs));
            if bad < gv.len() {
                r matches Err(e) && e == intersect_err(gv[bad as int])
            } else {
                let sum = seq_sum(
                    gv.map_values(|cs: Seq<Seq<char>>| priority_spec(common_item(cs)) as usize),
                );
                if sum <= usize::MAX {
                    r matches Ok(v) && v as int == sum
                } else {
                    r matches Err(Error::Overflow)
                }
            }
        }),
{
    let ghost gv = groups@.map_values(|g: Group| g.rucksacks@.map_values(|rs: Rucksack| rs.contents@));
    let ghost okf = |cs: Seq<Seq<char>>| ok_intersection(cs);
    let ghost ps = gv.map_values(|cs: Seq<Seq<char>>| priority_spec(common_item(cs)) as usize);
    let mut scores: Vec<usize> = Vec::new();
    let mut i: usize = 0;
    while i < groups.len()
        invariant
            i <= groups@.len(),
            gv == groups@.map_values(
                |g: Group| g.rucksacks@.map_values(|rs: Rucksack| rs.contents@),
            ),
            okf == (|cs: Seq<Seq<char>>| ok_intersection(cs)),
            ps == gv.map_values(|cs: Seq<Seq<char>>| priority_spec(common_item(cs)) as usize),
            scores@.len() == i,
            forall|j: int| 0 <= j < i ==> okf(gv[j]),
            forall|j: int| 0 <= j < i ==> scores@[j] == ps[j],
        decreases groups@.len() - i,
    {
        let g = &groups[i];
        proof {
            assert(group_sets(g) == gv[i as int]);
        }
        match g.score() {
            Ok(v) => {
                scores.push(v);
            },
            Err(e) => {
                proof {
                    lemma_first_rejected_is(gv, okf, i as int);
                }
                return Err(e);
            },
        }
        i = i + 1;
    }
    proof {
        lemma_first_rejected_is(gv, okf, gv.len() as int);
        assert(scores@ =~= ps);
    }
    let mut acc: usize = 0;
    let mut k: usize = 0;
    proof {
        assert(ps.subrange(0, 0) =~= Seq::<usize>::empty());
    }
    while k < scores.len()
        invariant
            k <= scores@.len(),
            scores@ == ps,
            gv == groups@.map_values(
                |g: Group| g.rucksacks@.map_values(|rs: Rucksack| rs.contents@),
            ),
            okf == (|cs: Seq<Seq<char>>| ok_intersection(cs)),
            ps == gv.map_values(|cs: Seq<Seq<char>>| priority_spec(common_item(cs)) as usize),
            first_rejected(gv, okf) == gv.len(),
            acc as int == seq_sum(ps.subrange(0, k as int)),
        decreases scores@.len() - k,
    {
        proof {
            assert(ps.subrange(0, k as int + 1).drop_last() =~= ps.subrange(0, k as int));
            assert(ps.subrange(0, k as int + 1).last() == ps[k as int]);
        }
        let v = scores[k];
        match acc.checked_add(v) {
            Some(t) => {
                acc = t;
            },
            None => {
                proof {
                    lemma_seq_sum_prefix(ps, k as int + 1);
                }
                return Err(Error::Overflow);
            },
        }
        k = k + 1;
    }
    proof {
        assert(ps.subrange(0, ps.len() as int) =~= ps);
    }
    Ok(acc)
}

/// The sum of the rucksack priorities of all input lines.
pub fn part1(input: &str) -> (r: Result<usize, Error>)
    ensures
        ({
            let ls = split_lines(input@);
            let bad = first_rejected(ls, |l: Seq<char>| sack_ok(l));
            if bad < ls.len() {
                r matches Err(e) && e == sack_err(ls[bad as int])
            } else {
                let sum = seq_sum(ls.map_values(|l: Seq<char>| sack_priority(l) as usize));
                if sum <= usize::MAX {
                    r matches Ok(v) && v as int == sum
                } else {
                    r matches Err(Error::Overflow)
                }
            }
        }),
{
    let lines = split_to_lines(input);
    let ghost ls = split_lines(input@);
    let ghost okf = |l: Seq<char>| sack_ok(l);
    proof {
        assert(lines@.map_values(|l: &str| l@) =~= ls);
    }
    let mut sacks: Vec<Rucksack> = Vec::new();
    let mut i: usize = 0;
    while i < lines.len()
        invariant
            i <= lines@.len(),
            lines@.map_values(|l: &str| l@) == ls,
            ls == split_lines(input@),
            okf == (|l: Seq<char>| sack_ok(l)),
            sacks@.len() == i,
            forall|j: int| 0 <= j < i ==> okf(ls[j]),
            forall|j: int|
                0 <= j < i ==> (#[trigger] sacks@[j]).wf() && sacks@[j].contents@ == ls[j],
        decreases lines@.len() - i,
    {
        let line = lines[i];
        proof {
            assert(line@ == ls[i as int]);
        }
        match Rucksack::parse(line) {
            Ok(rs) => {
                sacks.push(rs);
            },
            Err(e) => {
                proof {
                    lemma_first_rejected_is(ls, okf, i as int);
                }
                return Err(e);
            },
        }
        i = i + 1;
    }
    proof {
        lemma_first_rejected_is(ls, okf, ls.len() as int);
        assert(sacks@.map_values(|rs: Rucksack| rs.priority) =~= ls.map_values(
            |l: Seq<char>| sack_priority(l) as usize,
        ));
    }
    score_rucksacks(sacks)
}

/// The lines taken three at a time, a last short chunk kept.
pub open spec fn chunks3(ls: Seq<Seq<char>>) -> Seq<Seq<Seq<char>>>
    decreases ls.len(),
{
    if ls.len() == 0 {
        Seq::empty()
    } else if ls.len() <= 3 {
        seq![ls]
    } else {
        seq![ls.subrange(0, 3)] + chunks3(ls.subrange(3, ls.len() as int))
    }
}

/// Chunking distributes over splitting off whole chunks.
proof fn lemma_chunks3_append(s: Seq<Seq<char>>, t: Seq<Seq<char>>)
    requires
        s.len() % 3 == 0,
    ensures
        chunks3(s + t) == chunks3(s) + chunks3(t),
    decreases s.len(),
{
    if s.len() == 0 {
        assert(s + t =~= t);
        assert(chunks3(s) + chunks3(t) =~= chunks3(t));
    } else if t.len() == 0 {
        assert(s + t =~= s);
        assert(chunks3(s) + chunks3(t) =~= chunks3(s));
    } else {
        let u = s + t;
        assert(u.len() > 3);
        assert(u.subrange(0, 3) =~= s.subrange(0, 3));
        assert(u.subrange(3, u.len() as int) =~= s.subrange(3, s.len() as int) + t);
        lemma_chunks3_append(s.subrange(3, s.len() as int), t);
        if s.len() == 3 {
            assert(s.subrange(3, s.len() as int).len() == 0);
            assert(chunks3(s) =~= seq![s]);
            assert(s.subrange(0, 3) =~= s);
            assert(chunks3(u) =~= chunks3(s) + chunks3(t));
        } else {
            assert(chunks3(u) =~= chunks3(s) + chunks3(t));
        }
    }
}

/// The sum of the badge priorities of the input's three-line groups.
///
/// Every line must parse as a rucksack; the lines are then taken three at
/// a time and each group's badge is the one item common to its lines.
pub fn part2(input: &str) -> (r: Result<usize, Error>)
    ensures
        ({
            let ls = split_lines(input@);
            let bad = first_rejected(ls, |l: Seq<char>| sack_ok(l));
            if bad < ls.len() {
                r matches Err(e) && e == sack_err(ls[bad as int])
            } else {
                let gs = chunks3(ls);
                let badg = first_rejected(gs, |cs: Seq<Seq<char>>| ok_intersection(cs));
                if badg < gs.len() {
                    r matches Err(e) && e == intersect_err(gs[badg as int])
                } else {
                    let sum = seq_sum(
                        gs.map_values(
                            |cs: Seq<Seq<char>>| priority_spec(common_item(cs)) as usize,
                        ),
                    );
                    if sum <= usize::MAX {
                        r matches Ok(v) && v as int == sum
                    } else {
                        r matches Err(Error::Overflow)
                    }
                }
            }
        }),
{
    let lines = split_to_lines(input);
    let ghost ls = split_lines(input@);
    let ghost okf = |l: Seq<char>| sack_ok(l);
    proof {
        assert(lines@.map_values(|l: &str| l@) =~= ls);
    }
    let mut groups: Vec<Group> = Vec::new();
    let mut i: usize = 0;
    proof {
        assert(ls.subrange(0, 0) =~= Seq::<Seq<char>>::empty());
        assert(chunks3(ls.subrange(0, 0)) =~= Seq::<Seq<Seq<char>>>::empty());
        assert(groups@.map_values(
            |g: Group| g.rucksacks@.map_values(|rs: Rucksack| rs.contents@),
        ) =~= Seq::<Seq<Seq<char>>>::empty());
    }
    while i < lines.len()
        invariant
            i <= lines@.len(),
            i % 3 == 0 || i == lines@.len(),
            lines@.map_values(|l: &str| l@) == ls,
            ls == split_lines(input@),
            okf == (|l: Seq<char>| sack_ok(l)),
            forall|j: int| 0 <= j < i ==> okf(ls[j]),
            groups@.map_values(|g: Group| g.rucksacks@.map_values(|rs: Rucksack| rs.contents@))
                == chunks3(ls.subrange(0, i as int)),
        decreases lines@.len() - i,
    {
        proof {
            assert(i % 3 == 0);
        }
        let stop = if i + 3 <= lines.len() {
            i + 3
        } else {
            lines.len()
        };
        let mut chunk: Vec<&str> = Vec::new();
        let mut j: usize = i;
        while j < stop
            invariant
                i <= j <= stop <= lines@.len(),
                lines@.map_values(|l: &str| l@) == ls,
                chunk@.len() == j - i,
                forall|m: int| 0 <= m < j - i ==> chunk@[m] == lines@[i + m],
            decreases stop - j,
        {
            chunk.push(lines[j]);
            j = j + 1;
        }
        let ghost chunk_lines = ls.subrange(i as int, stop as int);
        proof {
            assert(chunk@.map_values(|l: &str| l@) =~= chunk_lines);
        }
        let g = match Group::parse(chunk) {
            Ok(g) => g,
            Err(e) => {
                proof {
                    let badc = first_rejected(chunk_lines, okf) as int;
                    lemma_first_rejected(chunk_lines, okf);
                    assert(chunk_lines[badc] == ls[i + badc]);
                    assert forall|m: int| 0 <= m < i + badc implies okf(ls[m]) by {
                        if m >= i {
                            assert(chunk_lines[m - i] == ls[m]);
                            assert(okf(chunk_lines[m - i]));
                        }
                    }
                    lemma_first_rejected_is(ls, okf, i + badc);
                }
                return Err(e);
            },
        };
        proof {
            let prev = groups@.map_values(
                |g2: Group| g2.rucksacks@.map_values(|rs: Rucksack| rs.contents@),
            );
            assert(group_sets(&g) =~= chunk_lines);
        }
        groups.push(g);
        proof {
            let now = groups@.map_values(
                |g2: Group| g2.rucksacks@.map_values(|rs: Rucksack| rs.contents@),
            );
            assert(now =~= chunks3(ls.subrange(0, i as int)).push(group_sets(&g)));
            assert(ls.subrange(0, stop as int) =~= ls.subrange(0, i as int) + chunk_lines);
            lemma_chunks3_append(ls.subrange(0, i as int), chunk_lines);
            assert(chunks3(chunk_lines) =~= seq![chunk_lines]);
            assert(now =~= chunks3(ls.subrange(0, stop as int)));
            assert forall|m: int| 0 <= m < stop implies okf(ls[m]) by {
                if m >= i {
                    assert(chunk_lines[m - i] == ls[m]);
                    assert(okf(chunk_lines[m - i]));
                }
            }
        }
        i = stop;
    }
    proof {
        lemma_first_rejected_is(ls, okf, ls.len() as int);
        assert(ls.subrange(0, ls.len() as int) =~= ls);
    }
    score_groups(&groups)
}

} // verus!
