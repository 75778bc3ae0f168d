//! The report: the ranked pairs of an index, and the line written for each.

use crate::index::CorpusIndex;
use crate::overlap::{
    candidates, find_duplicates, is_candidate, lemma_intersection_bound, views_of, within_bounds,
    Candidate, Duplicate,
};
use crate::rank::{at_least, descending, in_rank_order, rank};
use vstd::prelude::*;
use vstd::string::StringExecFns;

verus! {

/// The records that a report on `model` holds: those of the pairs of
/// directories that share a fingerprint, and at least `min_intersection` of
/// them.
pub open spec fn reported(model: Map<Seq<char>, Set<u64>>, min_intersection: nat) -> Set<Candidate> {
    Set::new(|c: Candidate| is_candidate(model, c) && c.intersection >= min_intersection)
}

/// How often `c` occurs among the records of `s` with an intersection of at
/// least `min_intersection`.
pub proof fn lemma_at_least_count(s: Seq<Candidate>, min_intersection: nat, c: Candidate)
    ensures
        at_least(s, min_intersection).to_multiset().count(c) == if c.intersection
            >= min_intersection {
            s.to_multiset().count(c)
        } else {
            0
        },
    decreases s.len(),
{
    reveal(Seq::filter);
    let wanted = |c: Candidate| c.intersection >= min_intersection;
    if s.len() == 0 {
        vstd::seq_lib::to_multiset_contains(s, c);
        vstd::seq_lib::to_multiset_contains(s.filter(wanted), c);
    } else {
        let rest = s.drop_last();
        let x = s.last();
        lemma_at_least_count(rest, min_intersection, c);
        assert(s =~= rest.push(x));
        vstd::seq_lib::to_multiset_build(rest, x);
        vstd::seq_lib::to_multiset_build(rest.filter(wanted), x);
    }
}

/// A ranking of records in which nothing occurs twice holds each of them that
/// has an intersection of at least `min_intersection` once, and nothing else.
pub proof fn lemma_ranking_holds(
    found: Seq<Candidate>,
    ranking: Seq<Candidate>,
    min_intersection: nat,
)
    requires
        found.no_duplicates(),
        ranking.to_multiset() == at_least(found, min_intersection).to_multiset(),
    ensures
        ranking.no_duplicates(),
        forall|c: Candidate|
            ranking.contains(c) <==> found.contains(c) && c.intersection >= min_intersection,
{
    found.lemma_multiset_has_no_duplicates();
    assert forall|c: Candidate| ranking.to_multiset().contains(c) implies ranking.to_multiset().count(
        c,
    ) == 1 by {
        lemma_at_least_count(found, min_intersection, c);
        vstd::seq_lib::to_multiset_contains(found, c);
    }
    ranking.lemma_multiset_has_no_duplicates_conv();
    assert forall|c: Candidate|
        ranking.contains(c) <==> found.contains(c) && c.intersection >= min_intersection by {
        lemma_at_least_count(found, min_intersection, c);
        vstd::seq_lib::to_multiset_contains(found, c);
        vstd::seq_lib::to_multiset_contains(ranking, c);
    }
}

/// The report on `index`: every pair of directories that has at least
/// `min_intersection` fingerprints in common, and at least one, each pair
/// once; the larger intersection first.
pub fn ranked_duplicates(index: &CorpusIndex, min_intersection: usize) -> (ranking: Vec<Duplicate>)
    requires
        index.wf(),
    ensures
        in_rank_order(views_of(ranking@)),
        descending(views_of(ranking@)),
        views_of(ranking@).no_duplicates(),
        views_of(ranking@).to_set() == reported(index@, min_intersection as nat),
        forall|i: int| 0 <= i < ranking.len() ==> within_bounds(#[trigger] ranking[i]@),
{
    let found = find_duplicates(index);
    let ghost all = views_of(found@);
    let ranking = rank(found, min_intersection);
    proof {
        let r = views_of(ranking@);
        lemma_ranking_holds(all, r, min_intersection as nat);
        assert forall|c: Candidate| r.to_set().contains(c) <==> reported(
            index@,
            min_intersection as nat,
        ).contains(c) by {
            assert(all.to_set().contains(c) <==> candidates(index@).contains(c));
        }
        assert(r.to_set() =~= reported(index@, min_intersection as nat));
        index.lemma_well_formed();
        assert forall|i: int| 0 <= i < ranking.len() implies within_bounds(#[trigger] ranking[i]@) by {
            assert(r[i] == ranking[i]@);
            assert(r.to_set().contains(r[i]));
            lemma_intersection_bound(index@, ranking[i]@);
        }
    }
    ranking
}

/// The decimal digit `d` as a character.
pub open spec fn digit_char(d: nat) -> char {
    if d == 0 {
        '0'
    } else if d == 1 {
        '1'
    } else if d == 2 {
        '2'
    } else if d == 3 {
        '3'
    } else if d == 4 {
        '4'
    } else if d == 5 {
        '5'
    } else if d == 6 {
        '6'
    } else if d == 7 {
        '7'
    } else if d == 8 {
        '8'
    } else {
        '9'
    }
}

/// The number `n` written in decimal digits.
pub open spec fn decimal(n: nat) -> Seq<char>
    decreases n,
{
    if n < 10 {
        seq![digit_char(n)]
    } else {
        decimal(n / 10).push(digit_char(n % 10))
    }
}

/// The line of a record: both directories, each followed by the number of
/// its fingerprints, and the number of those they have in common.
pub open spec fn line_of(c: Candidate) -> Seq<char> {
    c.dir1 + seq![':', ' '] + decimal(c.dir1_files_number) + seq![' ', '-', ' '] + c.dir2 + seq![
        ':',
        ' ',
    ] + decimal(c.dir2_files_number) + seq![' ', '|', ' '] + decimal(c.intersection)
}

/// The digit `d` as text.
fn digit_text(d: usize) -> (text: &'static str)
    requires
        d < 10,
    ensures
        text@ == seq![digit_char(d as nat)],
{
    proof {
        reveal_strlit("0");
        reveal_strlit("1");
        reveal_strlit("2");
        reveal_strlit("3");
        reveal_strlit("4");
        reveal_strlit("5");
        reveal_strlit("6");
        reveal_strlit("7");
        reveal_strlit("8");
        reveal_strlit("9");
    }
    let text = if d == 0 {
        "0"
    } else if d == 1 {
        "1"
    } else if d == 2 {
        "2"
    } else if d == 3 {
        "3"
    } else if d == 4 {
        "4"
    } else if d == 5 {
        "5"
    } else if d == 6 {
        "6"
    } else if d == 7 {
        "7"
    } else if d == 8 {
        "8"
    } else {
        "9"
    };
    assert(text@ =~= seq![digit_char(d as nat)]);
    text
}

/// The number whose leading digits are those of `value` and whose further
/// digits are `lows`, the last of them the next.
spec fn with_lows(value: nat, lows: Seq<usize>) -> nat
    decreases lows.len(),
{
    if lows.len() == 0 {
        value
    } else {
        with_lows(value * 10 + lows.last() as nat, lows.drop_last())
    }
}

/// Writes `n` in decimal digits at the end of `text`.
fn append_decimal(text: &mut String, n: usize)
    ensures
        final(text)@ == old(text)@ + decimal(n as nat),
{
    let mut lows: Vec<usize> = Vec::new();
    let mut rest: usize = n;
    while rest >= 10
        invariant
            forall|i: int| 0 <= i < lows.len() ==> lows[i] < 10,
            with_lows(rest as nat, lows@) == n,
            lows.len() > 0 ==> rest > 0,
        decreases rest,
    {
        proof {
            assert(lows@.push((rest % 10) as usize).drop_last() =~= lows@);
            assert((rest / 10) * 10 + rest % 10 == rest);
        }
        lows.push(rest % 10);
        rest = rest / 10;
    }
    let ghost start = text@;
    let ghost mut value: nat = rest as nat;
    text.append(digit_text(rest));
    proof {
        assert(text@ =~= start + decimal(value));
    }
    while lows.len() > 0
        invariant
            forall|i: int| 0 <= i < lows.len() ==> lows[i] < 10,
            with_lows(value, lows@) == n,
            lows.len() > 0 ==> value > 0,
            text@ == start + decimal(value),
        decreases lows.len(),
    {
        let ghost before = lows@;
        let d = lows.pop().unwrap();
        text.append(digit_text(d));
        proof {
            let next = value * 10 + d as nat;
            assert(d == before.last());
            assert(next / 10 == value && next % 10 == d as nat);
            assert(decimal(next) == decimal(value).push(digit_char(d as nat)));
            assert(text@ =~= start + decimal(next));
            value = next;
        }
    }
}

/// The line written for `duplicate`.
pub fn duplicate_line(duplicate: &Duplicate) -> (line: String)
    ensures
        line@ == line_of(duplicate@),
{
    proof {
        reveal_strlit(": ");
        reveal_strlit(" - ");
        reveal_strlit(" | ");
    }
    let mut line = duplicate.dir1.clone();
    line.append(": ");
    append_decimal(&mut line, duplicate.dir1_files_number);
    line.append(" - ");
    line.append(duplicate.dir2.as_str());
    line.append(": ");
    append_decimal(&mut line, duplicate.dir2_files_number);
    line.append(" | ");
    append_decimal(&mut line, duplicate.intersection);
    proof {
        assert(": "@ =~= seq![':', ' ']);
        assert(" - "@ =~= seq![' ', '-', ' ']);
        assert(" | "@ =~= seq![' ', '|', ' ']);
        assert(line@ =~= line_of(duplicate@));
    }
    line
}

/// The lines written for `duplicates`, one for each, in their order.
pub fn duplicate_lines(duplicates: &Vec<Duplicate>) -> (lines: Vec<String>)
    ensures
        lines.len() == duplicates.len(),
        forall|i: int| 0 <= i < lines.len() ==> (#[trigger] lines[i])@ == line_of(duplicates[i]@),
{
    let mut lines: Vec<String> = Vec::new();
    let mut n: usize = 0;
    while n < duplicates.len()
        invariant
            n <= duplicates.len(),
            lines.len() == n,
            forall|i: int| 0 <= i < n ==> (#[trigger] lines[i])@ == line_of(duplicates[i]@),
        decreases duplicates.len() - n,
    {
        lines.push(duplicate_line(&duplicates[n]));
        n = n + 1;
    }
    lines
}

} // verus!
