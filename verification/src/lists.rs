//! Two columns of numbers: how far apart they are, and how alike.

use crate::text::{from_num_str, lines, number, run, scan, split_lines, trim, trimmed, views, Class};
use std::collections::HashMap;
use vstd::pervasive::unreached;
use vstd::prelude::*;
use vstd::seq_lib::{to_multiset_build, to_multiset_insert};
use vstd::slice::slice_subrange;
use vstd::string::*;

verus! {

/// The two columns.  A well-formed value holds each in rising order.
#[derive(Debug)]
pub struct ParsedLists {
    pub left: Vec<usize>,
    pub right: Vec<usize>,
}

/// Why a text is not two columns of numbers.
#[derive(Clone, Copy, Debug, PartialEq, Eq, Structural)]
pub enum ListError {
    /// The line `line` holds no space.
    NoSpace { line: usize },
    /// What stands before the first space of the line `line`, or what
    /// stands after it, is no number.
    BadNumber { line: usize },
}

/// The numbers of `s` rise, or stay, from each to the next.
pub open spec fn sorted(s: Seq<usize>) -> bool {
    forall|i: int, j: int| 0 <= i <= j < s.len() ==> s[i] <= s[j]
}

impl ParsedLists {
    /// Each of the two columns is in rising order.
    pub open spec fn wf(&self) -> bool {
        sorted(self.left@) && sorted(self.right@)
    }

    /// Tells whether each of the two columns is in rising order.
    pub fn is_well_formed(&self) -> (r: bool)
        ensures
            r == self.wf(),
    {
        is_sorted(&self.left) && is_sorted(&self.right)
    }
}

/// Tells whether the numbers of `list` rise, or stay, from each to the
/// next.
pub fn is_sorted(list: &Vec<usize>) -> (r: bool)
    ensures
        r == sorted(list@),
{
    let mut i: usize = 1;
    while i < list.len()
        invariant
            1 <= i,
            forall|a: int, b: int| 0 <= a <= b < i && b < list@.len() ==> list@[a] <= list@[b],
        decreases list@.len() - i,
    {
        if list[i - 1] > list[i] {
            return false;
        }
        i = i + 1;
    }
    true
}

/// Puts the numbers of `v` in rising order.
pub fn sort(v: &mut Vec<usize>)
    ensures
        sorted(final(v)@),
        final(v)@.to_multiset() == old(v)@.to_multiset(),
{
    let mut out: Vec<usize> = Vec::new();
    let mut i: usize = 0;
    assert(v@.take(0) =~= out@);
    while i < v.len()
        invariant
            i <= v@.len(),
            sorted(out@),
            out@.to_multiset() == v@.take(i as int).to_multiset(),
        decreases v@.len() - i,
    {
        let x = v[i];
        let mut at: usize = 0;
        while at < out.len() && out[at] <= x
            invariant
                at <= out@.len(),
                forall|j: int| 0 <= j < at ==> out@[j] <= x,
            decreases out@.len() - at,
        {
            at = at + 1;
        }
        proof {
            to_multiset_insert(out@, at as int, x);
            to_multiset_build(v@.take(i as int), x);
            assert(v@.take(i + 1) =~= v@.take(i as int).push(x));
        }
        let ghost before = out@;
        out.insert(at, x);
        assert forall|a: int, b: int| 0 <= a <= b < out@.len() implies out@[a] <= out@[b] by {
            let pa = if a < at { a } else { a - 1 };
            let pb = if b < at { b } else { b - 1 };
            if a != at && b != at {
                assert(out@[a] == before[pa] && out@[b] == before[pb]);
            } else if a == at && b != at {
                assert(out@[b] == before[pb]);
                assert(before[at as int] <= before[pb]);
            } else if b == at && a != at {
                assert(out@[a] == before[pa]);
            }
        }
        i = i + 1;
    }
    assert(v@.take(i as int) =~= v@);
    *v = out;
}

/// The two numbers on `line`: what stands before its first space and what
/// stands after it, each without the blanks at its ends.  `None` where one
/// of the two is no number.
pub open spec fn pair_on(line: Seq<u8>) -> Option<(usize, usize)> {
    let k = run(line, Class::Space, false) as int;
    match (number(trimmed(line.take(k))), number(trimmed(line.skip(k + 1)))) {
        (Ok(l), Ok(r)) => Some((l, r)),
        _ => None,
    }
}

/// The two columns read from the first `n` of `rows`, or what is wrong
/// with the first row that holds no space or no two numbers.
pub open spec fn columns(rows: Seq<Seq<u8>>, n: nat) -> Result<(Seq<usize>, Seq<usize>), ListError>
    decreases n,
{
    if n == 0 {
        Ok((Seq::empty(), Seq::empty()))
    } else {
        match columns(rows, (n - 1) as nat) {
            Err(e) => Err(e),
            Ok((left, right)) => {
                let line = rows[n - 1];
                if run(line, Class::Space, false) >= line.len() {
                    Err(ListError::NoSpace { line: (n - 1) as usize })
                } else {
                    match pair_on(line) {
                        Some((l, r)) => Ok((left.push(l), right.push(r))),
                        None => Err(ListError::BadNumber { line: (n - 1) as usize }),
                    }
                }
            },
        }
    }
}

/// Once reading the rows has failed, later rows change nothing.
pub proof fn lemma_columns_fail(rows: Seq<Seq<u8>>, n: nat, m: nat)
    requires
        n <= m,
        columns(rows, n) is Err,
    ensures
        columns(rows, m) == columns(rows, n),
    decreases m,
{
    if n < m {
        lemma_columns_fail(rows, n, (m - 1) as nat);
    }
}

/// Reads two columns of numbers, one pair on each line with at least one
/// space between the two, and puts each column in rising order.
pub fn parse_input(raw_text: &str) -> (r: Result<ParsedLists, ListError>)
    ensures
        match columns(lines(raw_text.spec_bytes()), lines(raw_text.spec_bytes()).len()) {
            Ok((left, right)) => {
                &&& r matches Ok(lists)
                &&& lists.wf()
                &&& lists.left@.to_multiset() == left.to_multiset()
                &&& lists.right@.to_multiset() == right.to_multiset()
            },
            Err(e) => r matches Err(err) && err == e,
        },
{
    let rows = split_lines(raw_text.as_bytes());
    let mut left: Vec<usize> = Vec::new();
    let mut right: Vec<usize> = Vec::new();
    let mut i: usize = 0;
    while i < rows.len()
        invariant
            views(rows@) == lines(raw_text.spec_bytes()),
            i <= rows@.len(),
            columns(views(rows@), i as nat) == Ok::<(Seq<usize>, Seq<usize>), ListError>(
                (left@, right@),
            ),
        decreases rows@.len() - i,
    {
        let line = rows[i].as_slice();
        assert(views(rows@)[i as int] == line@);
        let k = scan(line, 0, Class::Space, false);
        assert(line@.skip(0) =~= line@);
        if k >= line.len() {
            proof {
                lemma_columns_fail(views(rows@), (i + 1) as nat, rows@.len());
            }
            return Err(ListError::NoSpace { line: i });
        }
        let l = from_num_str(trim(slice_subrange(line, 0, k)));
        let r = from_num_str(trim(slice_subrange(line, k + 1, line.len())));
        assert(line@.subrange(0, k as int) =~= line@.take(k as int));
        assert(line@.subrange(k + 1, line@.len() as int) =~= line@.skip(k + 1));
        match (l, r) {
            (Ok(l_u), Ok(r_u)) => {
                left.push(l_u);
                right.push(r_u);
            },
            _ => {
                proof {
                    lemma_columns_fail(views(rows@), (i + 1) as nat, rows@.len());
                }
                return Err(ListError::BadNumber { line: i });
            },
        }
        i = i + 1;
    }
    let ghost unsorted_left = left@;
    let ghost unsorted_right = right@;
    sort(&mut left);
    sort(&mut right);
    Ok(ParsedLists { left, right })
}

/// How far `a` and `b` are apart.
pub open spec fn gap(a: usize, b: usize) -> nat {
    if a > b {
        (a - b) as nat
    } else {
        (b - a) as nat
    }
}

/// The sum of the gaps between the first `n` pairs of `left` and `right`.
pub open spec fn total_distance(left: Seq<usize>, right: Seq<usize>, n: nat) -> nat
    decreases n,
{
    if n == 0 {
        0
    } else {
        total_distance(left, right, (n - 1) as nat) + gap(left[n - 1], right[n - 1])
    }
}

/// The sum over more pairs is no smaller.
pub proof fn lemma_total_distance_grows(left: Seq<usize>, right: Seq<usize>, n: nat, m: nat)
    requires
        n <= m,
    ensures
        total_distance(left, right, n) <= total_distance(left, right, m),
    decreases m,
{
    if n < m {
        lemma_total_distance_grows(left, right, n, (m - 1) as nat);
    }
}

/// How many pairs the two columns make.
pub open spec fn pairs(left: Seq<usize>, right: Seq<usize>) -> nat {
    if left.len() < right.len() {
        left.len()
    } else {
        right.len()
    }
}

/// The sum of the gaps between the pairs of the two columns, or `None`
/// where that sum is above `usize::MAX`.
pub fn checked_calc_part_1(parsed_lists: &ParsedLists) -> (r: Option<usize>)
    ensures
        ({
            let total = total_distance(
                parsed_lists.left@,
                parsed_lists.right@,
                pairs(parsed_lists.left@, parsed_lists.right@),
            );
            r == if total <= usize::MAX {
                Some(total as usize)
            } else {
                None
            }
        }),
{
    let n = if parsed_lists.left.len() < parsed_lists.right.len() {
        parsed_lists.left.len()
    } else {
        parsed_lists.right.len()
    };
    let mut sum: usize = 0;
    let mut i: usize = 0;
    while i < n
        invariant
            i <= n,
            n == pairs(parsed_lists.left@, parsed_lists.right@),
            sum == total_distance(parsed_lists.left@, parsed_lists.right@, i as nat),
        decreases n - i,
    {
        let l = parsed_lists.left[i];
        let r = parsed_lists.right[i];
        let d = if l > r {
            l - r
        } else {
            r - l
        };
        match sum.checked_add(d) {
            Some(s) => {
                sum = s;
            },
            None => {
                proof {
                    lemma_total_distance_grows(
                        parsed_lists.left@,
                        parsed_lists.right@,
                        (i + 1) as nat,
                        n as nat,
                    );
                }
                return None;
            },
        }
        i = i + 1;
    }
    Some(sum)
}

/// The sum of the gaps between the pairs of the two columns.
pub fn calc_part_1(parsed_lists: &ParsedLists) -> (r: usize)
    requires
        total_distance(
            parsed_lists.left@,
            parsed_lists.right@,
            pairs(parsed_lists.left@, parsed_lists.right@),
        ) <= usize::MAX,
    ensures
        r == total_distance(
            parsed_lists.left@,
            parsed_lists.right@,
            pairs(parsed_lists.left@, parsed_lists.right@),
        ),
{
    match checked_calc_part_1(parsed_lists) {
        Some(total) => total,
        None => unreached(),
    }
}

/// How often `x` stands among the first `n` numbers of `s`.
pub open spec fn occurrences(s: Seq<usize>, x: usize, n: nat) -> nat
    decreases n,
{
    if n == 0 {
        0
    } else {
        occurrences(s, x, (n - 1) as nat) + if s[n - 1] == x {
            1nat
        } else {
            0nat
        }
    }
}

/// The sum, over the first `n` numbers of `left`, of the number times how
/// often it stands in `right`.
pub open spec fn similarity(left: Seq<usize>, right: Seq<usize>, n: nat) -> nat
    decreases n,
{
    if n == 0 {
        0
    } else {
        similarity(left, right, (n - 1) as nat) + left[n - 1] as nat * occurrences(
            right,
            left[n - 1],
            right.len(),
        )
    }
}

/// The sum over more numbers is no smaller.
pub proof fn lemma_similarity_grows(left: Seq<usize>, right: Seq<usize>, n: nat, m: nat)
    requires
        n <= m,
    ensures
        similarity(left, right, n) <= similarity(left, right, m),
    decreases m,
{
    if n < m {
        lemma_similarity_grows(left, right, n, (m - 1) as nat);
        assert(0 <= left[m - 1] * occurrences(right, left[m - 1], right.len()))
            by (nonlinear_arith);
    }
}

/// Where `x` stands at none of the places from `n` up to `m`, it stands
/// among the first `m` numbers as often as among the first `n`.
pub proof fn lemma_occurrences_rest(s: Seq<usize>, x: usize, n: nat, m: nat)
    requires
        n <= m <= s.len(),
        forall|j: int| n <= j < m ==> s[j] != x,
    ensures
        occurrences(s, x, m) == occurrences(s, x, n),
    decreases m,
{
    if n < m {
        lemma_occurrences_rest(s, x, n, (m - 1) as nat);
    }
}

/// How long each run of equal numbers in `right` is, under the number of
/// the run.
pub fn count_runs(right: &Vec<usize>) -> (lookup: HashMap<usize, usize>)
    requires
        sorted(right@),
    ensures
        forall|v: usize| lookup@.contains_key(v) <==> right@.contains(v),
        forall|v: usize| #[trigger]
            lookup@.contains_key(v) ==> lookup@[v] == occurrences(right@, v, right@.len()),
{
    broadcast use vstd::std_specs::hash::group_hash_axioms;

    let mut right_count_lookup: HashMap<usize, usize> = HashMap::new();
    if right.len() == 0 {
        return right_count_lookup;
    }
    let mut cur = right[0];
    let mut count: usize = 1;
    let mut i: usize = 1;
    proof {
        reveal_with_fuel(occurrences, 2);
    }
    while i < right.len()
        invariant
            sorted(right@),
            1 <= i <= right@.len(),
            1 <= count <= i,
            cur == right@[i - 1],
            count == occurrences(right@, cur, i as nat),
            forall|v: usize| #[trigger]
                right_count_lookup@.contains_key(v) ==> v < cur && right@.contains(v)
                    && right_count_lookup@[v] == occurrences(right@, v, right@.len()),
            forall|j: int|
                0 <= j < i && #[trigger] right@[j] != cur ==> right_count_lookup@.contains_key(
                    right@[j],
                ),
        decreases right@.len() - i,
    {
        let next = right[i];
        if next == cur {
            count = count + 1;
        } else {
            proof {
                lemma_occurrences_rest(right@, cur, i as nat, right@.len());
                lemma_occurrences_rest(right@, next, 0, i as nat);
            }
            right_count_lookup.insert(cur, count);
            cur = next;
            count = 1;
        }
        i = i + 1;
    }
    right_count_lookup.insert(cur, count);
    assert forall|v: usize| right@.contains(v) implies right_count_lookup@.contains_key(v) by {
        let j = choose|j: int| 0 <= j < right@.len() && right@[j] == v;
        assert(right@[j] == v);
    }
    right_count_lookup
}

/// The sum, over the left column, of each number times how often it
/// stands in the right column, or `None` where that sum is above
/// `usize::MAX`.
pub fn checked_calc_part_2(parsed_lists: &ParsedLists) -> (r: Option<usize>)
    requires
        parsed_lists.wf(),
    ensures
        ({
            let total = similarity(
                parsed_lists.left@,
                parsed_lists.right@,
                parsed_lists.left@.len(),
            );
            r == if total <= usize::MAX {
                Some(total as usize)
            } else {
                None
            }
        }),
{
    broadcast use vstd::std_specs::hash::group_hash_axioms;

    let right_count_lookup = count_runs(&parsed_lists.right);
    let mut total_similarity: usize = 0;
    let mut i: usize = 0;
    while i < parsed_lists.left.len()
        invariant
            i <= parsed_lists.left@.len(),
            forall|v: usize|
                right_count_lookup@.contains_key(v) <==> parsed_lists.right@.contains(v),
            forall|v: usize| #[trigger]
                right_count_lookup@.contains_key(v) ==> right_count_lookup@[v] == occurrences(
                    parsed_lists.right@,
                    v,
                    parsed_lists.right@.len(),
                ),
            total_similarity == similarity(parsed_lists.left@, parsed_lists.right@, i as nat),
        decreases parsed_lists.left@.len() - i,
    {
        let num = parsed_lists.left[i];
        proof {
            lemma_similarity_grows(
                parsed_lists.left@,
                parsed_lists.right@,
                (i + 1) as nat,
                parsed_lists.left@.len(),
            );
        }
        match right_count_lookup.get(&num) {
            Some(right_count) => {
                let next = match num.checked_mul(*right_count) {
                    Some(product) => total_similarity.checked_add(product),
                    None => None,
                };
                match next {
                    Some(s) => {
                        total_similarity = s;
                    },
                    None => {
                        return None;
                    },
                }
            },
            None => {
                proof {
                    lemma_occurrences_rest(
                        parsed_lists.right@,
                        num,
                        0,
                        parsed_lists.right@.len(),
                    );
                    assert(num * 0 == 0);
                }
            },
        }
        i = i + 1;
    }
    Some(total_similarity)
}

/// The sum, over the left column, of each number times how often it
/// stands in the right column.
pub fn calc_part_2(parsed_lists: &ParsedLists) -> (r: usize)
    requires
        parsed_lists.wf(),
        similarity(parsed_lists.left@, parsed_lists.right@, parsed_lists.left@.len())
            <= usize::MAX,
    ensures
        r == similarity(parsed_lists.left@, parsed_lists.right@, parsed_lists.left@.len()),
{
    match checked_calc_part_2(parsed_lists) {
        Some(total) => total,
        None => unreached(),
    }
}

} // verus!
