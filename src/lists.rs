//! Two location lists, read from lines of two numbers: the distance between
//! them once each is sorted, and their similarity.
use crate::text::{lines_fit, lines_of, parse_rows, rows_of, rows_view};
use vstd::prelude::*;
use vstd::relations::{sorted_by, total_ordering};
use vstd::seq_lib::{lemma_sorted_unique, to_multiset_build, to_multiset_insert};

verus! {

/// The order of `u64` values.
pub open spec fn le_u64() -> spec_fn(u64, u64) -> bool {
    |x: u64, y: u64| x <= y
}

/// `v` in ascending order.
pub open spec fn sorted_values(v: Seq<u64>) -> Seq<u64> {
    v.sort_by(le_u64())
}

proof fn lemma_le_u64_total()
    ensures
        total_ordering(le_u64()),
{
}

/// Sorts `v` into ascending order by inserting each value in turn.
pub fn sort_values(v: &Vec<u64>) -> (r: Vec<u64>)
    ensures
        r@ == sorted_values(v@),
{
    let mut out: Vec<u64> = Vec::new();
    let mut i: usize = 0;
    proof {
        assert(out@ =~= v@.take(0));
    }
    while i < v.len()
        invariant
            i <= v.len(),
            sorted_by(out@, le_u64()),
            out@.to_multiset() == v@.take(i as int).to_multiset(),
        decreases v.len() - i,
    {
        let x = v[i];
        let mut p: usize = 0;
        while p < out.len() && out[p] <= x
            invariant
                p <= out.len(),
                forall|k: int| 0 <= k < p ==> out[k] <= x,
            decreases out.len() - p,
        {
            p = p + 1;
        }
        let ghost before = out@;
        out.insert(p, x);
        proof {
            assert(out@ == before.insert(p as int, x));
            to_multiset_insert(before, p as int, x);
            assert(v@.take(i + 1) =~= v@.take(i as int).push(x));
            to_multiset_build(v@.take(i as int), x);
            assert forall|a: int, b: int| 0 <= a < b < out.len() implies #[trigger] (le_u64())(
                out[a],
                out[b],
            ) by {
                if b < p {
                    assert(le_u64()(before[a], before[b]));
                } else if b == p {
                    assert(out[a] == before[a]);
                } else if a < p {
                    assert(out[b] == before[b - 1]);
                    if p < before.len() {
                        assert(!(before[p as int] <= x));
                        assert(le_u64()(before[p as int], before[b - 1]) || p == b - 1);
                    }
                } else if a == p {
                    assert(out[b] == before[b - 1]);
                    assert(!(before[p as int] <= x));
                    assert(le_u64()(before[p as int], before[b - 1]) || p == b - 1);
                } else {
                    assert(le_u64()(before[a - 1], before[b - 1]));
                }
            }
        }
        i = i + 1;
    }
    proof {
        assert(v@.take(v.len() as int) =~= v@);
        lemma_le_u64_total();
        v@.lemma_sort_by_ensures(le_u64());
        lemma_sorted_unique(out@, sorted_values(v@), le_u64());
    }
    out
}

/// The left and right lists: the first and second number of each row that
/// holds exactly two.
pub open spec fn pairs_of(rows: Seq<Seq<nat>>) -> (Seq<u64>, Seq<u64>)
    decreases rows.len(),
{
    if rows.len() == 0 {
        (Seq::empty(), Seq::empty())
    } else {
        let (l, r) = pairs_of(rows.drop_last());
        let row = rows.last();
        if row.len() == 2 {
            (l.push(row[0] as u64), r.push(row[1] as u64))
        } else {
            (l, r)
        }
    }
}

/// The two lists of puzzle text `s`, or `None` when a number does not fit in
/// a `u64`.
pub open spec fn lists_of(s: Seq<char>) -> Option<(Seq<u64>, Seq<u64>)> {
    if lines_fit(lines_of(s)) {
        Some(pairs_of(rows_of(lines_of(s))))
    } else {
        None
    }
}

/// Reads the two lists from the lines of the puzzle text that hold exactly
/// two numbers.
pub fn parse_input(input: &str) -> (r: Option<(Vec<u64>, Vec<u64>)>)
    ensures
        r is Some <==> lists_of(input@) is Some,
        r matches Some((l, rr)) ==> lists_of(input@) == Some((l@, rr@)),
{
    let rows = match parse_rows(input) {
        Some(rows) => rows,
        None => {
            return None;
        },
    };
    let ghost rv = rows_view(rows@);
    let mut left: Vec<u64> = Vec::new();
    let mut right: Vec<u64> = Vec::new();
    let mut i: usize = 0;
    while i < rows.len()
        invariant
            i <= rows.len(),
            rv == rows_view(rows@),
            pairs_of(rv.take(i as int)) == (left@, right@),
        decreases rows.len() - i,
    {
        let row = &rows[i];
        proof {
            assert(rv.take(i + 1).drop_last() =~= rv.take(i as int));
            assert(rv.take(i + 1).last() == row@.map_values(|x: u64| x as nat));
        }
        if row.len() == 2 {
            left.push(row[0]);
            right.push(row[1]);
        }
        i = i + 1;
    }
    proof {
        assert(rv.take(rows.len() as int) =~= rv);
    }
    Some((left, right))
}

/// The distance of `x` and `y`.
pub open spec fn gap(x: u64, y: u64) -> nat {
    if x >= y {
        (x - y) as nat
    } else {
        (y - x) as nat
    }
}

/// The sum of the gaps between `a[i]` and `b[i]` for `i` below `n`.
pub open spec fn distance_upto(a: Seq<u64>, b: Seq<u64>, n: nat) -> nat
    decreases n,
{
    if n == 0 {
        0
    } else {
        distance_upto(a, b, (n - 1) as nat) + gap(a[n - 1], b[n - 1])
    }
}

/// The sum of the gaps between the values of `a` and `b` at equal
/// positions, as far as both go.
pub open spec fn distance(a: Seq<u64>, b: Seq<u64>) -> nat {
    distance_upto(a, b, if a.len() <= b.len() {
        a.len()
    } else {
        b.len()
    })
}

proof fn lemma_distance_grows(a: Seq<u64>, b: Seq<u64>, m: nat, n: nat)
    requires
        m <= n,
    ensures
        distance_upto(a, b, m) <= distance_upto(a, b, n),
    decreases n - m,
{
    if m < n {
        lemma_distance_grows(a, b, m, (n - 1) as nat);
    }
}

/// The distance of `a` and `b`, or `None` when it exceeds `u64`.
pub fn total_distance(a: &Vec<u64>, b: &Vec<u64>) -> (r: Option<u64>)
    ensures
        r == if distance(a@, b@) <= u64::MAX {
            Some(distance(a@, b@) as u64)
        } else {
            None::<u64>
        },
{
    let n = if a.len() <= b.len() {
        a.len()
    } else {
        b.len()
    };
    let mut sum: u64 = 0;
    let mut i: usize = 0;
    while i < n
        invariant
            n <= a.len(),
            n <= b.len(),
            n == if a.len() <= b.len() {
                a.len()
            } else {
                b.len()
            },
            i <= n,
            sum == distance_upto(a@, b@, i as nat),
        decreases n - i,
    {
        let g = if a[i] >= b[i] {
            a[i] - b[i]
        } else {
            b[i] - a[i]
        };
        if sum > u64::MAX - g {
            proof {
                lemma_distance_grows(a@, b@, (i + 1) as nat, n as nat);
            }
            return None;
        }
        sum = sum + g;
        i = i + 1;
    }
    Some(sum)
}

/// How many times `x` occurs in `s`.
pub open spec fn occurrences(s: Seq<u64>, x: u64) -> nat
    decreases s.len(),
{
    if s.len() == 0 {
        0
    } else {
        occurrences(s.drop_last(), x) + if s.last() == x {
            1nat
        } else {
            0nat
        }
    }
}

/// Counts the occurrences of `x` in `s`.
pub fn count_occurrences(s: &Vec<u64>, x: u64) -> (r: usize)
    ensures
        r == occurrences(s@, x),
{
    let mut n: usize = 0;
    let mut i: usize = 0;
    while i < s.len()
        invariant
            i <= s.len(),
            n <= i,
            n == occurrences(s@.take(i as int), x),
        decreases s.len() - i,
    {
        proof {
            assert(s@.take(i + 1).drop_last() =~= s@.take(i as int));
        }
        if s[i] == x {
            n = n + 1;
        }
        i = i + 1;
    }
    proof {
        assert(s@.take(s.len() as int) =~= s@);
    }
    n
}

/// The sum, over the values `x` of `left` taken in turn, of `x` times the
/// number of its occurrences in `right`.
pub open spec fn similarity(left: Seq<u64>, right: Seq<u64>) -> nat
    decreases left.len(),
{
    if left.len() == 0 {
        0
    } else {
        similarity(left.drop_last(), right) + (left.last() * occurrences(right, left.last())) as nat
    }
}

proof fn lemma_similarity_grows(left: Seq<u64>, right: Seq<u64>, m: int, n: int)
    requires
        0 <= m <= n <= left.len(),
    ensures
        similarity(left.take(m), right) <= similarity(left.take(n), right),
    decreases n - m,
{
    if m < n {
        lemma_similarity_grows(left, right, m, n - 1);
        assert(left.take(n).drop_last() =~= left.take(n - 1));
    }
}

/// The similarity of the lists, or `None` when it exceeds `u64`.
pub fn similarity_score(left: &Vec<u64>, right: &Vec<u64>) -> (r: Option<u64>)
    ensures
        r == if similarity(left@, right@) <= u64::MAX {
            Some(similarity(left@, right@) as u64)
        } else {
            None::<u64>
        },
{
    let mut sum: u64 = 0;
    let mut i: usize = 0;
    while i < left.len()
        invariant
            i <= left.len(),
            sum == similarity(left@.take(i as int), right@),
        decreases left.len() - i,
    {
        let x = left[i];
        let c = count_occurrences(right, x);
        proof {
            assert(left@.take(i + 1).drop_last() =~= left@.take(i as int));
            lemma_similarity_grows(left@, right@, i + 1, left.len() as int);
            assert(left@.take(left.len() as int) =~= left@);
        }
        let term = match x.checked_mul(c as u64) {
            Some(t) => t,
            None => {
                return None;
            },
        };
        if sum > u64::MAX - term {
            return None;
        }
        sum = sum + term;
        i = i + 1;
    }
    proof {
        assert(left@.take(left.len() as int) =~= left@);
    }
    Some(sum)
}

/// A total as the answer type, `None` when it does not fit.
pub open spec fn answer(n: nat) -> Option<u32> {
    if n <= u32::MAX {
        Some(n as u32)
    } else {
        None
    }
}

/// The distance between the two lists of the puzzle text once each is
/// sorted.
pub fn part_one(input: &str) -> (r: Option<u32>)
    ensures
        r == match lists_of(input@) {
            Some((l, rr)) => answer(distance(sorted_values(l), sorted_values(rr))),
            None => None,
        },
{
    let (left, right) = match parse_input(input) {
        Some(p) => p,
        None => {
            return None;
        },
    };
    let left = sort_values(&left);
    let right = sort_values(&right);
    match total_distance(&left, &right) {
        Some(d) => if d <= u32::MAX as u64 {
            Some(d as u32)
        } else {
            None
        },
        None => None,
    }
}

/// The similarity of the two lists of the puzzle text.
pub fn part_two(input: &str) -> (r: Option<u32>)
    ensures
        r == match lists_of(input@) {
            Some((l, rr)) => answer(similarity(l, rr)),
            None => None,
        },
{
    let (left, right) = match parse_input(input) {
        Some(p) => p,
        None => {
            return None;
        },
    };
    match similarity_score(&left, &right) {
        Some(d) => if d <= u32::MAX as u64 {
            Some(d as u32)
        } else {
            None
        },
        None => None,
    }
}

} // verus!
