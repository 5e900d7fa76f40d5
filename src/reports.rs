//! Reactor reports: a report is a line of levels, and it is safe when the
//! levels only rise or only fall, each step by 1 to 3.
use crate::text::{lines_fit, lines_of, parse_rows, rows_of, rows_view};
use vstd::prelude::*;

verus! {

/// The levels of a report as natural numbers.
pub open spec fn levels(r: Seq<u64>) -> Seq<nat> {
    r.map_values(|x: u64| x as nat)
}

/// Each level is 1 to 3 above the one before it.
pub open spec fn rises_gently(r: Seq<nat>) -> bool {
    forall|i: int| 0 <= i < r.len() - 1 ==> #[trigger] r[i] < r[i + 1] <= r[i] + 3
}

/// Each level is 1 to 3 below the one before it.
pub open spec fn falls_gently(r: Seq<nat>) -> bool {
    forall|i: int| 0 <= i < r.len() - 1 ==> #[trigger] r[i + 1] < r[i] <= r[i + 1] + 3
}

/// A safe report only rises or only falls, by 1 to 3 each step. One with
/// fewer than two levels is safe.
pub open spec fn is_safe(r: Seq<nat>) -> bool {
    rises_gently(r) || falls_gently(r)
}

/// A report that is safe, or becomes safe when one level is taken out.
pub open spec fn is_safe_dampened(r: Seq<nat>) -> bool {
    is_safe(r) || exists|i: int| 0 <= i < r.len() && #[trigger] is_safe(r.remove(i))
}

/// How many of `rows` are safe.
pub open spec fn count_safe(rows: Seq<Seq<nat>>) -> nat
    decreases rows.len(),
{
    if rows.len() == 0 {
        0
    } else {
        count_safe(rows.drop_last()) + if is_safe(rows.last()) {
            1nat
        } else {
            0nat
        }
    }
}

/// How many of `rows` are safe once one level may be taken out.
pub open spec fn count_safe_dampened(rows: Seq<Seq<nat>>) -> nat
    decreases rows.len(),
{
    if rows.len() == 0 {
        0
    } else {
        count_safe_dampened(rows.drop_last()) + if is_safe_dampened(rows.last()) {
            1nat
        } else {
            0nat
        }
    }
}

proof fn lemma_rises_extend(q: Seq<nat>)
    requires
        q.len() >= 2,
    ensures
        rises_gently(q) == (rises_gently(q.drop_last()) && q[q.len() - 2] < q[q.len() - 1] <= q[q.len() - 2] + 3),
{
    let p = q.drop_last();
    if rises_gently(q) {
        assert(q[q.len() - 2] < q[q.len() - 2 + 1] <= q[q.len() - 2] + 3);
        assert forall|j: int| 0 <= j < p.len() - 1 implies #[trigger] p[j] < p[j + 1] <= p[j] + 3 by {
            assert(q[j] < q[j + 1] <= q[j] + 3);
        }
    }
    if rises_gently(p) && q[q.len() - 2] < q[q.len() - 1] <= q[q.len() - 2] + 3 {
        assert forall|j: int| 0 <= j < q.len() - 1 implies #[trigger] q[j] < q[j + 1] <= q[j] + 3 by {
            if j < q.len() - 2 {
                assert(p[j] < p[j + 1] <= p[j] + 3);
            }
        }
    }
}

proof fn lemma_falls_extend(q: Seq<nat>)
    requires
        q.len() >= 2,
    ensures
        falls_gently(q) == (falls_gently(q.drop_last()) && q[q.len() - 1] < q[q.len() - 2] <= q[q.len() - 1] + 3),
{
    let p = q.drop_last();
    if falls_gently(q) {
        assert(q[q.len() - 2 + 1] < q[q.len() - 2] <= q[q.len() - 2 + 1] + 3);
        assert forall|j: int| 0 <= j < p.len() - 1 implies #[trigger] p[j + 1] < p[j] <= p[j + 1] + 3 by {
            assert(q[j + 1] < q[j] <= q[j + 1] + 3);
        }
    }
    if falls_gently(p) && q[q.len() - 1] < q[q.len() - 2] <= q[q.len() - 1] + 3 {
        assert forall|j: int| 0 <= j < q.len() - 1 implies #[trigger] q[j + 1] < q[j] <= q[j + 1] + 3 by {
            if j < q.len() - 2 {
                assert(p[j + 1] < p[j] <= p[j + 1] + 3);
            }
        }
    }
}

/// Whether `report` is safe.
pub fn is_valid(report: &Vec<u64>) -> (r: bool)
    ensures
        r == is_safe(levels(report@)),
{
    let ghost l = levels(report@);
    let mut up = true;
    let mut down = true;
    let mut i: usize = 1;
    if report.len() == 0 {
        return true;
    }
    while i < report.len()
        invariant
            1 <= i <= report.len(),
            l == levels(report@),
            up == rises_gently(l.take(i as int)),
            down == falls_gently(l.take(i as int)),
        decreases report.len() - i,
    {
        let x = report[i - 1];
        let y = report[i];
        let ghost p = l.take(i as int);
        let ghost q = l.take(i + 1);
        assert(q[i - 1] == x && q[i as int] == y);
        if !(x < y && y - x <= 3) {
            up = false;
        }
        if !(y < x && x - y <= 3) {
            down = false;
        }
        proof {
            assert(p =~= q.drop_last());
            lemma_rises_extend(q);
            lemma_falls_extend(q);
        }
        i = i + 1;
    }
    proof {
        assert(l.take(i as int) =~= l);
    }
    up || down
}

/// Whether `report` is safe, or becomes safe when one level is taken out.
pub fn is_valid_dampened(report: &Vec<u64>) -> (r: bool)
    ensures
        r == is_safe_dampened(levels(report@)),
{
    if is_valid(report) {
        return true;
    }
    let ghost l = levels(report@);
    let mut i: usize = 0;
    while i < report.len()
        invariant
            i <= report.len(),
            l == levels(report@),
            forall|j: int| 0 <= j < i ==> !#[trigger] is_safe(l.remove(j)),
        decreases report.len() - i,
    {
        let mut smaller = report.clone();
        smaller.remove(i);
        proof {
            assert(levels(smaller@) =~= l.remove(i as int));
        }
        if is_valid(&smaller) {
            return true;
        }
        i = i + 1;
    }
    false
}

/// Counts the rows that `dampened` says are safe, by the first or second rule.
fn count_reports(rows: &Vec<Vec<u64>>, dampened: bool) -> (r: usize)
    ensures
        r == if dampened {
            count_safe_dampened(rows_view(rows@))
        } else {
            count_safe(rows_view(rows@))
        },
{
    let mut n: usize = 0;
    let mut i: usize = 0;
    while i < rows.len()
        invariant
            i <= rows.len(),
            n <= i,
            n == if dampened {
                count_safe_dampened(rows_view(rows@.take(i as int)))
            } else {
                count_safe(rows_view(rows@.take(i as int)))
            },
        decreases rows.len() - i,
    {
        let ok = if dampened {
            is_valid_dampened(&rows[i])
        } else {
            is_valid(&rows[i])
        };
        proof {
            let v = rows_view(rows@.take(i + 1));
            assert(v.drop_last() =~= rows_view(rows@.take(i as int)));
            assert(v.last() == levels(rows[i as int]@));
        }
        if ok {
            n = n + 1;
        }
        i = i + 1;
    }
    proof {
        assert(rows@.take(rows.len() as int) =~= rows@);
    }
    n
}

/// The reports of `s`: the numbers of each line that holds any.
pub open spec fn reports_of(s: Seq<char>) -> Option<Seq<Seq<nat>>> {
    if lines_fit(lines_of(s)) {
        Some(rows_of(lines_of(s)))
    } else {
        None
    }
}

/// Reads the reports of the puzzle text; `None` when a level does not fit
/// in a `u64`.
pub fn parse_input(input: &str) -> (r: Option<Vec<Vec<u64>>>)
    ensures
        r is Some <==> reports_of(input@) is Some,
        r matches Some(rows) ==> reports_of(input@) == Some(rows_view(rows@)),
{
    parse_rows(input)
}

/// A count as the answer type, `None` when it does not fit.
pub open spec fn answer(n: nat) -> Option<u32> {
    if n <= u32::MAX {
        Some(n as u32)
    } else {
        None
    }
}

/// How many reports of the puzzle text are safe.
pub fn part_one(input: &str) -> (r: Option<u32>)
    ensures
        r == match reports_of(input@) {
            Some(rows) => answer(count_safe(rows)),
            None => None,
        },
{
    let rows = match parse_input(input) {
        Some(rows) => rows,
        None => {
            return None;
        },
    };
    let n = count_reports(&rows, false);
    if n as u64 <= u32::MAX as u64 {
        Some(n as u32)
    } else {
        None
    }
}

/// How many reports of the puzzle text are safe once one level may be taken
/// out.
pub fn part_two(input: &str) -> (r: Option<u32>)
    ensures
        r == match reports_of(input@) {
            Some(rows) => answer(count_safe_dampened(rows)),
            None => None,
        },
{
    let rows = match parse_input(input) {
        Some(rows) => rows,
        None => {
            return None;
        },
    };
    let n = count_reports(&rows, true);
    if n as u64 <= u32::MAX as u64 {
        Some(n as u32)
    } else {
        None
    }
}

} // verus!
