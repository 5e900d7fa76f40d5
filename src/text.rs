use crate::puzzle::{all_fit, chars_of, numbers_in, parse_numbers};
use vstd::prelude::*;

verus! {

/// The lines of `s`: the pieces between newline characters, the last one
/// possibly empty.
pub open spec fn lines_of(s: Seq<char>) -> Seq<Seq<char>>
    decreases s.len(),
{
    if s.len() == 0 {
        seq![Seq::empty()]
    } else {
        let ls = lines_of(s.drop_last());
        if s.last() == '\n' {
            ls.push(Seq::empty())
        } else {
            ls.update(ls.len() - 1, ls.last().push(s.last()))
        }
    }
}

proof fn lemma_lines_nonempty(s: Seq<char>)
    ensures
        lines_of(s).len() >= 1,
    decreases s.len(),
{
    if s.len() > 0 {
        lemma_lines_nonempty(s.drop_last());
    }
}

/// Splits `s` at its newline characters.
pub fn split_lines(s: &Vec<char>) -> (r: Vec<Vec<char>>)
    ensures
        r@.map_values(|l: Vec<char>| l@) == lines_of(s@),
{
    let mut done: Vec<Vec<char>> = Vec::new();
    let mut cur: Vec<char> = Vec::new();
    let mut i: usize = 0;
    while i < s.len()
        invariant
            i <= s.len(),
            done@.map_values(|l: Vec<char>| l@).push(cur@) == lines_of(s@.take(i as int)),
        decreases s.len() - i,
    {
        let c = s[i];
        let ghost before = done@.map_values(|l: Vec<char>| l@).push(cur@);
        proof {
            assert(s@.take(i + 1).drop_last() =~= s@.take(i as int));
        }
        if c == '\n' {
            let line = cur;
            done.push(line);
            cur = Vec::new();
            proof {
                assert(done@.map_values(|l: Vec<char>| l@).push(cur@) =~= before.push(Seq::empty()));
            }
        } else {
            cur.push(c);
            proof {
                assert(done@.map_values(|l: Vec<char>| l@).push(cur@) =~= before.update(
                    before.len() - 1,
                    before.last().push(c),
                ));
            }
        }
        i = i + 1;
    }
    done.push(cur);
    proof {
        assert(s@.take(s.len() as int) =~= s@);
    }
    done
}

/// The numbers of each line of `lines` that holds at least one, line by line.
pub open spec fn rows_of(lines: Seq<Seq<char>>) -> Seq<Seq<nat>>
    decreases lines.len(),
{
    if lines.len() == 0 {
        Seq::empty()
    } else {
        let rows = rows_of(lines.drop_last());
        let ns = numbers_in(lines.last());
        if ns.len() == 0 {
            rows
        } else {
            rows.push(ns)
        }
    }
}

/// Every number on every line of `lines` fits in a `u64`.
pub open spec fn lines_fit(lines: Seq<Seq<char>>) -> bool {
    forall|i: int| 0 <= i < lines.len() ==> all_fit(numbers_in(#[trigger] lines[i]))
}

/// `rows` as sequences of natural numbers.
pub open spec fn rows_view(rows: Seq<Vec<u64>>) -> Seq<Seq<nat>> {
    rows.map_values(|r: Vec<u64>| r@.map_values(|x: u64| x as nat))
}

/// The numbers of each line of `input` that holds any, line by line; `None`
/// when one does not fit in a `u64`.
pub fn parse_rows(input: &str) -> (r: Option<Vec<Vec<u64>>>)
    ensures
        r is Some <==> lines_fit(lines_of(input@)),
        r matches Some(rows) ==> rows_view(rows@) == rows_of(lines_of(input@)),
{
    let chars = chars_of(input);
    let lines = split_lines(&chars);
    let ghost ls = lines_of(input@);
    let mut rows: Vec<Vec<u64>> = Vec::new();
    let mut i: usize = 0;
    while i < lines.len()
        invariant
            i <= lines.len(),
            lines@.map_values(|l: Vec<char>| l@) == ls,
            ls == lines_of(input@),
            lines_fit(ls.take(i as int)),
            rows_view(rows@) == rows_of(ls.take(i as int)),
        decreases lines.len() - i,
    {
        assert(lines@.map_values(|l: Vec<char>| l@)[i as int] == lines[i as int]@);
        let ns = match parse_numbers(&lines[i]) {
            Some(v) => v,
            None => {
                proof {
                    assert(!all_fit(numbers_in(ls[i as int])));
                    assert(!lines_fit(ls));
                }
                return None;
            },
        };
        let ghost before = rows@;
        proof {
            assert(ls.take(i + 1).drop_last() =~= ls.take(i as int));
            assert(ls.take(i + 1).last() == ls[i as int]);
        }
        if ns.len() > 0 {
            rows.push(ns);
            proof {
                assert(rows_view(rows@) =~= rows_view(before).push(numbers_in(ls[i as int])));
            }
        } else {
            proof {
                assert(numbers_in(ls[i as int]).len() == 0);
            }
        }
        i = i + 1;
        proof {
            assert forall|k: int| 0 <= k < ls.take(i as int).len() implies all_fit(
                numbers_in(#[trigger] ls.take(i as int)[k]),
            ) by {
                if k < i - 1 {
                    assert(ls.take(i as int)[k] == ls.take(i - 1)[k]);
                }
            }
        }
    }
    proof {
        assert(ls.take(lines.len() as int) =~= ls);
        assert(lines_fit(ls));
    }
    Some(rows)
}

} // verus!
