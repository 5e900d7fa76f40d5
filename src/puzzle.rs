use itertools::Itertools;
use crate::machine::{decode_program, run_program, run_spec, Program, Registers};
use crate::synth::{synthesize, synthesize_spec};
use vstd::prelude::*;

verus! {

/// The characters of `s`, in order.
pub fn chars_of(s: &str) -> (r: Vec<char>)
    ensures
        r@ == s@,
{
    broadcast use vstd::string::group_string_axioms;

    let mut out: Vec<char> = Vec::new();
    for c in it: s.chars()
        invariant
            out@ == it.seq().take(it.index() as int),
            it.seq() == s@,
    {
        out.push(c);
    }
    out
}

/// The decimal digit `d`, for `d` below 10.
pub open spec fn digit_char(d: nat) -> char {
    ((d + 48) as u8) as char
}

/// `n` written in decimal, without leading zeros.
pub open spec fn decimal(n: nat) -> Seq<char>
    decreases n,
{
    if n < 10 {
        seq![digit_char(n)]
    } else {
        decimal(n / 10) + seq![digit_char(n % 10)]
    }
}

/// The values of `vs` in decimal, separated by commas.
pub open spec fn comma_joined(vs: Seq<u64>) -> Seq<char>
    decreases vs.len(),
{
    if vs.len() == 0 {
        Seq::empty()
    } else if vs.len() == 1 {
        decimal(vs[0] as nat)
    } else {
        comma_joined(vs.drop_last()) + seq![','] + decimal(vs.last() as nat)
    }
}

/// Relies on itertools' `Itertools::join`, which writes each item with its
/// `Display` (a `u64` in decimal) and puts the separator between items.
#[verifier::external_body]
fn join_commas(values: &Vec<u64>) -> (r: String)
    ensures
        r@ == comma_joined(values@),
{
    values.iter().join(",")
}

/// Whether `c` is an ASCII decimal digit.
pub open spec fn is_digit(c: char) -> bool {
    '0' <= c <= '9'
}

/// The value of digit `c`.
pub open spec fn digit_value(c: char) -> nat {
    (c as nat - '0' as nat) as nat
}

/// The values of the maximal runs of decimal digits in `s`, in order, and
/// whether `s` ends inside such a run.
pub open spec fn scan_numbers(s: Seq<char>) -> (Seq<nat>, bool)
    decreases s.len(),
{
    if s.len() == 0 {
        (Seq::empty(), false)
    } else {
        let (ns, inside) = scan_numbers(s.drop_last());
        let c = s.last();
        if !is_digit(c) {
            (ns, false)
        } else if inside {
            (ns.update(ns.len() - 1, ns.last() * 10 + digit_value(c)), true)
        } else {
            (ns.push(digit_value(c)), true)
        }
    }
}

/// The numbers written in decimal in `s`, in order.
pub open spec fn numbers_in(s: Seq<char>) -> Seq<nat> {
    scan_numbers(s).0
}

/// Every value of `ns` fits in a `u64`.
pub open spec fn all_fit(ns: Seq<nat>) -> bool {
    forall|i: int| 0 <= i < ns.len() ==> #[trigger] ns[i] <= u64::MAX
}

proof fn lemma_scan_inside_nonempty(s: Seq<char>)
    ensures
        scan_numbers(s).1 ==> scan_numbers(s).0.len() > 0,
    decreases s.len(),
{
    if s.len() > 0 {
        lemma_scan_inside_nonempty(s.drop_last());
    }
}

/// Scanning further never shortens the list of numbers nor lowers one.
proof fn lemma_scan_grows(s: Seq<char>, i: nat, j: nat)
    requires
        i <= j <= s.len(),
    ensures
        scan_numbers(s.take(i as int)).0.len() <= scan_numbers(s.take(j as int)).0.len(),
        forall|k: int|
            0 <= k < scan_numbers(s.take(i as int)).0.len() ==> #[trigger] scan_numbers(s.take(i as int)).0[k]
                <= scan_numbers(s.take(j as int)).0[k],
    decreases j - i,
{
    if i < j {
        lemma_scan_grows(s, i, (j - 1) as nat);
        let t = s.take(j as int);
        assert(t.drop_last() =~= s.take(j - 1));
        lemma_scan_inside_nonempty(s.take(j - 1));
    }
}

/// The numbers written in decimal in `s`, or `None` when one of them does
/// not fit in a `u64`.
pub fn parse_numbers(s: &Vec<char>) -> (r: Option<Vec<u64>>)
    ensures
        r is Some <==> all_fit(numbers_in(s@)),
        r matches Some(v) ==> v@.map_values(|x: u64| x as nat) == numbers_in(s@),
{
    let mut vals: Vec<u64> = Vec::new();
    let mut inside = false;
    let mut i: usize = 0;
    while i < s.len()
        invariant
            i <= s.len(),
            vals@.map_values(|x: u64| x as nat) == scan_numbers(s@.take(i as int)).0,
            inside == scan_numbers(s@.take(i as int)).1,
        decreases s.len() - i,
    {
        let c = s[i];
        proof {
            assert(s@.take(i + 1).drop_last() =~= s@.take(i as int));
            lemma_scan_inside_nonempty(s@.take(i as int));
        }
        if '0' <= c && c <= '9' {
            let d = (c as u32 - '0' as u32) as u64;
            if inside {
                let last = vals.len() - 1;
                let cur = vals[last];
                if cur > (u64::MAX - d) / 10 {
                    proof {
                        let ns = scan_numbers(s@.take(i + 1)).0;
                        assert(ns[last as int] == cur * 10 + d);
                        assert(cur * 10 + d > u64::MAX) by (nonlinear_arith)
                            requires
                                cur > (u64::MAX - d) / 10,
                                d <= 9,
                        ;
                        lemma_scan_grows(s@, (i + 1) as nat, s.len() as nat);
                        assert(s@.take(s.len() as int) =~= s@);
                        assert(numbers_in(s@)[last as int] >= ns[last as int]);
                    }
                    return None;
                }
                assert(cur * 10 + d <= u64::MAX) by (nonlinear_arith)
                    requires
                        cur <= (u64::MAX - d) / 10,
                        d <= 9,
                ;
                vals.set(last, cur * 10 + d);
            } else {
                vals.push(d);
            }
            inside = true;
        } else {
            inside = false;
        }
        i = i + 1;
        proof {
            assert(vals@.map_values(|x: u64| x as nat) =~= scan_numbers(s@.take(i as int)).0);
        }
    }
    proof {
        assert(s@.take(s.len() as int) =~= s@);
    }
    Some(vals)
}

/// What the puzzle text says: the first three numbers in it are registers
/// A, B and C, and the numbers after them are the program's words. `None`
/// when it holds fewer than three numbers or one does not fit in a `u64`.
pub open spec fn puzzle_input(s: Seq<char>) -> Option<(Registers, Seq<u64>)> {
    let ns = numbers_in(s);
    if ns.len() >= 3 && all_fit(ns) {
        Some(
            (
                Registers { a: ns[0] as u64, b: ns[1] as u64, c: ns[2] as u64 },
                ns.skip(3).map_values(|x: nat| x as u64),
            ),
        )
    } else {
        None
    }
}

/// Reads the registers and the program words from the puzzle text.
pub fn parse_input(input: &str) -> (r: Option<(Registers, Vec<u64>)>)
    ensures
        r is Some <==> puzzle_input(input@) is Some,
        r matches Some((regs, words)) ==> puzzle_input(input@) == Some((regs, words@)),
{
    let chars = chars_of(input);
    let nums = match parse_numbers(&chars) {
        Some(v) => v,
        None => {
            return None;
        },
    };
    let ghost ns = numbers_in(input@);
    proof {
        assert(nums.len() == ns.len());
        assert forall|i: int| 0 <= i < nums.len() implies nums[i] == ns[i] by {
            assert(nums@.map_values(|x: u64| x as nat)[i] == ns[i]);
        }
    }
    if nums.len() < 3 {
        return None;
    }
    let regs = Registers::new(nums[0], nums[1], nums[2]);
    let mut words: Vec<u64> = Vec::new();
    let mut i: usize = 3;
    while i < nums.len()
        invariant
            3 <= i <= nums.len(),
            nums.len() == ns.len(),
            forall|k: int| 0 <= k < nums.len() ==> nums[k] == ns[k],
            words@ == ns.subrange(3, i as int).map_values(|x: nat| x as u64),
        decreases nums.len() - i,
    {
        words.push(nums[i]);
        i = i + 1;
        proof {
            assert(words@ =~= ns.subrange(3, i as int).map_values(|x: nat| x as u64));
        }
    }
    proof {
        assert(ns.subrange(3, nums.len() as int) =~= ns.skip(3));
    }
    Some((regs, words))
}

/// The most instructions one run may execute: beyond it a run counts as
/// looping forever and fails with `FuelExhausted`.
pub const STEP_BUDGET: u64 = 10_000_000;

/// What the first part answers for puzzle text `s`: the output of the
/// program run on the given registers, in decimal and comma separated.
pub open spec fn part_one_spec(s: Seq<char>) -> Option<Seq<char>> {
    match puzzle_input(s) {
        None => None,
        Some((regs, words)) => match run_spec(regs, words, STEP_BUDGET as nat) {
            Ok((_, out)) => Some(comma_joined(out)),
            Err(_) => None,
        },
    }
}

/// What the second part answers for puzzle text `s`: the value of register
/// A that the search finds to make the program print itself.
pub open spec fn part_two_spec(s: Seq<char>) -> Option<u64> {
    match puzzle_input(s) {
        None => None,
        Some((_, words)) => if decode_program(words) is Err {
            None
        } else {
            match synthesize_spec(words, STEP_BUDGET as nat) {
                Ok(Some(a)) => Some(a),
                _ => None,
            }
        },
    }
}

/// Runs the program of the puzzle text on its registers and renders the
/// output; `None` when the text does not parse or the run fails.
pub fn part_one(input: &str) -> (r: Option<String>)
    ensures
        r is Some <==> part_one_spec(input@) is Some,
        r matches Some(s) ==> part_one_spec(input@) == Some(s@),
{
    let (regs, words) = match parse_input(input) {
        Some(p) => p,
        None => {
            return None;
        },
    };
    let program = match Program::new(words) {
        Ok(p) => p,
        Err(_) => {
            return None;
        },
    };
    match run_program(&regs, &program, STEP_BUDGET) {
        Ok(e) => Some(join_commas(&e.output)),
        Err(_) => None,
    }
}

/// Finds a value of register A that makes the program of the puzzle text
/// print itself; `None` when the text does not parse, the program does not
/// decode, or the search finds nothing or runs out of fuel.
pub fn part_two(input: &str) -> (r: Option<u64>)
    ensures
        r == part_two_spec(input@),
{
    let (_, words) = match parse_input(input) {
        Some(p) => p,
        None => {
            return None;
        },
    };
    let program = match Program::new(words) {
        Ok(p) => p,
        Err(_) => {
            return None;
        },
    };
    match synthesize(&program, STEP_BUDGET) {
        Ok(Some(a)) => Some(a),
        _ => None,
    }
}

} // verus!
