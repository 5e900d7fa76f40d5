use crate::machine::{run_program, run_spec, ExecError, Program, Registers};
use vstd::prelude::*;

verus! {

/// The registers a candidate runs with: A holds the candidate, B and C are 0.
pub open spec fn start_registers(a: u64) -> Registers {
    Registers { a, b: 0, c: 0 }
}

/// Running `words` with A = `a` and B = C = 0 halts within `fuel` steps and
/// prints exactly `words`.
pub open spec fn reproduces(words: Seq<u64>, fuel: nat, a: u64) -> bool {
    match run_spec(start_registers(a), words, fuel) {
        Ok((_, out)) => out == words,
        Err(_) => false,
    }
}

/// The depth-first search for a witness, most significant three-bit digit
/// first. `acc` holds the digits chosen so far and `depth` counts the
/// program words still to match, the next being `words[depth - 1]`; at this
/// depth the digits from `d` up to 7 remain to be tried.
///
/// A digit is kept when the candidate `acc * 8 + digit` runs and its first
/// output is the next word; then the search goes one level deeper, and
/// backtracks to the next digit if that finds nothing. A candidate beyond
/// `u64` or whose run fails matches nothing, except that a run out of fuel
/// ends the whole search with that error. When no word is left, `acc` is the
/// answer if its own run prints the whole program.
pub open spec fn search(words: Seq<u64>, fuel: nat, acc: u64, depth: nat, d: nat) -> Result<
    Option<u64>,
    ExecError,
>
    decreases depth, 8 - d,
{
    if depth == 0 {
        match run_spec(start_registers(acc), words, fuel) {
            Err(ExecError::FuelExhausted) => Err(ExecError::FuelExhausted),
            Err(_) => Ok(None),
            Ok((_, out)) => if out == words {
                Ok(Some(acc))
            } else {
                Ok(None)
            },
        }
    } else if d >= 8 {
        Ok(None)
    } else if acc * 8 + d > u64::MAX {
        search(words, fuel, acc, depth, d + 1)
    } else {
        let cand = (acc * 8 + d) as u64;
        match run_spec(start_registers(cand), words, fuel) {
            Err(ExecError::FuelExhausted) => Err(ExecError::FuelExhausted),
            Err(_) => search(words, fuel, acc, depth, d + 1),
            Ok((_, out)) => if out.len() > 0 && out[0] == words[depth - 1] {
                match search(words, fuel, cand, (depth - 1) as nat, 0) {
                    Ok(None) => search(words, fuel, acc, depth, d + 1),
                    other => other,
                }
            } else {
                search(words, fuel, acc, depth, d + 1)
            },
        }
    }
}

/// The whole search for `words`: no digit chosen yet, every word to match.
pub open spec fn synthesize_spec(words: Seq<u64>, fuel: nat) -> Result<Option<u64>, ExecError> {
    search(words, fuel, 0, words.len(), 0)
}

/// Whether two word sequences are equal.
pub fn same_words(x: &Vec<u64>, y: &Vec<u64>) -> (r: bool)
    ensures
        r == (x@ == y@),
{
    if x.len() != y.len() {
        return false;
    }
    let mut i: usize = 0;
    while i < x.len()
        invariant
            x.len() == y.len(),
            i <= x.len(),
            forall|j: int| 0 <= j < i ==> x[j] == y[j],
        decreases x.len() - i,
    {
        if x[i] != y[i] {
            return false;
        }
        i = i + 1;
    }
    proof {
        assert(x@ =~= y@);
    }
    true
}

/// The search step at `depth` words left to match, from accumulator `acc`:
/// tries the digits 0 to 7 in turn and returns the first witness found
/// below one of them.
pub fn find_a(acc: u64, depth: usize, program: &Program, fuel: u64) -> (r: Result<Option<u64>, ExecError>)
    requires
        depth <= program@.len(),
    ensures
        r == search(program@, fuel as nat, acc, depth as nat, 0),
    decreases depth,
{
    let words = program.words();
    if depth == 0 {
        return match run_program(&Registers::new(acc, 0, 0), program, fuel) {
            Ok(e) => if same_words(&e.output, words) {
                Ok(Some(acc))
            } else {
                Ok(None)
            },
            Err(ExecError::FuelExhausted) => Err(ExecError::FuelExhausted),
            Err(_) => Ok(None),
        };
    }
    let mut d: u64 = 0;
    while d < 8
        invariant
            0 < depth <= program@.len(),
            words@ == program@,
            d <= 8,
            search(program@, fuel as nat, acc, depth as nat, 0) == search(
                program@,
                fuel as nat,
                acc,
                depth as nat,
                d as nat,
            ),
        decreases 8 - d,
    {
        let next = match acc.checked_mul(8) {
            Some(m) => m.checked_add(d),
            None => None,
        };
        if let Some(cand) = next {
            match run_program(&Registers::new(cand, 0, 0), program, fuel) {
                Err(ExecError::FuelExhausted) => {
                    return Err(ExecError::FuelExhausted);
                },
                Err(_) => {},
                Ok(e) => {
                    if e.output.len() > 0 && e.output[0] == words[depth - 1] {
                        match find_a(cand, depth - 1, program, fuel) {
                            Ok(None) => {},
                            other => {
                                return other;
                            },
                        }
                    }
                },
            }
        }
        d = d + 1;
    }
    Ok(None)
}

/// Searches for a value of register A that, with B = C = 0, makes `program`
/// print its own words, each candidate run limited to `fuel` steps. The
/// search assumes programs that consume three bits of A and print one value
/// per pass of a loop driven by A; a value is returned only after a full run
/// confirms it, so for other programs the search may find nothing.
pub fn synthesize(program: &Program, fuel: u64) -> (r: Result<Option<u64>, ExecError>)
    ensures
        r == synthesize_spec(program@, fuel as nat),
        r matches Ok(Some(a)) ==> reproduces(program@, fuel as nat, a),
{
    let r = find_a(0, program.words().len(), program, fuel);
    proof {
        if let Ok(Some(a)) = r {
            lemma_witness_reproduces(program@, fuel as nat, a);
        }
    }
    r
}

/// Every witness the search returns reproduces the program.
proof fn lemma_search_reproduces(words: Seq<u64>, fuel: nat, acc: u64, depth: nat, d: nat, a: u64)
    requires
        depth <= words.len(),
        search(words, fuel, acc, depth, d) == Ok::<Option<u64>, ExecError>(Some(a)),
    ensures
        reproduces(words, fuel, a),
    decreases depth, 8 - d,
{
    if depth == 0 {
    } else if d >= 8 {
    } else if acc * 8 + d > u64::MAX {
        lemma_search_reproduces(words, fuel, acc, depth, d + 1, a);
    } else {
        let cand = (acc * 8 + d) as u64;
        match run_spec(start_registers(cand), words, fuel) {
            Err(ExecError::FuelExhausted) => {},
            Err(_) => {
                lemma_search_reproduces(words, fuel, acc, depth, d + 1, a);
            },
            Ok((_, out)) => {
                if out.len() > 0 && out[0] == words[depth - 1] {
                    match search(words, fuel, cand, (depth - 1) as nat, 0) {
                        Ok(None) => {
                            lemma_search_reproduces(words, fuel, acc, depth, d + 1, a);
                        },
                        _ => {
                            lemma_search_reproduces(words, fuel, cand, (depth - 1) as nat, 0, a);
                        },
                    }
                } else {
                    lemma_search_reproduces(words, fuel, acc, depth, d + 1, a);
                }
            },
        }
    }
}

/// A value of A that the search returns for a program is a witness: run
/// with B = C = 0 under the same step budget, the program halts and its
/// output is exactly its own words, in order.
pub proof fn lemma_witness_reproduces(words: Seq<u64>, fuel: nat, a: u64)
    requires
        synthesize_spec(words, fuel) == Ok::<Option<u64>, ExecError>(Some(a)),
    ensures
        reproduces(words, fuel, a),
        run_spec(start_registers(a), words, fuel) matches Ok((_, out)) && out == words,
{
    lemma_search_reproduces(words, fuel, 0, words.len(), 0, a);
}

} // verus!
