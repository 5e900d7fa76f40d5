use threebit::machine::{run_program, ExecError, Program, Registers};
use threebit::synth::{find_a, same_words, synthesize};

#[test]
fn scenario_synthesized_value_reproduces_program() {
    let words = vec![0, 3, 5, 4, 3, 0];
    let p = Program::new(words.clone()).unwrap();
    let a = synthesize(&p, 1_000_000).unwrap().expect("a witness exists");
    let e = run_program(&Registers::new(a, 0, 0), &p, 1_000_000).unwrap();
    assert_eq!(e.output, words);
    let known = run_program(&Registers::new(117440, 0, 0), &p, 1_000_000).unwrap();
    assert_eq!(known.output, words);
}

#[test]
fn synthesis_finds_known_witness() {
    let p = Program::new(vec![0, 3, 5, 4, 3, 0]).unwrap();
    assert_eq!(synthesize(&p, 1_000_000), Ok(Some(117440)));
}

#[test]
fn synthesis_reports_no_solution() {
    // Prints 1 for every A, never the program itself.
    let p = Program::new(vec![1, 1, 5, 5]).unwrap();
    assert_eq!(synthesize(&p, 1_000_000), Ok(None));
}

#[test]
fn synthesis_propagates_fuel_exhaustion() {
    // Prints A mod 8 and loops while A is not zero, without dividing it.
    let p = Program::new(vec![5, 4, 3, 0]).unwrap();
    assert_eq!(synthesize(&p, 100), Err(ExecError::FuelExhausted));
}

#[test]
fn synthesis_of_empty_program() {
    let p = Program::new(vec![]).unwrap();
    assert_eq!(synthesize(&p, 10), Ok(Some(0)));
}

#[test]
fn find_a_at_depth_zero_checks_whole_run() {
    let p = Program::new(vec![0, 3, 5, 4, 3, 0]).unwrap();
    assert_eq!(find_a(117440, 0, &p, 1000), Ok(Some(117440)));
    // Prints a single 0, not the program.
    assert_eq!(find_a(5, 0, &p, 1000), Ok(None));
}

#[test]
fn same_words_compares() {
    assert!(same_words(&vec![1, 2], &vec![1, 2]));
    assert!(!same_words(&vec![1, 2], &vec![1, 3]));
    assert!(!same_words(&vec![1], &vec![1, 2]));
}
