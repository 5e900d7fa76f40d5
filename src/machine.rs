use vstd::arithmetic::power2::{lemma2_to64, lemma_pow2_strictly_increases, pow2};
use vstd::bits::lemma_u64_shr_is_div;
use vstd::prelude::*;

verus! {

/// The three registers of the machine.
#[derive(Clone, Copy, Debug, PartialEq, Eq, Structural)]
pub struct Registers {
    pub a: u64,
    pub b: u64,
    pub c: u64,
}

impl Registers {
    /// Registers holding `a`, `b` and `c`.
    pub fn new(a: u64, b: u64, c: u64) -> (r: Registers)
        ensures
            r == (Registers { a, b, c }),
    {
        Registers { a, b, c }
    }
}

/// `a` divided by two to the power `k`, rounded down: what a right shift of
/// `a` by `k` bits gives, zero once `k` reaches the width of `a`.
pub open spec fn shr_spec(a: u64, k: u64) -> u64 {
    (a as nat / pow2(k as nat)) as u64
}

/// The value that combo operand `combo` denotes in registers `r`: the
/// operand itself for 0 to 3, and the current value of A, B or C for 4, 5, 6.
pub open spec fn combo_spec(combo: u64, r: Registers) -> u64 {
    if combo <= 3 {
        combo
    } else if combo == 4 {
        r.a
    } else if combo == 5 {
        r.b
    } else {
        r.c
    }
}

/// A combo operand that decodes: 7 and above are refused.
pub open spec fn valid_combo(combo: u64) -> bool {
    combo <= 6
}

/// Why a run stops short of halting.
#[derive(Clone, Copy, Debug, PartialEq, Eq, Structural)]
pub enum ExecError {
    /// An opcode outside 0 to 7.
    InvalidOpcode,
    /// A combo operand of 7 or more.
    InvalidCombo,
    /// A taken jump to an odd index, or to an index at or past the end of
    /// the program.
    JumpOutOfRange,
    /// The step budget ran out before the program halted.
    FuelExhausted,
}

/// A decoded instruction. Combo operands are kept as written and resolved
/// against the registers only when the instruction executes.
#[derive(Clone, Copy, Debug, PartialEq, Eq, Structural)]
pub enum Instruction {
    /// A <- A >> combo.
    Adv(u64),
    /// B <- B xor literal.
    Bxl(u64),
    /// B <- combo mod 8.
    Bst(u64),
    /// Jump to the literal index when A is not zero.
    Jnz(u64),
    /// B <- B xor C; the operand is ignored.
    Bxc,
    /// Emit combo mod 8.
    Out(u64),
    /// B <- A >> combo.
    Bdv(u64),
    /// C <- A >> combo.
    Cdv(u64),
}

impl Instruction {
    /// Every combo operand of the instruction decodes.
    pub open spec fn wf(self) -> bool {
        match self {
            Instruction::Adv(n) => valid_combo(n),
            Instruction::Bst(n) => valid_combo(n),
            Instruction::Out(n) => valid_combo(n),
            Instruction::Bdv(n) => valid_combo(n),
            Instruction::Cdv(n) => valid_combo(n),
            _ => true,
        }
    }
}

/// Whether the opcode takes a combo operand.
pub open spec fn takes_combo(opcode: u64) -> bool {
    opcode == 0 || opcode == 2 || opcode == 5 || opcode == 6 || opcode == 7
}

/// The instruction that the pair (opcode, operand) stands for.
pub open spec fn decode_spec(opcode: u64, operand: u64) -> Result<Instruction, ExecError> {
    if opcode > 7 {
        Err(ExecError::InvalidOpcode)
    } else if takes_combo(opcode) && !valid_combo(operand) {
        Err(ExecError::InvalidCombo)
    } else {
        Ok(
            if opcode == 0 {
                Instruction::Adv(operand)
            } else if opcode == 1 {
                Instruction::Bxl(operand)
            } else if opcode == 2 {
                Instruction::Bst(operand)
            } else if opcode == 3 {
                Instruction::Jnz(operand)
            } else if opcode == 4 {
                Instruction::Bxc
            } else if opcode == 5 {
                Instruction::Out(operand)
            } else if opcode == 6 {
                Instruction::Bdv(operand)
            } else {
                Instruction::Cdv(operand)
            },
        )
    }
}

/// The instructions of the first `m` (opcode, operand) pairs of `words`, or
/// the error of the first pair among them that does not decode.
pub open spec fn decode_pairs(words: Seq<u64>, m: nat) -> Result<Seq<Instruction>, ExecError>
    decreases m,
{
    if m == 0 {
        Ok(Seq::empty())
    } else {
        match decode_pairs(words, (m - 1) as nat) {
            Err(e) => Err(e),
            Ok(prefix) => match decode_spec(words[2 * m - 2], words[2 * m - 1]) {
                Err(e) => Err(e),
                Ok(ins) => Ok(prefix.push(ins)),
            },
        }
    }
}

/// The program's words decoded pair by pair. A trailing unpaired word is no
/// instruction.
pub open spec fn decode_program(words: Seq<u64>) -> Result<Seq<Instruction>, ExecError> {
    decode_pairs(words, words.len() / 2)
}

/// The registers after `ins` executes on `r`, the value it emits, and the
/// jump target it takes.
pub open spec fn exec_spec(ins: Instruction, r: Registers) -> (Registers, Option<u64>, Option<u64>) {
    match ins {
        Instruction::Adv(n) => (
            Registers { a: shr_spec(r.a, combo_spec(n, r)), b: r.b, c: r.c },
            None,
            None,
        ),
        Instruction::Bxl(n) => (Registers { a: r.a, b: r.b ^ n, c: r.c }, None, None),
        Instruction::Bst(n) => (
            Registers { a: r.a, b: (combo_spec(n, r) % 8) as u64, c: r.c },
            None,
            None,
        ),
        Instruction::Jnz(n) => (r, None, if r.a != 0 { Some(n) } else { None }),
        Instruction::Bxc => (Registers { a: r.a, b: r.b ^ r.c, c: r.c }, None, None),
        Instruction::Out(n) => (r, Some((combo_spec(n, r) % 8) as u64), None),
        Instruction::Bdv(n) => (
            Registers { a: r.a, b: shr_spec(r.a, combo_spec(n, r)), c: r.c },
            None,
            None,
        ),
        Instruction::Cdv(n) => (
            Registers { a: r.a, b: r.b, c: shr_spec(r.a, combo_spec(n, r)) },
            None,
            None,
        ),
    }
}

/// The outcome of one step at program index `pc`, which must hold an
/// instruction: the new registers, the next program index and the value
/// emitted. A taken jump must land on an even index inside the program.
pub open spec fn step_spec(instrs: Seq<Instruction>, len: nat, r: Registers, pc: nat) -> Result<
    (Registers, nat, Option<u64>),
    ExecError,
> {
    let (r2, emitted, jump) = exec_spec(instrs[(pc / 2) as int], r);
    match jump {
        Some(t) => if t % 2 == 0 && t < len {
            Ok((r2, t as nat, emitted))
        } else {
            Err(ExecError::JumpOutOfRange)
        },
        None => Ok((r2, pc + 2, emitted)),
    }
}

/// The machine halts once the program index is past the last instruction.
pub open spec fn halted(instrs: Seq<Instruction>, pc: nat) -> bool {
    pc / 2 >= instrs.len()
}

/// The values an optional emission adds to the output.
pub open spec fn emitted_seq(emitted: Option<u64>) -> Seq<u64> {
    match emitted {
        Some(v) => seq![v],
        None => Seq::empty(),
    }
}

/// `res` with `front` put before its output.
pub open spec fn prepend(front: Seq<u64>, res: Result<(Registers, Seq<u64>), ExecError>) -> Result<
    (Registers, Seq<u64>),
    ExecError,
> {
    match res {
        Ok((r, out)) => Ok((r, front + out)),
        Err(e) => Err(e),
    }
}

/// Runs `instrs` (decoded from `len` words) from program index `pc` with
/// registers `r`, executing at most `fuel` instructions: the final registers
/// and the output, or why the run stopped.
pub open spec fn run_from(instrs: Seq<Instruction>, len: nat, r: Registers, pc: nat, fuel: nat) -> Result<
    (Registers, Seq<u64>),
    ExecError,
>
    decreases fuel,
{
    if halted(instrs, pc) {
        Ok((r, Seq::empty()))
    } else if fuel == 0 {
        Err(ExecError::FuelExhausted)
    } else {
        match step_spec(instrs, len, r, pc) {
            Err(e) => Err(e),
            Ok((r2, pc2, emitted)) => prepend(
                emitted_seq(emitted),
                run_from(instrs, len, r2, pc2, (fuel - 1) as nat),
            ),
        }
    }
}

/// Runs the program `words` from index 0 with registers `r` and a budget of
/// `fuel` executed instructions.
pub open spec fn run_spec(r: Registers, words: Seq<u64>, fuel: nat) -> Result<
    (Registers, Seq<u64>),
    ExecError,
> {
    match decode_program(words) {
        Err(e) => Err(e),
        Ok(instrs) => run_from(instrs, words.len(), r, 0, fuel),
    }
}

/// How many of `desired`, from position `k` on, the run from `pc` prints
/// in order before its first value that differs or goes past the end of
/// `desired`: the run is followed only up to that value, and fails where it
/// fails before it.
pub open spec fn check_from(
    instrs: Seq<Instruction>,
    len: nat,
    r: Registers,
    pc: nat,
    fuel: nat,
    desired: Seq<u64>,
    k: nat,
) -> Result<nat, ExecError>
    decreases fuel,
{
    if halted(instrs, pc) {
        Ok(k)
    } else if fuel == 0 {
        Err(ExecError::FuelExhausted)
    } else {
        match step_spec(instrs, len, r, pc) {
            Err(e) => Err(e),
            Ok((r2, pc2, emitted)) => match emitted {
                Some(v) => if k >= desired.len() || v != desired[k as int] {
                    Ok(k)
                } else {
                    check_from(instrs, len, r2, pc2, (fuel - 1) as nat, desired, k + 1)
                },
                None => check_from(instrs, len, r2, pc2, (fuel - 1) as nat, desired, k),
            },
        }
    }
}

/// The length of the longest common prefix of `x` and `y`.
pub open spec fn common_prefix_len(x: Seq<u64>, y: Seq<u64>) -> nat
    decreases x.len(),
{
    if x.len() == 0 || y.len() == 0 || x[0] != y[0] {
        0
    } else {
        1 + common_prefix_len(x.drop_first(), y.drop_first())
    }
}

/// The registers and program index after `k` steps from (`r`, `pc`), or
/// `None` when the run halts or fails before taking them.
pub open spec fn state_after(instrs: Seq<Instruction>, len: nat, r: Registers, pc: nat, k: nat) -> Option<
    (Registers, nat),
>
    decreases k,
{
    if k == 0 {
        Some((r, pc))
    } else if halted(instrs, pc) {
        None
    } else {
        match step_spec(instrs, len, r, pc) {
            Err(_) => None,
            Ok((r2, pc2, _)) => state_after(instrs, len, r2, pc2, (k - 1) as nat),
        }
    }
}

/// Logical right shift of `a` by `k` bits, for any `k`.
pub fn shift_right(a: u64, k: u64) -> (r: u64)
    ensures
        r == shr_spec(a, k),
{
    if k >= 64 {
        proof {
            lemma2_to64();
            if k > 64 {
                lemma_pow2_strictly_increases(64, k as nat);
            }
            assert(a as nat / pow2(k as nat) == 0) by (nonlinear_arith)
                requires
                    a as nat <= u64::MAX,
                    pow2(k as nat) > u64::MAX,
            ;
        }
        0
    } else {
        proof {
            lemma_u64_shr_is_div(a, k);
        }
        a >> k
    }
}

/// Resolves combo operand `combo` against the registers as they are now.
pub fn combo_value(combo: u64, registers: &Registers) -> (r: u64)
    requires
        valid_combo(combo),
    ensures
        r == combo_spec(combo, *registers),
{
    if combo <= 3 {
        combo
    } else if combo == 4 {
        registers.a
    } else if combo == 5 {
        registers.b
    } else {
        registers.c
    }
}

/// Decodes one (opcode, operand) pair.
pub fn decode_instruction(opcode: u64, operand: u64) -> (r: Result<Instruction, ExecError>)
    ensures
        r == decode_spec(opcode, operand),
        r matches Ok(ins) ==> ins.wf(),
{
    if opcode > 7 {
        return Err(ExecError::InvalidOpcode);
    }
    if (opcode == 0 || opcode == 2 || opcode == 5 || opcode == 6 || opcode == 7) && operand > 6 {
        return Err(ExecError::InvalidCombo);
    }
    if opcode == 0 {
        Ok(Instruction::Adv(operand))
    } else if opcode == 1 {
        Ok(Instruction::Bxl(operand))
    } else if opcode == 2 {
        Ok(Instruction::Bst(operand))
    } else if opcode == 3 {
        Ok(Instruction::Jnz(operand))
    } else if opcode == 4 {
        Ok(Instruction::Bxc)
    } else if opcode == 5 {
        Ok(Instruction::Out(operand))
    } else if opcode == 6 {
        Ok(Instruction::Bdv(operand))
    } else {
        Ok(Instruction::Cdv(operand))
    }
}

/// Decodes the words of a program pair by pair, stopping at the first pair
/// that does not decode.
pub fn parse_instructions(words: &Vec<u64>) -> (r: Result<Vec<Instruction>, ExecError>)
    ensures
        match r {
            Ok(v) => decode_program(words@) == Ok::<Seq<Instruction>, ExecError>(v@),
            Err(e) => decode_program(words@) == Err::<Seq<Instruction>, ExecError>(e),
        },
        r matches Ok(v) ==> forall|i: int| 0 <= i < v.len() ==> (#[trigger] v[i]).wf(),
        r matches Ok(v) ==> v.len() == words.len() / 2,
{
    let m = words.len() / 2;
    let mut out: Vec<Instruction> = Vec::new();
    let mut k: usize = 0;
    while k < m
        invariant
            m == words.len() / 2,
            k <= m,
            decode_pairs(words@, k as nat) == Ok::<Seq<Instruction>, ExecError>(out@),
            out.len() == k,
            forall|i: int| 0 <= i < out.len() ==> (#[trigger] out[i]).wf(),
        decreases m - k,
    {
        match decode_instruction(words[2 * k], words[2 * k + 1]) {
            Err(e) => {
                proof {
                    lemma_decode_pairs_stops(words@, (k + 1) as nat, m as nat);
                }
                return Err(e);
            },
            Ok(ins) => {
                out.push(ins);
                k = k + 1;
            },
        }
    }
    Ok(out)
}

/// Once a pair fails to decode, every longer prefix fails with its error.
proof fn lemma_decode_pairs_stops(words: Seq<u64>, k: nat, m: nat)
    requires
        k <= m,
        decode_pairs(words, k) is Err,
    ensures
        decode_pairs(words, m) == decode_pairs(words, k),
    decreases m - k,
{
    if k < m {
        lemma_decode_pairs_stops(words, k, (m - 1) as nat);
    }
}

/// Executes one instruction: updates the registers and returns the value it
/// emits and the jump target it takes.
pub fn exec(instruction: &Instruction, registers: &mut Registers) -> (r: (Option<u64>, Option<u64>))
    requires
        instruction.wf(),
    ensures
        (*final(registers), r.0, r.1) == exec_spec(*instruction, *old(registers)),
{
    match instruction {
        Instruction::Adv(n) => {
            registers.a = shift_right(registers.a, combo_value(*n, registers));
            (None, None)
        },
        Instruction::Bxl(n) => {
            registers.b = registers.b ^ *n;
            (None, None)
        },
        Instruction::Bst(n) => {
            registers.b = combo_value(*n, registers) % 8;
            (None, None)
        },
        Instruction::Jnz(n) => {
            if registers.a != 0 {
                (None, Some(*n))
            } else {
                (None, None)
            }
        },
        Instruction::Bxc => {
            registers.b = registers.b ^ registers.c;
            (None, None)
        },
        Instruction::Out(n) => (Some(combo_value(*n, registers) % 8), None),
        Instruction::Bdv(n) => {
            registers.b = shift_right(registers.a, combo_value(*n, registers));
            (None, None)
        },
        Instruction::Cdv(n) => {
            registers.c = shift_right(registers.a, combo_value(*n, registers));
            (None, None)
        },
    }
}

/// A program whose words all decode, kept beside its instructions.
pub struct Program {
    words: Vec<u64>,
    instructions: Vec<Instruction>,
}

impl View for Program {
    type V = Seq<u64>;

    closed spec fn view(&self) -> Seq<u64> {
        self.words@
    }
}

impl Program {
    #[verifier::type_invariant]
    spec fn inv(&self) -> bool {
        &&& decode_program(self.words@) == Ok::<Seq<Instruction>, ExecError>(self.instructions@)
        &&& self.instructions.len() == self.words.len() / 2
        &&& forall|i: int| 0 <= i < self.instructions.len() ==> (#[trigger] self.instructions[i]).wf()
    }

    /// Decodes `words` into a program, or returns why a pair does not decode.
    pub fn new(words: Vec<u64>) -> (r: Result<Program, ExecError>)
        ensures
            r is Ok <==> decode_program(words@) is Ok,
            match r {
                Ok(p) => p@ == words@,
                Err(e) => decode_program(words@) == Err::<Seq<Instruction>, ExecError>(e),
            },
    {
        match parse_instructions(&words) {
            Ok(instructions) => Ok(Program { words, instructions }),
            Err(e) => Err(e),
        }
    }

    /// Executes the instruction at even index `pc` on `registers` and
    /// returns the next index with the value emitted, or why the step fails.
    fn step(&self, registers: &mut Registers, pc: usize) -> (r: Result<(usize, Option<u64>), ExecError>)
        requires
            pc % 2 == 0,
            !halted(decode_program(self@)->Ok_0, pc as nat),
        ensures
            decode_program(self@) is Ok,
            match r {
                Ok((next, emitted)) => {
                    &&& step_spec(decode_program(self@)->Ok_0, self@.len(), *old(registers), pc as nat)
                        == Ok::<(Registers, nat, Option<u64>), ExecError>((*final(registers), next as nat, emitted))
                    &&& next <= self@.len()
                    &&& next % 2 == 0
                },
                Err(e) => step_spec(decode_program(self@)->Ok_0, self@.len(), *old(registers), pc as nat)
                    == Err::<(Registers, nat, Option<u64>), ExecError>(e),
            },
    {
        proof {
            use_type_invariant(self);
        }
        let (emitted, jump) = exec(&self.instructions[pc / 2], registers);
        match jump {
            Some(t) => {
                if t % 2 == 0 && t < self.words.len() as u64 {
                    Ok((t as usize, emitted))
                } else {
                    Err(ExecError::JumpOutOfRange)
                }
            },
            None => Ok((pc + 2, emitted)),
        }
    }

    /// The words the program was decoded from.
    pub fn words(&self) -> (r: &Vec<u64>)
        ensures
            r@ == self@,
    {
        &self.words
    }
}

/// What a run that halts leaves: the final registers and the output.
pub struct Execution {
    pub registers: Registers,
    pub output: Vec<u64>,
}

impl View for Execution {
    type V = (Registers, Seq<u64>);

    open spec fn view(&self) -> (Registers, Seq<u64>) {
        (self.registers, self.output@)
    }
}

proof fn lemma_prepend_twice(a: Seq<u64>, b: Seq<u64>, res: Result<(Registers, Seq<u64>), ExecError>)
    ensures
        prepend(a, prepend(b, res)) == prepend(a + b, res),
{
    if let Ok((r, out)) = res {
        assert(a + (b + out) =~= (a + b) + out);
    }
}

proof fn lemma_prepend_empty(res: Result<(Registers, Seq<u64>), ExecError>)
    ensures
        prepend(Seq::empty(), res) == res,
{
    if let Ok((r, out)) = res {
        assert(Seq::<u64>::empty() + out =~= out);
    }
}

/// Runs `program` from index 0 with a copy of `registers`, executing at most
/// `fuel` instructions. Fails when a taken jump leaves the program or lands
/// on an odd index, and when the budget runs out before the program halts.
pub fn run_program(registers: &Registers, program: &Program, fuel: u64) -> (r: Result<Execution, ExecError>)
    ensures
        match r {
            Ok(e) => run_spec(*registers, program@, fuel as nat) == Ok::<(Registers, Seq<u64>), ExecError>(e@),
            Err(e) => run_spec(*registers, program@, fuel as nat) == Err::<(Registers, Seq<u64>), ExecError>(e),
        },
{
    proof {
        use_type_invariant(program);
    }
    let instrs = &program.instructions;
    let len = program.words.len();
    let mut regs = *registers;
    let mut pc: usize = 0;
    let mut out: Vec<u64> = Vec::new();
    let mut fuel_left = fuel;
    proof {
        lemma_prepend_empty(run_from(instrs@, len as nat, regs, 0, fuel as nat));
    }
    loop
        invariant
            decode_program(program@) == Ok::<Seq<Instruction>, ExecError>(instrs@),
            instrs.len() == len / 2,
            len == program@.len(),
            pc <= len,
            pc % 2 == 0,
            run_from(instrs@, len as nat, *registers, 0, fuel as nat)
                == prepend(out@, run_from(instrs@, len as nat, regs, pc as nat, fuel_left as nat)),
        decreases fuel_left,
    {
        if pc / 2 >= instrs.len() {
            proof {
                assert(out@ + Seq::<u64>::empty() =~= out@);
            }
            return Ok(Execution { registers: regs, output: out });
        }
        if fuel_left == 0 {
            return Err(ExecError::FuelExhausted);
        }
        let (next, emitted) = match program.step(&mut regs, pc) {
            Ok(s) => s,
            Err(e) => {
                return Err(e);
            },
        };
        pc = next;
        let ghost out_before = out@;
        if let Some(v) = emitted {
            out.push(v);
        }
        proof {
            assert(out@ =~= out_before + emitted_seq(emitted));
        }
        fuel_left = fuel_left - 1;
        proof {
            lemma_prepend_twice(
                out_before,
                emitted_seq(emitted),
                run_from(instrs@, len as nat, regs, pc as nat, fuel_left as nat),
            );
        }
    }
}

/// Runs `program` like `run_program`, comparing its output with `desired`
/// as it goes, and returns how many values in a row it printed as `desired`
/// has them before the first that differs or comes after `desired` ends.
/// Stops at that value: a failure later in the run does not show.
pub fn check_output(registers: &Registers, program: &Program, desired: &Vec<u64>, fuel: u64) -> (r:
    Result<usize, ExecError>)
    ensures
        match r {
            Ok(n) => check_spec(*registers, program@, desired@, fuel as nat) == Ok::<nat, ExecError>(n as nat),
            Err(e) => check_spec(*registers, program@, desired@, fuel as nat) == Err::<nat, ExecError>(e),
        },
{
    proof {
        use_type_invariant(program);
    }
    let instrs = &program.instructions;
    let len = program.words.len();
    let mut regs = *registers;
    let mut pc: usize = 0;
    let mut matched: usize = 0;
    let mut fuel_left = fuel;
    loop
        invariant
            decode_program(program@) == Ok::<Seq<Instruction>, ExecError>(instrs@),
            instrs.len() == len / 2,
            len == program@.len(),
            pc <= len,
            pc % 2 == 0,
            matched <= desired.len(),
            check_from(instrs@, len as nat, *registers, 0, fuel as nat, desired@, 0)
                == check_from(instrs@, len as nat, regs, pc as nat, fuel_left as nat, desired@, matched as nat),
        decreases fuel_left,
    {
        if pc / 2 >= instrs.len() {
            return Ok(matched);
        }
        if fuel_left == 0 {
            return Err(ExecError::FuelExhausted);
        }
        let (next, emitted) = match program.step(&mut regs, pc) {
            Ok(s) => s,
            Err(e) => {
                return Err(e);
            },
        };
        pc = next;
        if let Some(v) = emitted {
            if matched == desired.len() || v != desired[matched] {
                return Ok(matched);
            }
            matched = matched + 1;
        }
        fuel_left = fuel_left - 1;
    }
}

/// `check_output` on registers `r`, program `words` and budget `fuel`.
pub open spec fn check_spec(r: Registers, words: Seq<u64>, desired: Seq<u64>, fuel: nat) -> Result<
    nat,
    ExecError,
> {
    match decode_program(words) {
        Err(e) => Err(e),
        Ok(instrs) => check_from(instrs, words.len(), r, 0, fuel, desired, 0),
    }
}

proof fn lemma_check_follows_run(
    instrs: Seq<Instruction>,
    len: nat,
    r: Registers,
    pc: nat,
    fuel: nat,
    desired: Seq<u64>,
    k: nat,
)
    requires
        k <= desired.len(),
        run_from(instrs, len, r, pc, fuel) is Ok,
    ensures
        check_from(instrs, len, r, pc, fuel, desired, k) == Ok::<nat, ExecError>(
            k + common_prefix_len(run_from(instrs, len, r, pc, fuel)->Ok_0.1, desired.skip(k as int)),
        ),
    decreases fuel,
{
    if halted(instrs, pc) {
    } else if fuel == 0 {
    } else {
        let (r2, pc2, emitted) = step_spec(instrs, len, r, pc)->Ok_0;
        let rest = run_from(instrs, len, r2, pc2, (fuel - 1) as nat);
        let out = run_from(instrs, len, r, pc, fuel)->Ok_0.1;
        match emitted {
            Some(v) => {
                assert(out == seq![v] + rest->Ok_0.1);
                assert(out[0] == v);
                assert(out.drop_first() =~= rest->Ok_0.1);
                if k >= desired.len() || v != desired[k as int] {
                } else {
                    lemma_check_follows_run(instrs, len, r2, pc2, (fuel - 1) as nat, desired, k + 1);
                    assert(desired.skip(k as int).drop_first() =~= desired.skip(k + 1 as int));
                }
            },
            None => {
                assert(out =~= rest->Ok_0.1);
                lemma_check_follows_run(instrs, len, r2, pc2, (fuel - 1) as nat, desired, k);
            },
        }
    }
}

/// On a run that halts, `check_output` counts the leading values that the
/// output and `desired` have in common.
pub proof fn lemma_check_output_is_common_prefix(r: Registers, words: Seq<u64>, desired: Seq<u64>, fuel: nat)
    requires
        run_spec(r, words, fuel) is Ok,
    ensures
        check_spec(r, words, desired, fuel) == Ok::<nat, ExecError>(
            common_prefix_len(run_spec(r, words, fuel)->Ok_0.1, desired),
        ),
{
    let instrs = decode_program(words)->Ok_0;
    lemma_check_follows_run(instrs, words.len(), r, 0, fuel, desired, 0);
    assert(desired.skip(0) =~= desired);
}

proof fn lemma_run_from_more_fuel(
    instrs: Seq<Instruction>,
    len: nat,
    r: Registers,
    pc: nat,
    fuel: nat,
    more: nat,
)
    requires
        fuel <= more,
        run_from(instrs, len, r, pc, fuel) != Err::<(Registers, Seq<u64>), ExecError>(
            ExecError::FuelExhausted,
        ),
    ensures
        run_from(instrs, len, r, pc, more) == run_from(instrs, len, r, pc, fuel),
    decreases fuel,
{
    if !halted(instrs, pc) && fuel > 0 {
        if let Ok((r2, pc2, _)) = step_spec(instrs, len, r, pc) {
            lemma_run_from_more_fuel(instrs, len, r2, pc2, (fuel - 1) as nat, (more - 1) as nat);
        }
    }
}

/// A run's outcome is determined by the registers and the program:
/// `run_program` returns `run_spec` of its arguments, so repeated runs agree,
/// and the budget only decides whether the run gets to finish. A run that
/// ends other than by running out of fuel ends the same way, with the same
/// registers and output, under any larger budget.
pub proof fn lemma_run_deterministic(r: Registers, words: Seq<u64>, fuel: nat, more: nat)
    requires
        fuel <= more,
        run_spec(r, words, fuel) != Err::<(Registers, Seq<u64>), ExecError>(ExecError::FuelExhausted),
    ensures
        run_spec(r, words, more) == run_spec(r, words, fuel),
{
    if let Ok(instrs) = decode_program(words) {
        lemma_run_from_more_fuel(instrs, words.len(), r, 0, fuel, more);
    }
}

proof fn lemma_state_after_even(instrs: Seq<Instruction>, len: nat, r: Registers, pc: nat, k: nat)
    requires
        pc % 2 == 0,
    ensures
        state_after(instrs, len, r, pc, k) matches Some((_, p)) ==> p % 2 == 0,
    decreases k,
{
    if k > 0 && !halted(instrs, pc) {
        if let Ok((r2, pc2, _)) = step_spec(instrs, len, r, pc) {
            lemma_state_after_even(instrs, len, r2, pc2, (k - 1) as nat);
        }
    }
}

/// The machine only ever stands at even program indices, so opcodes are
/// read at even indices and operands at the odd ones after them: every
/// state a run from index 0 reaches has an even index, and a taken jump to
/// an odd index fails with `JumpOutOfRange`.
pub proof fn lemma_pc_alignment(instrs: Seq<Instruction>, len: nat, r: Registers, pc: nat, k: nat)
    ensures
        state_after(instrs, len, r, 0, k) matches Some((_, p)) ==> p % 2 == 0,
        (!halted(instrs, pc) && (exec_spec(instrs[(pc / 2) as int], r).2 matches Some(t) && t % 2 == 1))
            ==> step_spec(instrs, len, r, pc) == Err::<(Registers, nat, Option<u64>), ExecError>(
            ExecError::JumpOutOfRange,
        ),
{
    lemma_state_after_even(instrs, len, r, 0, k);
}

/// Combo operands 4, 5 and 6 stand for registers A, B and C as they are when
/// the instruction executes, not when it was decoded: each instruction that
/// takes a combo operand acts on the live register value.
pub proof fn lemma_combo_reads_live_registers(n: u64, r: Registers)
    requires
        4 <= n <= 6,
    ensures
        ({
            let live = if n == 4 {
                r.a
            } else if n == 5 {
                r.b
            } else {
                r.c
            };
            &&& combo_spec(n, r) == live
            &&& exec_spec(Instruction::Out(n), r).1 == Some((live % 8) as u64)
            &&& exec_spec(Instruction::Bst(n), r).0.b == live % 8
            &&& exec_spec(Instruction::Adv(n), r).0.a == shr_spec(r.a, live)
            &&& exec_spec(Instruction::Bdv(n), r).0.b == shr_spec(r.a, live)
            &&& exec_spec(Instruction::Cdv(n), r).0.c == shr_spec(r.a, live)
        }),
{
}

} // verus!
