use vstd::prelude::*;
use crate::instruction::Instruction;
use crate::program::Program;

verus! {

/// Number of cells on the tape.
pub const TAPE_LEN: usize = 30000;

/// The cell value after adding `n`, modulo 256.
pub open spec fn cell_add(v: u8, n: u8) -> u8 {
    ((v + n) % 256) as u8
}

/// The cell value after subtracting `n`, modulo 256.
pub open spec fn cell_sub(v: u8, n: u8) -> u8 {
    ((v - n + 256) % 256) as u8
}

/// A tape of `TAPE_LEN` zero cells.
pub open spec fn blank_tape() -> Seq<u8> {
    Seq::new(TAPE_LEN as nat, |i: int| 0u8)
}

/// What one step of the machine asks of its surroundings.
#[derive(Debug, Clone, Copy, PartialEq, Eq, Structural)]
pub enum Step {
    /// The instruction ran; nothing to do.
    Continue,
    /// The instruction ran and emitted this byte.
    Output(u8),
    /// The instruction wants one byte of input: hand it to `feed`.
    NeedInput,
    /// The instruction pointer is past the last instruction.
    Halted,
    /// The instruction would move the data pointer off the tape; nothing changed.
    TapeFault,
}

/// The machine state as (instruction pointer, data pointer, tape).
pub type MachineView = (int, int, Seq<u8>);

/// The position that a loop boundary jumps to before the usual advance.
pub open spec fn partner_of(map: Seq<Option<usize>>, ip: int) -> int {
    match map[ip] {
        Some(j) => j as int,
        None => ip,
    }
}

/// One step of the program `(ins, map)` from the state `m`: what it asks for,
/// and the state after it.
pub open spec fn advance(ins: Seq<Instruction>, map: Seq<Option<usize>>, m: MachineView) -> (
    Step,
    MachineView,
) {
    let (ip, dp, tape) = m;
    if !(0 <= ip < ins.len()) {
        (Step::Halted, m)
    } else {
        match ins[ip] {
            Instruction::MoveRight(n) => if dp + n < TAPE_LEN {
                (Step::Continue, (ip + 1, dp + n, tape))
            } else {
                (Step::TapeFault, m)
            },
            Instruction::MoveLeft(n) => if dp - n >= 0 {
                (Step::Continue, (ip + 1, dp - n, tape))
            } else {
                (Step::TapeFault, m)
            },
            Instruction::Add(n) => (Step::Continue, (ip + 1, dp, tape.update(dp, cell_add(tape[dp], n)))),
            Instruction::Sub(n) => (Step::Continue, (ip + 1, dp, tape.update(dp, cell_sub(tape[dp], n)))),
            Instruction::Output => (Step::Output(tape[dp]), (ip + 1, dp, tape)),
            Instruction::Input => (Step::NeedInput, m),
            Instruction::LoopStart => if tape[dp] == 0 {
                (Step::Continue, (partner_of(map, ip) + 1, dp, tape))
            } else {
                (Step::Continue, (ip + 1, dp, tape))
            },
            Instruction::LoopEnd => if tape[dp] != 0 {
                (Step::Continue, (partner_of(map, ip) + 1, dp, tape))
            } else {
                (Step::Continue, (ip + 1, dp, tape))
            },
        }
    }
}

/// The state after an input instruction has stored the byte `b`.
pub open spec fn after_input(m: MachineView, b: u8) -> MachineView {
    (m.0 + 1, m.1, m.2.update(m.1, b))
}

/// Moves a pointer right by `rep`.
pub fn forwards(ptr: &mut usize, rep: usize)
    requires
        *old(ptr) + rep <= usize::MAX,
    ensures
        *final(ptr) == *old(ptr) + rep,
{
    *ptr = *ptr + rep;
}

/// Moves a pointer left by `rep`.
pub fn backwards(ptr: &mut usize, rep: usize)
    requires
        rep <= *old(ptr),
    ensures
        *final(ptr) == *old(ptr) - rep,
{
    *ptr = *ptr - rep;
}

/// Adds `rep` to a cell, modulo 256.
pub fn increment(cell: &mut u8, rep: u8)
    ensures
        *final(cell) == cell_add(*old(cell), rep),
{
    *cell = cell.wrapping_add(rep);
}

/// Subtracts `rep` from a cell, modulo 256.
pub fn decrement(cell: &mut u8, rep: u8)
    ensures
        *final(cell) == cell_sub(*old(cell), rep),
{
    *cell = cell.wrapping_sub(rep);
}

/// The execution state: instruction pointer, data pointer and tape.
pub struct Machine {
    ip: usize,
    dp: usize,
    tape: Vec<u8>,
}

impl View for Machine {
    type V = MachineView;

    closed spec fn view(&self) -> MachineView {
        (self.ip as int, self.dp as int, self.tape@)
    }
}

impl Machine {
    /// The tape has its fixed length, the data pointer is on it, and the
    /// instruction pointer is at most one past the last of `len` instructions.
    pub open spec fn inv(&self, len: nat) -> bool {
        &&& self@.2.len() == TAPE_LEN
        &&& 0 <= self@.1 < TAPE_LEN
        &&& 0 <= self@.0 <= len
    }

    /// A machine at the first instruction, on cell 0 of a blank tape.
    pub fn new() -> (r: Machine)
        ensures
            r@ == (0int, 0int, blank_tape()),
    {
        let mut tape: Vec<u8> = Vec::new();
        while tape.len() < TAPE_LEN
            invariant
                tape.len() <= TAPE_LEN,
                forall|i: int| 0 <= i < tape@.len() ==> tape@[i] == 0,
            decreases TAPE_LEN - tape.len(),
        {
            tape.push(0);
        }
        assert(tape@ =~= blank_tape());
        Machine { ip: 0, dp: 0, tape }
    }

    /// The instruction pointer.
    pub fn instruction_pointer(&self) -> (r: usize)
        ensures
            r == self@.0,
    {
        self.ip
    }

    /// The data pointer.
    pub fn data_pointer(&self) -> (r: usize)
        ensures
            r == self@.1,
    {
        self.dp
    }

    /// The value of cell `i`.
    pub fn cell(&self, i: usize) -> (r: u8)
        requires
            i < self@.2.len(),
        ensures
            r == self@.2[i as int],
    {
        self.tape[i]
    }

    /// Runs one instruction of `prog`, except an input instruction, which
    /// waits for `feed`.
    pub fn step(&mut self, prog: &Program) -> (r: Step)
        requires
            prog.wf(),
            old(self).inv(prog@.0.len()),
        ensures
            (r, final(self)@) == advance(prog@.0, prog@.1, old(self)@),
            final(self).inv(prog@.0.len()),
    {
        let len = prog.len();
        if self.ip >= len {
            return Step::Halted;
        }
        let dp = self.dp;
        match prog.instruction(self.ip) {
            Instruction::MoveRight(n) => {
                if n < TAPE_LEN - dp {
                    forwards(&mut self.dp, n);
                    self.ip = self.ip + 1;
                    Step::Continue
                } else {
                    Step::TapeFault
                }
            },
            Instruction::MoveLeft(n) => {
                if n <= dp {
                    backwards(&mut self.dp, n);
                    self.ip = self.ip + 1;
                    Step::Continue
                } else {
                    Step::TapeFault
                }
            },
            Instruction::Add(n) => {
                let mut v = self.tape[dp];
                increment(&mut v, n);
                self.tape.set(dp, v);
                self.ip = self.ip + 1;
                Step::Continue
            },
            Instruction::Sub(n) => {
                let mut v = self.tape[dp];
                decrement(&mut v, n);
                self.tape.set(dp, v);
                self.ip = self.ip + 1;
                Step::Continue
            },
            Instruction::Output => {
                self.ip = self.ip + 1;
                Step::Output(self.tape[dp])
            },
            Instruction::Input => Step::NeedInput,
            Instruction::LoopStart => {
                if self.tape[dp] == 0 {
                    self.ip = self.jump_target(prog) + 1;
                } else {
                    self.ip = self.ip + 1;
                }
                Step::Continue
            },
            Instruction::LoopEnd => {
                if self.tape[dp] != 0 {
                    self.ip = self.jump_target(prog) + 1;
                } else {
                    self.ip = self.ip + 1;
                }
                Step::Continue
            },
        }
    }

    fn jump_target(&self, prog: &Program) -> (r: usize)
        requires
            prog.wf(),
            0 <= self@.0 < prog@.0.len(),
            prog@.0[self@.0] is LoopStart || prog@.0[self@.0] is LoopEnd,
        ensures
            r == partner_of(prog@.1, self@.0),
            r < prog@.0.len(),
    {
        match prog.partner(self.ip) {
            Some(j) => j,
            None => self.ip,
        }
    }

    /// Completes an input instruction with the byte `b`.
    pub fn feed(&mut self, prog: &Program, b: u8)
        requires
            prog.wf(),
            old(self).inv(prog@.0.len()),
            advance(prog@.0, prog@.1, old(self)@).0 is NeedInput,
        ensures
            final(self)@ == after_input(old(self)@, b),
            final(self).inv(prog@.0.len()),
    {
        let len = prog.len();
        let dp = self.dp;
        self.tape.set(dp, b);
        self.ip = self.ip + 1;
    }
}

/// How a run ended.
#[derive(Debug, Clone, Copy, PartialEq, Eq, Structural)]
pub enum Status {
    /// The step budget ran out first.
    Running,
    /// The instruction pointer ran past the last instruction.
    Halted,
    /// The data pointer would have left the tape.
    TapeFault,
    /// An input instruction found no byte left.
    InputExhausted,
}

/// A whole configuration: machine state, input still unread, output so far.
pub type Config = (MachineView, Seq<u8>, Seq<u8>);

/// One step with its input and output: a fault, halt or missing byte leaves
/// the configuration as it was.
pub open spec fn step_io(ins: Seq<Instruction>, map: Seq<Option<usize>>, c: Config) -> (
    Status,
    Config,
) {
    let (a, m) = advance(ins, map, c.0);
    match a {
        Step::Continue => (Status::Running, (m, c.1, c.2)),
        Step::Output(b) => (Status::Running, (m, c.1, c.2.push(b))),
        Step::NeedInput => if c.1.len() > 0 {
            (Status::Running, (after_input(m, c.1[0]), c.1.drop_first(), c.2))
        } else {
            (Status::InputExhausted, c)
        },
        Step::Halted => (Status::Halted, c),
        Step::TapeFault => (Status::TapeFault, c),
    }
}

/// Up to `fuel` steps from `c`, stopping at the first that does not leave
/// the machine running.
pub open spec fn run_for(ins: Seq<Instruction>, map: Seq<Option<usize>>, c: Config, fuel: nat) -> (
    Status,
    Config,
)
    decreases fuel,
{
    if fuel == 0 {
        (Status::Running, c)
    } else {
        let (st, c2) = step_io(ins, map, c);
        if st is Running {
            run_for(ins, map, c2, (fuel - 1) as nat)
        } else {
            (st, c2)
        }
    }
}

/// The configuration a run starts from, with `input` to read.
pub open spec fn start_config(input: Seq<u8>) -> Config {
    ((0int, 0int, blank_tape()), input, seq![])
}

/// The result of `run`.
pub struct RunOutcome {
    /// How the run ended.
    pub status: Status,
    /// Every byte emitted, in order.
    pub output: Vec<u8>,
    /// How many input bytes were read.
    pub consumed: usize,
    /// The machine as the run left it.
    pub machine: Machine,
}

/// Runs `prog` from a blank tape on `input` for at most `max_steps` steps.
pub fn run(prog: &Program, input: &Vec<u8>, max_steps: usize) -> (r: RunOutcome)
    requires
        prog.wf(),
    ensures
        ({
            let (st, c) = run_for(prog@.0, prog@.1, start_config(input@), max_steps as nat);
            &&& r.status == st
            &&& r.machine@ == c.0
            &&& r.consumed <= input@.len()
            &&& input@.skip(r.consumed as int) == c.1
            &&& r.output@ == c.2
        }),
{
    let ghost ins = prog@.0;
    let ghost map = prog@.1;
    let mut m = Machine::new();
    let mut output: Vec<u8> = Vec::new();
    let mut pos: usize = 0;
    let mut fuel = max_steps;
    proof {
        assert(input@.skip(0) =~= input@);
    }
    while fuel > 0
        invariant
            prog.wf(),
            ins == prog@.0,
            map == prog@.1,
            m.inv(ins.len()),
            pos <= input@.len(),
            run_for(ins, map, start_config(input@), max_steps as nat) == run_for(
                ins,
                map,
                (m@, input@.skip(pos as int), output@),
                fuel as nat,
            ),
        decreases fuel,
    {
        let ghost c = (m@, input@.skip(pos as int), output@);
        let a = m.step(prog);
        match a {
            Step::Continue => {},
            Step::Output(b) => {
                output.push(b);
            },
            Step::NeedInput => {
                if pos < input.len() {
                    m.feed(prog, input[pos]);
                    pos = pos + 1;
                    proof {
                        assert(c.1.drop_first() =~= input@.skip(pos as int));
                    }
                } else {
                    return RunOutcome { status: Status::InputExhausted, output, consumed: pos, machine: m };
                }
            },
            Step::Halted => {
                return RunOutcome { status: Status::Halted, output, consumed: pos, machine: m };
            },
            Step::TapeFault => {
                return RunOutcome { status: Status::TapeFault, output, consumed: pos, machine: m };
            },
        }
        fuel = fuel - 1;
    }
    RunOutcome { status: Status::Running, output, consumed: pos, machine: m }
}

} // verus!
