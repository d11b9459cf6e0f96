use vstd::prelude::*;

verus! {

/// One compiled unit of a program.
#[derive(Debug, Clone, Copy, PartialEq, Eq, Structural)]
pub enum Instruction {
    /// Move the data pointer this many cells to the right.
    MoveRight(usize),
    /// Move the data pointer this many cells to the left.
    MoveLeft(usize),
    /// Add this amount to the current cell, modulo 256.
    Add(u8),
    /// Subtract this amount from the current cell, modulo 256.
    Sub(u8),
    /// Skip past the matching `LoopEnd` when the current cell is zero.
    LoopStart,
    /// Go back to just after the matching `LoopStart` when the current cell is nonzero.
    LoopEnd,
    /// Emit the current cell.
    Output,
    /// Replace the current cell with one byte of input.
    Input,
}

/// The four symbols whose consecutive repeats collapse into one instruction.
pub open spec fn is_run_symbol(c: char) -> bool {
    c == '>' || c == '<' || c == '+' || c == '-'
}

/// The eight symbols of the language; every other character is ignored.
pub open spec fn is_command(c: char) -> bool {
    is_run_symbol(c) || c == '.' || c == ',' || c == '[' || c == ']'
}

/// The instruction that a run of `rep` copies of `sym` collapses into.
pub open spec fn unit_of(sym: char, rep: nat) -> Instruction {
    if sym == '>' {
        Instruction::MoveRight(rep as usize)
    } else if sym == '<' {
        Instruction::MoveLeft(rep as usize)
    } else if sym == '+' {
        Instruction::Add((rep % 256) as u8)
    } else {
        Instruction::Sub((rep % 256) as u8)
    }
}

impl Instruction {
    /// The instruction for a run of `rep` copies of the symbol `sym`; the
    /// count of a cell operation is kept modulo 256.
    pub fn from_sym_rep(sym: char, rep: usize) -> (r: Instruction)
        requires
            is_run_symbol(sym),
        ensures
            r == unit_of(sym, rep as nat),
    {
        if sym == '>' {
            Instruction::MoveRight(rep)
        } else if sym == '<' {
            Instruction::MoveLeft(rep)
        } else if sym == '+' {
            Instruction::Add((rep % 256) as u8)
        } else {
            Instruction::Sub((rep % 256) as u8)
        }
    }

    /// Whether this is a loop start.
    pub fn is_start(&self) -> (r: bool)
        ensures
            r == (*self is LoopStart),
    {
        match *self {
            Instruction::LoopStart => true,
            _ => false,
        }
    }
}

} // verus!
