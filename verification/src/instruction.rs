//! The instruction set: one tag per recognized source symbol, a `Comment`
//! tag for every other character, and the `End` sentinel that terminates
//! every parsed programme.

use vstd::prelude::*;

verus! {

/// One instruction of the tape language.
///
/// `JumpOpen` and `JumpClose` carry the distance (in instruction slots) to
/// their matching partner, computed once at parse time. `Comment` carries the
/// source character; it never appears in a parsed programme. `End` is
/// appended exactly once, after the last real instruction.
#[derive(Debug, Copy, Clone, PartialEq, Eq, Structural)]
pub enum Instruction {
    Right,
    Left,
    Increment,
    Decrement,
    Output,
    Input,
    JumpOpen(usize),
    JumpClose(usize),
    Comment(char),
    End,
}

/// The fixed symbol table: the instruction a source character stands for.
/// Brackets map to placeholder jumps with offset 0; the parser backpatches
/// the real offsets once the matching partner is found.
pub open spec fn instruction_of_char(c: char) -> Instruction {
    if c == '>' {
        Instruction::Right
    } else if c == '<' {
        Instruction::Left
    } else if c == '+' {
        Instruction::Increment
    } else if c == '-' {
        Instruction::Decrement
    } else if c == '.' {
        Instruction::Output
    } else if c == ',' {
        Instruction::Input
    } else if c == '[' {
        Instruction::JumpOpen(0)
    } else if c == ']' {
        Instruction::JumpClose(0)
    } else {
        Instruction::Comment(c)
    }
}

impl From<char> for Instruction {
    fn from(c: char) -> (r: Instruction) {
        match c {
            '>' => Instruction::Right,
            '<' => Instruction::Left,
            '+' => Instruction::Increment,
            '-' => Instruction::Decrement,
            '.' => Instruction::Output,
            ',' => Instruction::Input,
            '[' => Instruction::JumpOpen(0),
            ']' => Instruction::JumpClose(0),
            _ => Instruction::Comment(c),
        }
    }
}

impl vstd::std_specs::convert::FromSpecImpl<char> for Instruction {
    open spec fn obeys_from_spec() -> bool {
        true
    }

    open spec fn from_spec(c: char) -> Instruction {
        instruction_of_char(c)
    }
}

} // verus!
