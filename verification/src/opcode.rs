use vstd::prelude::*;

verus! {

/// Number of byte cells on the tape.
pub const TAPE_LEN: usize = 32000;

/// One instruction of a compiled program.
///
/// `LoopStart` and `LoopEnd` carry the absolute index, into the opcode
/// sequence, of the opcode that matches their bracket: the position jumped
/// to when the loop is skipped or repeated.
#[derive(Clone, Copy, Debug)]
pub enum Opcode {
    /// `>`: move the tape cursor one cell to the right, wrapping at the end.
    IncPtr,
    /// `<`: move the tape cursor one cell to the left, wrapping at the start.
    DecPtr,
    /// `+`: add one to the current cell, wrapping past 255.
    IncCell,
    /// `-`: subtract one from the current cell, wrapping below 0.
    DecCell,
    /// `.`: emit the current cell as one output byte.
    Output,
    /// `,`: overwrite the current cell with the next input byte.
    Input,
    /// `[`: if the current cell is zero, jump past the matching `]`.
    LoopStart(usize),
    /// `]`: if the current cell is not zero, jump past the matching `[`.
    LoopEnd(usize),
}

/// Everything that can go wrong while compiling or running a program.
#[derive(Clone, Copy, Debug, PartialEq, Eq, Structural)]
pub enum Error {
    /// The source text held a character outside the ASCII range.
    NonAsciiSource,
    /// The input text held a character outside the ASCII range.
    NonAsciiInput,
    /// A `]` appeared with no `[` still open.
    UnmatchedClosingBracket,
    /// A `[` was still open when the source ended.
    UnmatchedOpeningBracket,
    /// An input instruction ran after the whole input had been consumed.
    InputExhausted,
    /// The machine's step budget ran out before the program halted.
    StepLimitReached,
}

} // verus!
