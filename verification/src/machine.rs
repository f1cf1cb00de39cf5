use vstd::prelude::*;

verus! {

use crate::compile::{ascii_bytes, compile_from, compile_spec, compile_step};
use crate::opcode::{Error, Opcode, TAPE_LEN};
use crate::semantics::{
    halted, lemma_trace_extend, lemma_trace_stops_once, needs_input, state_wf, step, steps,
    target_in_range, trace_ok, VmState,
};
use vstd::string::StringSliceAdditionalSpecFns;
use vstd::string::StrSliceExecFns;

broadcast use vstd::string::is_ascii_spec_bytes, vstd::slice::group_slice_axioms;

/// The most steps one call of `run` will execute before it gives up with
/// `Error::StepLimitReached`.
pub const STEP_LIMIT: u64 = u64::MAX;

/// A compiled program together with the machine state it runs against: the
/// opcode sequence, the instruction pointer, the tape with its cursor, and
/// the input buffer.
pub struct Program {
    code: Vec<Opcode>,
    ip: usize,
    ptr: usize,
    cells: Vec<u8>,
    input: Vec<u8>,
}

impl View for Program {
    type V = VmState;

    /// The machine as it stands ready to run: its input cursor at the
    /// start and nothing written to the output yet.
    closed spec fn view(&self) -> VmState {
        VmState {
            code: self.code@,
            ip: self.ip as int,
            ptr: self.ptr as int,
            cells: self.cells@,
            input: self.input@,
            in_pos: 0,
            output: Seq::empty(),
        }
    }
}

impl Program {
    /// The machine state is one that execution can trust.
    pub open spec fn wf(&self) -> bool {
        state_wf(self@)
    }

    /// Compiles `source` into a ready-to-run machine: every `[` and `]`
    /// resolved to the index of its partner, the tape all zero with the
    /// cursor at its midpoint, and `input` stored as the input buffer.
    /// Rejects non-ASCII source or input and unmatched brackets with the
    /// error named for them.
    pub fn new(source: &str, input: &str) -> (r: Result<Program, Error>)
        ensures
            match r {
                Ok(p) => {
                    &&& compile_spec(source@) == Ok::<Seq<Opcode>, Error>(p@.code)
                    &&& vstd::utf8::is_ascii_chars(input@)
                    &&& p@.ip == 0
                    &&& p@.ptr == TAPE_LEN as int / 2
                    &&& p@.cells == Seq::new(TAPE_LEN as nat, |j: int| 0u8)
                    &&& p@.input == ascii_bytes(input@)
                    &&& p@.in_pos == 0
                    &&& p@.output == Seq::<u8>::empty()
                    &&& p.wf()
                },
                Err(e) => {
                    if !vstd::utf8::is_ascii_chars(source@) {
                        e == Error::NonAsciiSource
                    } else if !vstd::utf8::is_ascii_chars(input@) {
                        e == Error::NonAsciiInput
                    } else {
                        compile_spec(source@) == Err::<Seq<Opcode>, Error>(e)
                    }
                },
            },
    {
        if !source.is_ascii() {
            return Err(Error::NonAsciiSource);
        }
        if !input.is_ascii() {
            return Err(Error::NonAsciiInput);
        }
        let ghost sb = ascii_bytes(source@);
        let bytes = source.as_bytes();
        proof {
            assert(source.spec_bytes() =~= sb);
        }
        let n = bytes.len();
        let mut code: Vec<Opcode> = Vec::new();
        let mut stack: Vec<usize> = Vec::new();
        let mut i: usize = 0;
        while i < n
            invariant
                source.is_ascii(),
                input.is_ascii(),
                sb == ascii_bytes(source@),
                bytes@ == sb,
                i <= n,
                sb.len() == n,
                compile_from(sb, 0, Seq::empty(), Seq::empty()) == compile_from(
                    sb,
                    i as int,
                    code@,
                    stack@,
                ),
                forall|j: int| 0 <= j < stack@.len() ==> (#[trigger] stack@[j]) < code@.len(),
                forall|j: int|
                    0 <= j < code@.len() ==> target_in_range(
                        #[trigger] code@[j],
                        code@.len() as nat,
                    ),
            decreases n - i,
        {
            let ghost code0 = code@;
            let ghost stack0 = stack@;
            let b = bytes[i];
            proof {
                assert(b == sb[i as int]);
            }
            if b == '>' as u8 {
                code.push(Opcode::IncPtr);
            } else if b == '<' as u8 {
                code.push(Opcode::DecPtr);
            } else if b == '+' as u8 {
                code.push(Opcode::IncCell);
            } else if b == '-' as u8 {
                code.push(Opcode::DecCell);
            } else if b == '.' as u8 {
                code.push(Opcode::Output);
            } else if b == ',' as u8 {
                code.push(Opcode::Input);
            } else if b == '[' as u8 {
                stack.push(code.len());
                code.push(Opcode::LoopStart(0));
            } else if b == ']' as u8 {
                match stack.pop() {
                    None => {
                        proof {
                            assert(compile_from(sb, i as int, code0, stack0) is None);
                        }
                        return Err(Error::UnmatchedClosingBracket);
                    },
                    Some(s) => {
                        let t = code.len();
                        code.set(s, Opcode::LoopStart(t));
                        code.push(Opcode::LoopEnd(s));
                    },
                }
            }
            proof {
                assert(compile_step(code0, stack0, b) == Some((code@, stack@)));
                assert(compile_from(sb, i as int, code0, stack0) == compile_from(
                    sb,
                    i as int + 1,
                    code@,
                    stack@,
                ));
                assert forall|j: int|
                    0 <= j < code@.len() implies target_in_range(
                    #[trigger] code@[j],
                    code@.len() as nat,
                ) by {
                    if j < code0.len() && code@[j] == code0[j] {
                        assert(target_in_range(code0[j], code0.len() as nat));
                    }
                }
            }
            i = i + 1;
        }
        if stack.len() > 0 {
            return Err(Error::UnmatchedOpeningBracket);
        }
        let mut cells: Vec<u8> = Vec::new();
        while cells.len() < TAPE_LEN
            invariant
                forall|j: int| 0 <= j < cells@.len() ==> cells@[j] == 0u8,
                cells@.len() <= TAPE_LEN,
            decreases TAPE_LEN - cells@.len(),
        {
            cells.push(0);
        }
        proof {
            assert(cells@ =~= Seq::new(TAPE_LEN as nat, |j: int| 0u8));
        }
        let program = Program { code, ip: 0, ptr: TAPE_LEN / 2, cells, input: input.as_bytes_vec() };
        proof {
            assert(input.spec_bytes() =~= ascii_bytes(input@));
        }
        Ok(program)
    }

    /// How many opcodes the compiled program holds.
    pub fn code_len(&self) -> (n: usize)
        ensures
            n == self@.code.len(),
    {
        self.code.len()
    }

    /// The machine mid-run: as the fields stand, but with the input cursor
    /// at `pos` and `out` already written.
    spec fn mid(self, pos: int, out: Seq<u8>) -> VmState {
        VmState { in_pos: pos, output: out, ..self@ }
    }

    /// Runs the program: steps the machine until the instruction pointer
    /// leaves the code, and returns the bytes the program wrote, in order.
    /// Fails with `InputExhausted` the moment an input instruction finds
    /// the input already consumed, and with `StepLimitReached` when
    /// `STEP_LIMIT` steps were not enough to halt. A program that halts
    /// within the budget always succeeds; one that starves within it
    /// always fails with `InputExhausted`.
    pub fn run(&mut self) -> (r: Result<Vec<u8>, Error>)
        requires
            old(self).wf(),
        ensures
            final(self).wf(),
            final(self)@.code == old(self)@.code,
            final(self)@.input == old(self)@.input,
            final(self)@.in_pos == old(self)@.in_pos,
            final(self)@.output == old(self)@.output,
            (exists|m: nat|
                m <= STEP_LIMIT && trace_ok(old(self)@, m) && halted(
                    #[trigger] steps(old(self)@, m),
                )) ==> r is Ok,
            (exists|m: nat|
                m < STEP_LIMIT && trace_ok(old(self)@, m) && needs_input(
                    #[trigger] steps(old(self)@, m),
                )) ==> (r matches Err(e) && e == Error::InputExhausted),
            match r {
                Ok(out) => exists|n: nat|
                    {
                        &&& n <= STEP_LIMIT
                        &&& trace_ok(old(self)@, n)
                        &&& halted(#[trigger] steps(old(self)@, n))
                        &&& out@ == steps(old(self)@, n).output
                        &&& final(self)@.ip == steps(old(self)@, n).ip
                        &&& final(self)@.ptr == steps(old(self)@, n).ptr
                        &&& final(self)@.cells == steps(old(self)@, n).cells
                    },
                Err(e) => {
                    ||| {
                        &&& e == Error::InputExhausted
                        &&& exists|n: nat|
                            {
                                &&& n <= STEP_LIMIT
                                &&& trace_ok(old(self)@, n)
                                &&& needs_input(#[trigger] steps(old(self)@, n))
                            }
                    }
                    ||| {
                        &&& e == Error::StepLimitReached
                        &&& trace_ok(old(self)@, STEP_LIMIT as nat)
                        &&& !halted(steps(old(self)@, STEP_LIMIT as nat))
                    }
                },
            },
    {
        let ghost init: VmState = self@;
        let mut pos: usize = 0;
        let mut out: Vec<u8> = Vec::new();
        let mut fuel: u64 = STEP_LIMIT;
        let ghost mut n: nat = 0nat;
        while self.ip < self.code.len() && fuel > 0
            invariant
                init == old(self)@,
                self.wf(),
                n + fuel == STEP_LIMIT,
                trace_ok(init, n),
                self.mid(pos as int, out@) == steps(init, n),
                init.code == self@.code,
                init.input == self@.input,
                pos <= self.input.len(),
            decreases fuel,
        {
            let ghost pre = steps(init, n);
            proof {
                assert(self.mid(pos as int, out@) == pre);
                assert(!halted(pre));
                assert(target_in_range(self.code@[self.ip as int], self.code@.len() as nat));
            }
            let op = self.code[self.ip];
            match op {
                Opcode::IncPtr => {
                    self.ptr = if self.ptr + 1 == TAPE_LEN {
                        0
                    } else {
                        self.ptr + 1
                    };
                },
                Opcode::DecPtr => {
                    self.ptr = if self.ptr == 0 {
                        TAPE_LEN - 1
                    } else {
                        self.ptr - 1
                    };
                },
                Opcode::IncCell => {
                    let c = self.cells[self.ptr];
                    self.cells.set(
                        self.ptr,
                        if c == 255 {
                            0
                        } else {
                            c + 1
                        },
                    );
                },
                Opcode::DecCell => {
                    let c = self.cells[self.ptr];
                    self.cells.set(
                        self.ptr,
                        if c == 0 {
                            255
                        } else {
                            c - 1
                        },
                    );
                },
                Opcode::Output => {
                    out.push(self.cells[self.ptr]);
                },
                Opcode::Input => {
                    if pos < self.input.len() {
                        let b = self.input[pos];
                        self.cells.set(self.ptr, b);
                        pos = pos + 1;
                    } else {
                        proof {
                            assert(needs_input(steps(init, n)));
                            assert forall|m: nat|
                                !(m <= STEP_LIMIT && trace_ok(init, m) && halted(
                                    #[trigger] steps(init, m),
                                )) by {
                                if m <= STEP_LIMIT && trace_ok(init, m) && halted(
                                    steps(init, m),
                                ) {
                                    lemma_trace_stops_once(init, n, m);
                                }
                            }
                        }
                        return Err(Error::InputExhausted);
                    }
                },
                Opcode::LoopStart(t) => {
                    if self.cells[self.ptr] == 0 {
                        self.ip = t;
                    }
                },
                Opcode::LoopEnd(t) => {
                    if self.cells[self.ptr] != 0 {
                        self.ip = t;
                    }
                },
            }
            self.ip = self.ip + 1;
            fuel = fuel - 1;
            proof {
                assert(!needs_input(pre));
                lemma_trace_extend(init, n);
                assert(steps(init, n + 1) == step(pre));
                assert(self.mid(pos as int, out@) == step(pre));
                n = n + 1nat;
            }
        }
        if fuel == 0 && self.ip < self.code.len() {
            proof {
                assert(n == STEP_LIMIT);
                assert(!halted(steps(init, n)));
                assert forall|m: nat|
                    !(m <= STEP_LIMIT && trace_ok(init, m) && halted(
                        #[trigger] steps(init, m),
                    )) by {
                    if m < STEP_LIMIT && trace_ok(init, m) && halted(steps(init, m)) {
                        assert(!halted(steps(init, m)));
                    }
                }
                assert forall|m: nat|
                    !(m < STEP_LIMIT && trace_ok(init, m) && needs_input(
                        #[trigger] steps(init, m),
                    )) by {
                    if m < STEP_LIMIT && trace_ok(init, m) && needs_input(steps(init, m)) {
                        assert(!needs_input(steps(init, m)));
                    }
                }
            }
            return Err(Error::StepLimitReached);
        }
        proof {
            assert(halted(steps(init, n)));
            assert forall|m: nat|
                !(m < STEP_LIMIT && trace_ok(init, m) && needs_input(
                    #[trigger] steps(init, m),
                )) by {
                if m < STEP_LIMIT && trace_ok(init, m) && needs_input(steps(init, m)) {
                    lemma_trace_stops_once(init, n, m);
                }
            }
        }
        Ok(out)
    }
}

} // verus!
