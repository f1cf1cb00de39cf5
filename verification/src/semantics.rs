use vstd::prelude::*;

verus! {

use crate::opcode::{Opcode, TAPE_LEN};

/// The whole state of a running machine: the compiled code, the
/// instruction pointer, the tape with its cursor, the input with its
/// forward-only cursor, and the output emitted so far.
pub ghost struct VmState {
    pub code: Seq<Opcode>,
    pub ip: int,
    pub ptr: int,
    pub cells: Seq<u8>,
    pub input: Seq<u8>,
    pub in_pos: int,
    pub output: Seq<u8>,
}

/// A cell holds one byte; adding one wraps 255 around to 0.
pub open spec fn cell_inc(c: u8) -> u8 {
    if c == 255 {
        0
    } else {
        (c + 1) as u8
    }
}

/// A cell holds one byte; subtracting one wraps 0 around to 255.
pub open spec fn cell_dec(c: u8) -> u8 {
    if c == 0 {
        255
    } else {
        (c - 1) as u8
    }
}

/// The tape cursor moves right modulo the tape length.
pub open spec fn ptr_inc(p: int) -> int {
    if p + 1 == TAPE_LEN as int {
        0
    } else {
        p + 1
    }
}

/// The tape cursor moves left modulo the tape length.
pub open spec fn ptr_dec(p: int) -> int {
    if p == 0 {
        TAPE_LEN as int - 1
    } else {
        p - 1
    }
}

/// Whether one opcode's jump target lies inside a program of `len`
/// opcodes.
pub open spec fn target_in_range(op: Opcode, len: nat) -> bool {
    match op {
        Opcode::LoopStart(t) => t < len,
        Opcode::LoopEnd(t) => t < len,
        _ => true,
    }
}

/// A machine state that execution can trust: the tape has its fixed
/// length, the cursor lies on it, and every jump target lies inside the
/// code.
pub open spec fn state_wf(s: VmState) -> bool {
    &&& s.cells.len() == TAPE_LEN
    &&& 0 <= s.ptr < TAPE_LEN as int
    &&& forall|i: int|
        0 <= i < s.code.len() ==> target_in_range(#[trigger] s.code[i], s.code.len())
}

/// Execution is over: the instruction pointer no longer indexes the code.
pub open spec fn halted(s: VmState) -> bool {
    !(0 <= s.ip < s.code.len())
}

/// The next instruction is an input instruction and the input is already
/// exhausted, so no step can be taken.
pub open spec fn needs_input(s: VmState) -> bool {
    &&& !halted(s)
    &&& s.code[s.ip] is Input
    &&& s.in_pos >= s.input.len()
}

/// One fetch-decode-execute step, for a state that is neither halted nor
/// starved of input. A taken jump lands one past the target, because the
/// instruction pointer advances after the jump.
pub open spec fn step(s: VmState) -> VmState {
    match s.code[s.ip] {
        Opcode::IncPtr => VmState { ip: s.ip + 1, ptr: ptr_inc(s.ptr), ..s },
        Opcode::DecPtr => VmState { ip: s.ip + 1, ptr: ptr_dec(s.ptr), ..s },
        Opcode::IncCell => VmState {
            ip: s.ip + 1,
            cells: s.cells.update(s.ptr, cell_inc(s.cells[s.ptr])),
            ..s
        },
        Opcode::DecCell => VmState {
            ip: s.ip + 1,
            cells: s.cells.update(s.ptr, cell_dec(s.cells[s.ptr])),
            ..s
        },
        Opcode::Output => VmState { ip: s.ip + 1, output: s.output.push(s.cells[s.ptr]), ..s },
        Opcode::Input => VmState {
            ip: s.ip + 1,
            cells: s.cells.update(s.ptr, s.input[s.in_pos]),
            in_pos: s.in_pos + 1,
            ..s
        },
        Opcode::LoopStart(t) => VmState {
            ip: if s.cells[s.ptr] == 0 {
                t + 1
            } else {
                s.ip + 1
            },
            ..s
        },
        Opcode::LoopEnd(t) => VmState {
            ip: if s.cells[s.ptr] != 0 {
                t + 1
            } else {
                s.ip + 1
            },
            ..s
        },
    }
}

/// The state after `n` steps from `s`.
pub open spec fn steps(s: VmState, n: nat) -> VmState
    decreases n,
{
    if n == 0 {
        s
    } else {
        step(steps(s, (n - 1) as nat))
    }
}

/// The first `n` steps from `s` are all possible: none of the states
/// passed through is halted or starved of input.
pub open spec fn trace_ok(s: VmState, n: nat) -> bool {
    forall|k: nat|
        k < n ==> !halted(#[trigger] steps(s, k)) && !needs_input(steps(s, k))
}

/// The cell after `n` single increments.
pub open spec fn cell_inc_n(c: u8, n: nat) -> u8
    decreases n,
{
    if n == 0 {
        c
    } else {
        cell_inc(cell_inc_n(c, (n - 1) as nat))
    }
}

/// Up to one full wrap, repeated increments add and then fold once.
proof fn lemma_cell_inc_n_val(c: u8, n: nat)
    requires
        n <= 256,
    ensures
        cell_inc_n(c, n) as int == if c + n < 256 {
            c + n
        } else {
            c + n - 256
        },
    decreases n,
{
    if n > 0 {
        lemma_cell_inc_n_val(c, (n - 1) as nat);
    }
}

/// Law: incrementing a cell 256 times returns it to its original value,
/// and decrementing once from 0 yields 255.
pub proof fn lemma_cell_round_trip(c: u8)
    ensures
        cell_inc_n(c, 256) == c,
        cell_dec(0) == 255,
{
    lemma_cell_inc_n_val(c, 256);
}

/// The cursor after `n` single moves to the right.
pub open spec fn ptr_inc_n(p: int, n: nat) -> int
    decreases n,
{
    if n == 0 {
        p
    } else {
        ptr_inc(ptr_inc_n(p, (n - 1) as nat))
    }
}

/// Up to one full wrap, repeated right moves add and then fold once.
proof fn lemma_ptr_inc_n_val(p: int, n: nat)
    requires
        0 <= p < TAPE_LEN as int,
        n <= TAPE_LEN,
    ensures
        ptr_inc_n(p, n) == if p + n < TAPE_LEN as int {
            p + n
        } else {
            p + n - TAPE_LEN as int
        },
    decreases n,
{
    if n > 0 {
        lemma_ptr_inc_n_val(p, (n - 1) as nat);
    }
}

/// Law: moving the cursor right tape-length times returns it to its
/// original position.
pub proof fn lemma_ptr_round_trip(p: int)
    requires
        0 <= p < TAPE_LEN as int,
    ensures
        ptr_inc_n(p, TAPE_LEN as nat) == p,
{
    lemma_ptr_inc_n_val(p, TAPE_LEN as nat);
}

/// A valid trace of `n` steps grows by one more possible step.
pub proof fn lemma_trace_extend(s: VmState, n: nat)
    requires
        trace_ok(s, n),
        !halted(steps(s, n)),
        !needs_input(steps(s, n)),
    ensures
        trace_ok(s, n + 1),
{
    assert forall|k: nat| k < n + 1 implies !halted(#[trigger] steps(s, k)) && !needs_input(
        steps(s, k),
    ) by {
        if k < n {
            assert(!halted(steps(s, k)) && !needs_input(steps(s, k)));
        }
    }
}

/// Law: execution is deterministic, so a machine gets stuck — halts, or
/// starves on an input instruction — at most once: two valid traces that
/// both end stuck have the same length.
pub proof fn lemma_trace_stops_once(s: VmState, n: nat, m: nat)
    requires
        trace_ok(s, n),
        trace_ok(s, m),
        halted(steps(s, n)) || needs_input(steps(s, n)),
        halted(steps(s, m)) || needs_input(steps(s, m)),
    ensures
        n == m,
{
    if n < m {
        assert(!halted(steps(s, n)) && !needs_input(steps(s, n)));
    }
    if m < n {
        assert(!halted(steps(s, m)) && !needs_input(steps(s, m)));
    }
}

/// After `k` of its pairs, the echo program has read and written exactly
/// the first `k` input bytes.
proof fn lemma_echo_progress(s0: VmState, k: nat)
    requires
        state_wf(s0),
        s0.ip == 0,
        s0.in_pos == 0,
        s0.output == Seq::<u8>::empty(),
        s0.code == crate::compile::echo_code(s0.input.len()),
        k <= s0.input.len(),
    ensures
        trace_ok(s0, 2 * k),
        steps(s0, 2 * k).code == s0.code,
        steps(s0, 2 * k).input == s0.input,
        steps(s0, 2 * k).ip == 2 * k,
        steps(s0, 2 * k).ptr == s0.ptr,
        steps(s0, 2 * k).in_pos == k,
        steps(s0, 2 * k).output == s0.input.take(k as int),
        steps(s0, 2 * k).cells.len() == s0.cells.len(),
    decreases k,
{
    let n = s0.input.len();
    if k == 0 {
        assert(s0.input.take(0) =~= s0.output);
    } else {
        lemma_echo_progress(s0, (k - 1) as nat);
        let a: nat = 2 * ((k - 1) as nat);
        let m = steps(s0, a);
        assert(s0.code[a as int] == Opcode::Input);
        assert(!halted(m) && !needs_input(m));
        lemma_trace_extend(s0, a);
        let m2 = step(m);
        assert(steps(s0, a + 1) == m2);
        assert(s0.code[a as int + 1] == Opcode::Output);
        assert(!halted(m2) && !needs_input(m2));
        lemma_trace_extend(s0, a + 1);
        let m3 = step(m2);
        assert(steps(s0, a + 2) == m3);
        assert(2 * k == a + 2);
        assert(m2.cells[m2.ptr] == s0.input[k - 1]);
        assert(m3.output == s0.input.take(k as int - 1).push(s0.input[k - 1]));
        assert(s0.input.take(k as int - 1).push(s0.input[k - 1]) =~= s0.input.take(k as int));
    }
}

/// Law: a program that is nothing but read-write pairs, one pair per
/// input byte, echoes its input byte for byte, in order, and halts with
/// the input exactly consumed.
pub proof fn lemma_echo_runs(s0: VmState)
    requires
        state_wf(s0),
        s0.ip == 0,
        s0.in_pos == 0,
        s0.output == Seq::<u8>::empty(),
        s0.code == crate::compile::echo_code(s0.input.len()),
    ensures
        trace_ok(s0, 2 * s0.input.len()),
        halted(steps(s0, 2 * s0.input.len())),
        steps(s0, 2 * s0.input.len()).output == s0.input,
        steps(s0, 2 * s0.input.len()).in_pos == s0.input.len(),
{
    let n = s0.input.len();
    lemma_echo_progress(s0, n);
    assert(s0.input.take(n as int) =~= s0.input);
}

} // verus!
