use vstd::prelude::*;

verus! {

use crate::opcode::{Error, Opcode};

/// True of the bytes that stand for instructions; every other byte is a
/// comment and compiles to nothing.
pub open spec fn recognized(b: u8) -> bool {
    ||| b == ('>' as u8)
    ||| b == ('<' as u8)
    ||| b == ('+' as u8)
    ||| b == ('-' as u8)
    ||| b == ('.' as u8)
    ||| b == (',' as u8)
    ||| b == ('[' as u8)
    ||| b == (']' as u8)
}

/// How one source byte extends the code built so far and the stack of the
/// indices of the `[` opcodes still open. `None` marks a `]` with no `[`
/// open. A `[` emits a `LoopStart` whose target is patched when the
/// matching `]` arrives; the `]` then emits a `LoopEnd` aimed back at it.
pub open spec fn compile_step(code: Seq<Opcode>, stack: Seq<usize>, b: u8) -> Option<
    (Seq<Opcode>, Seq<usize>),
> {
    if b == ('>' as u8) {
        Some((code.push(Opcode::IncPtr), stack))
    } else if b == ('<' as u8) {
        Some((code.push(Opcode::DecPtr), stack))
    } else if b == ('+' as u8) {
        Some((code.push(Opcode::IncCell), stack))
    } else if b == ('-' as u8) {
        Some((code.push(Opcode::DecCell), stack))
    } else if b == ('.' as u8) {
        Some((code.push(Opcode::Output), stack))
    } else if b == (',' as u8) {
        Some((code.push(Opcode::Input), stack))
    } else if b == ('[' as u8) {
        Some((code.push(Opcode::LoopStart(0)), stack.push(code.len() as usize)))
    } else if b == (']' as u8) {
        if stack.len() == 0 {
            None
        } else {
            Some(
                (
                    code.update(
                        stack.last() as int,
                        Opcode::LoopStart(code.len() as usize),
                    ).push(Opcode::LoopEnd(stack.last())),
                    stack.drop_last(),
                ),
            )
        }
    } else {
        Some((code, stack))
    }
}

/// The left-to-right scan from position `i` on, with `code` and `stack`
/// already built from the bytes before `i`.
pub open spec fn compile_from(
    src: Seq<u8>,
    i: int,
    code: Seq<Opcode>,
    stack: Seq<usize>,
) -> Option<(Seq<Opcode>, Seq<usize>)>
    decreases src.len() - i,
{
    if i < 0 || i >= src.len() {
        Some((code, stack))
    } else {
        match compile_step(code, stack, src[i]) {
            None => None,
            Some(next) => compile_from(src, i + 1, next.0, next.1),
        }
    }
}

/// The bytes of an ASCII character sequence, character by character.
pub open spec fn ascii_bytes(s: Seq<char>) -> Seq<u8> {
    s.map(|_i: int, c: char| c as u8)
}

/// What compiling a source text yields: the opcode sequence with both
/// targets of every bracket pair resolved, or the error that stops the
/// scan. A non-ASCII source is rejected before anything is scanned; a `]`
/// with nothing open fails at once; a `[` still open at the end of the
/// scan fails once the scan is over.
pub open spec fn compile_spec(source: Seq<char>) -> Result<Seq<Opcode>, Error> {
    if !vstd::utf8::is_ascii_chars(source) {
        Err(Error::NonAsciiSource)
    } else {
        match compile_from(ascii_bytes(source), 0, Seq::empty(), Seq::empty()) {
            None => Err(Error::UnmatchedClosingBracket),
            Some(done) => if done.1.len() > 0 {
                Err(Error::UnmatchedOpeningBracket)
            } else {
                Ok(done.0)
            },
        }
    }
}

/// How many bytes from position `i` on are instructions rather than
/// comments.
pub open spec fn count_recognized_from(src: Seq<u8>, i: int) -> nat
    decreases src.len() - i,
{
    if i < 0 || i >= src.len() {
        0
    } else {
        (if recognized(src[i]) {
            1nat
        } else {
            0nat
        }) + count_recognized_from(src, i + 1)
    }
}

/// How many bytes of the source are instructions rather than comments.
pub open spec fn count_recognized(src: Seq<u8>) -> nat {
    count_recognized_from(src, 0)
}

/// Every stack entry names a position inside the code built so far.
pub open spec fn stack_in_range(code: Seq<Opcode>, stack: Seq<usize>) -> bool {
    forall|j: int| 0 <= j < stack.len() ==> (#[trigger] stack[j]) < code.len()
}

/// Scanning on from `i` emits exactly one opcode for each recognized byte.
proof fn lemma_compile_from_count(
    src: Seq<u8>,
    i: int,
    code: Seq<Opcode>,
    stack: Seq<usize>,
    c: Seq<Opcode>,
    st: Seq<usize>,
)
    requires
        compile_from(src, i, code, stack) == Some((c, st)),
        stack_in_range(code, stack),
    ensures
        c.len() == code.len() + count_recognized_from(src, i),
    decreases src.len() - i,
{
    if i < 0 || i >= src.len() {
    } else {
        let r = compile_step(code, stack, src[i]);
        assert(r is Some);
        let next_code = r->Some_0.0;
        let next_stack = r->Some_0.1;
        let b = src[i];
        if b == ('>' as u8) || b == ('<' as u8) || b == ('+' as u8) || b == ('-' as u8) || b == (
        '.' as u8) || b == (',' as u8) || b == ('[' as u8) {
            assert(next_code.len() == code.len() + 1);
        } else if b == (']' as u8) {
            assert(stack.len() > 0);
            assert(next_code.len() == code.len() + 1);
            assert(next_stack == stack.drop_last());
        } else {
            assert(!recognized(b));
            assert(next_code.len() == code.len());
        }
        assert(stack_in_range(next_code, next_stack));
        lemma_compile_from_count(src, i + 1, next_code, next_stack, c, st);
    }
}

/// From `i` on, a source whose bytes are all recognized counts its whole
/// remaining length.
proof fn lemma_count_all_recognized(src: Seq<u8>, i: int)
    requires
        0 <= i <= src.len(),
        forall|j: int| 0 <= j < src.len() ==> recognized(#[trigger] src[j]),
    ensures
        count_recognized_from(src, i) == src.len() - i,
    decreases src.len() - i,
{
    if i < src.len() {
        lemma_count_all_recognized(src, i + 1);
    }
}

/// Law: a compiled program holds exactly one opcode for each recognized
/// character of its source; comment characters contribute none. In
/// particular, when every character is recognized, there are as many
/// opcodes as characters.
pub proof fn lemma_opcode_count(source: Seq<char>, code: Seq<Opcode>)
    requires
        compile_spec(source) == Ok::<Seq<Opcode>, Error>(code),
    ensures
        code.len() == count_recognized(ascii_bytes(source)),
        (forall|i: int| 0 <= i < source.len() ==> recognized(#[trigger] ascii_bytes(source)[i]))
            ==> code.len() == source.len(),
{
    let sb = ascii_bytes(source);
    let r = compile_from(sb, 0, Seq::<Opcode>::empty(), Seq::<usize>::empty());
    assert(r is Some);
    lemma_compile_from_count(sb, 0, Seq::empty(), Seq::empty(), r->Some_0.0, r->Some_0.1);
    if forall|i: int| 0 <= i < source.len() ==> recognized(#[trigger] ascii_bytes(source)[i]) {
        lemma_count_all_recognized(sb, 0);
    }
}

/// Whether some stack entry names position `s` of the code.
pub open spec fn on_stack(stack: Seq<usize>, s: int) -> bool {
    exists|j: int| 0 <= j < stack.len() && (#[trigger] stack[j]) as int == s
}

/// What holds of the scan's stack: it lists, strictly left to right, the
/// positions of the `LoopStart` opcodes not yet closed, each still
/// carrying its placeholder target.
pub open spec fn stack_ok(code: Seq<Opcode>, stack: Seq<usize>) -> bool {
    &&& stack_in_range(code, stack)
    &&& forall|j: int|
        0 <= j < stack.len() ==> code[(#[trigger] stack[j]) as int] == Opcode::LoopStart(0usize)
    &&& forall|j: int, k: int| 0 <= j < k < stack.len() ==> stack[j] < stack[k]
}

/// What holds of the code built so far: every emitted `LoopEnd` points
/// back at a `LoopStart` aimed at it, and every `LoopStart` either still
/// waits on the stack or points forward at the `LoopEnd` aimed back at
/// it.
pub open spec fn pairs_ok(code: Seq<Opcode>, stack: Seq<usize>) -> bool {
    &&& forall|e: int|
        0 <= e < code.len() ==> ((#[trigger] code[e]) matches Opcode::LoopEnd(s) ==> s < e
            && code[s as int] == Opcode::LoopStart(e as usize))
    &&& forall|s: int|
        0 <= s < code.len() ==> ((#[trigger] code[s]) matches Opcode::LoopStart(t) ==> ((on_stack(
            stack,
            s,
        ) && t == 0) || (s < t < code.len() && code[t as int] == Opcode::LoopEnd(s as usize))))
}

/// The scan preserves the bracket discipline of `stack_ok` and
/// `pairs_ok`, whatever part of the source is still ahead.
proof fn lemma_compile_from_pairs(
    src: Seq<u8>,
    i: int,
    code: Seq<Opcode>,
    stack: Seq<usize>,
    c: Seq<Opcode>,
    st: Seq<usize>,
)
    requires
        compile_from(src, i, code, stack) == Some((c, st)),
        stack_ok(code, stack),
        pairs_ok(code, stack),
        code.len() + (src.len() - i) <= usize::MAX,
    ensures
        stack_ok(c, st),
        pairs_ok(c, st),
    decreases src.len() - i,
{
    if i < 0 || i >= src.len() {
    } else {
        let b = src[i];
        let r = compile_step(code, stack, b);
        assert(r is Some);
        let code2 = r->Some_0.0;
        let stack2 = r->Some_0.1;
        let len = code.len() as int;
        if b == ('[' as u8) {
            assert(code2 == code.push(Opcode::LoopStart(0usize)));
            assert(stack2 == stack.push(code.len() as usize));
            assert forall|j: int|
                0 <= j < stack2.len() implies (#[trigger] stack2[j]) < code2.len()
                && code2[stack2[j] as int] == Opcode::LoopStart(0usize) by {
                if j < stack.len() {
                    assert(stack2[j] == stack[j]);
                    assert(code2[stack[j] as int] == code[stack[j] as int]);
                }
            }
            assert(stack_ok(code2, stack2));
            assert forall|s: int|
                0 <= s < code2.len() implies ((#[trigger] code2[s]) matches Opcode::LoopStart(t)
                ==> ((on_stack(stack2, s) && t == 0) || (s < t < code2.len() && code2[t as int]
                    == Opcode::LoopEnd(s as usize)))) by {
                match code2[s] {
                    Opcode::LoopStart(t) => {
                        if s == len {
                            assert(stack2[stack.len() as int] as int == s);
                            assert(on_stack(stack2, s));
                        } else {
                            assert(code2[s] == code[s]);
                            if on_stack(stack, s) && t == 0 {
                                let j = choose|j: int|
                                    0 <= j < stack.len() && (#[trigger] stack[j]) as int == s;
                                assert(stack2[j] as int == s);
                                assert(on_stack(stack2, s));
                            }
                        }
                    },
                    _ => {},
                }
            }
            assert(pairs_ok(code2, stack2));
        } else if b == (']' as u8) {
            assert(stack.len() > 0);
            let si = stack.last() as int;
            assert(code[si] == Opcode::LoopStart(0usize));
            assert(code2 == code.update(si, Opcode::LoopStart(code.len() as usize)).push(
                Opcode::LoopEnd(stack.last()),
            ));
            assert(stack2 == stack.drop_last());
            assert forall|j: int|
                0 <= j < stack2.len() implies (#[trigger] stack2[j]) < code2.len()
                && code2[stack2[j] as int] == Opcode::LoopStart(0usize) by {
                assert(stack2[j] == stack[j]);
                assert(stack[j] < stack.last());
                assert(code2[stack[j] as int] == code[stack[j] as int]);
            }
            assert(stack_ok(code2, stack2));
            assert forall|e: int|
                0 <= e < code2.len() implies ((#[trigger] code2[e]) matches Opcode::LoopEnd(s)
                ==> s < e && code2[s as int] == Opcode::LoopStart(e as usize)) by {
                match code2[e] {
                    Opcode::LoopEnd(s) => {
                        if e == len {
                            assert(s as int == si);
                            assert(code2[si] == Opcode::LoopStart(code.len() as usize));
                        } else {
                            assert(e != si);
                            assert(code2[e] == code[e]);
                            assert(code[s as int] == Opcode::LoopStart(e as usize));
                            assert(e >= 1);
                            assert(s as int != si);
                            assert(code2[s as int] == code[s as int]);
                        }
                    },
                    _ => {},
                }
            }
            assert forall|s: int|
                0 <= s < code2.len() implies ((#[trigger] code2[s]) matches Opcode::LoopStart(t)
                ==> ((on_stack(stack2, s) && t == 0) || (s < t < code2.len() && code2[t as int]
                    == Opcode::LoopEnd(s as usize)))) by {
                match code2[s] {
                    Opcode::LoopStart(t) => {
                        if s == si {
                            assert(t == code.len() as usize);
                            assert(code2[len] == Opcode::LoopEnd(stack.last()));
                        } else if s < len {
                            assert(code2[s] == code[s]);
                            if on_stack(stack, s) && t == 0 {
                                let j = choose|j: int|
                                    0 <= j < stack.len() && (#[trigger] stack[j]) as int == s;
                                assert(j < stack.len() - 1) by {
                                    if j == stack.len() - 1 {
                                        assert(stack[j] as int == si);
                                    }
                                }
                                assert(stack2[j] as int == s);
                                assert(on_stack(stack2, s));
                            } else {
                                assert(s < t as int && (t as int) < code.len() && code[t as int]
                                    == Opcode::LoopEnd(s as usize));
                                assert(t as int != si);
                                assert(code2[t as int] == code[t as int]);
                            }
                        }
                    },
                    _ => {},
                }
            }
            assert(pairs_ok(code2, stack2));
        } else if recognized(b) {
            assert(stack2 == stack);
            assert(code2.len() == code.len() + 1);
            assert(code2[len] !is LoopStart && code2[len] !is LoopEnd);
            assert forall|j: int|
                0 <= j < stack2.len() implies (#[trigger] stack2[j]) < code2.len()
                && code2[stack2[j] as int] == Opcode::LoopStart(0usize) by {
                assert(code2[stack[j] as int] == code[stack[j] as int]);
            }
            assert(stack_ok(code2, stack2));
            assert forall|s: int|
                0 <= s < code2.len() implies ((#[trigger] code2[s]) matches Opcode::LoopStart(t)
                ==> ((on_stack(stack2, s) && t == 0) || (s < t < code2.len() && code2[t as int]
                    == Opcode::LoopEnd(s as usize)))) by {
                if s < len && code2[s] matches Opcode::LoopStart(t) {
                    assert(code2[s] == code[s]);
                }
            }
            assert(pairs_ok(code2, stack2));
        } else {
            assert(code2 == code && stack2 == stack);
        }
        lemma_compile_from_pairs(src, i + 1, code2, stack2, c, st);
    }
}

/// Law: in a compiled program, the `LoopStart` and `LoopEnd` of every
/// bracket pair aim exactly at each other, whatever the nesting depth:
/// the `LoopEnd` at `e` carries the index `s` of its `LoopStart`, and
/// that `LoopStart` carries `e`.
pub proof fn lemma_loop_targets(source: Seq<char>, code: Seq<Opcode>)
    requires
        source.len() <= usize::MAX,
        compile_spec(source) == Ok::<Seq<Opcode>, Error>(code),
    ensures
        forall|e: int|
            0 <= e < code.len() ==> ((#[trigger] code[e]) matches Opcode::LoopEnd(s) ==> s < e
                && code[s as int] == Opcode::LoopStart(e as usize)),
        forall|s: int|
            0 <= s < code.len() ==> ((#[trigger] code[s]) matches Opcode::LoopStart(t) ==> s < t
                < code.len() && code[t as int] == Opcode::LoopEnd(s as usize)),
{
    let sb = ascii_bytes(source);
    let r = compile_from(sb, 0, Seq::<Opcode>::empty(), Seq::<usize>::empty());
    assert(r is Some);
    let st = r->Some_0.1;
    lemma_compile_from_pairs(sb, 0, Seq::empty(), Seq::empty(), code, st);
    assert(st.len() == 0);
    assert forall|s: int|
        0 <= s < code.len() implies ((#[trigger] code[s]) matches Opcode::LoopStart(t) ==> s < t
        < code.len() && code[t as int] == Opcode::LoopEnd(s as usize)) by {
        match code[s] {
            Opcode::LoopStart(t) => {
                assert(!on_stack(st, s));
            },
            _ => {},
        }
    }
}

/// A source of `n` read-write pairs: `,` then `.`, `n` times over.
pub open spec fn echo_source(n: nat) -> Seq<char> {
    Seq::new(
        2 * n,
        |i: int|
            if i % 2 == 0 {
                ','
            } else {
                '.'
            },
    )
}

/// The code such a source compiles to: `Input` then `Output`, `n` times.
pub open spec fn echo_code(n: nat) -> Seq<Opcode> {
    Seq::new(
        2 * n,
        |i: int|
            if i % 2 == 0 {
                Opcode::Input
            } else {
                Opcode::Output
            },
    )
}

/// Each scanned pair of the echo source extends the code by its own two
/// opcodes; the stack never comes into play.
proof fn lemma_echo_compile_from(n: nat, i: int)
    requires
        0 <= i <= 2 * n,
    ensures
        compile_from(ascii_bytes(echo_source(n)), i, echo_code(n).take(i), Seq::empty()) == Some(
            (echo_code(n), Seq::<usize>::empty()),
        ),
    decreases 2 * n - i,
{
    let sb = ascii_bytes(echo_source(n));
    if i == 2 * n {
        assert(echo_code(n).take(i) =~= echo_code(n));
    } else {
        let op = if i % 2 == 0 {
            Opcode::Input
        } else {
            Opcode::Output
        };
        assert(sb[i] == (',' as u8) || sb[i] == ('.' as u8));
        assert(echo_code(n).take(i).push(op) =~= echo_code(n).take(i + 1));
        lemma_echo_compile_from(n, i + 1);
    }
}

/// Law: a program of `n` read-write pairs compiles, and to exactly that
/// alternation of `Input` and `Output` opcodes.
pub proof fn lemma_echo_compiles(n: nat)
    ensures
        compile_spec(echo_source(n)) == Ok::<Seq<Opcode>, Error>(echo_code(n)),
{
    assert(vstd::utf8::is_ascii_chars(echo_source(n)));
    assert(echo_code(n).take(0) =~= Seq::<Opcode>::empty());
    lemma_echo_compile_from(n, 0);
}

} // verus!
