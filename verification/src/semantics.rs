//! Mathematical model of the language: bracket nesting depth, the
//! matching relation between loop-open and loop-close positions, and the
//! small-step execution relation that the machine is proved against.

use vstd::prelude::*;

verus! {

/// +1 for a loop-open, -1 for a loop-close, 0 for every other character.
pub open spec fn bracket_delta(c: char) -> int {
    if c == '[' {
        1
    } else if c == ']' {
        -1
    } else {
        0
    }
}

/// Net bracket depth of the prefix `code[0..n]`: the number of loop-opens
/// minus the number of loop-closes among its first `n` characters.
pub open spec fn depth(code: Seq<char>, n: int) -> int
    decreases n,
{
    if n <= 0 {
        0
    } else {
        depth(code, n - 1) + bracket_delta(code[n - 1])
    }
}

/// A program's brackets nest properly: no prefix closes more loops than it
/// has opened, and every opened loop is closed by the end.
pub open spec fn balanced(code: Seq<char>) -> bool {
    &&& depth(code, code.len() as int) == 0
    &&& forall|n: int| 0 <= n <= code.len() ==> depth(code, n) >= 0
}

/// The loop-close at `j` matches the loop-open at `i`: the depth stays
/// strictly above the open's depth everywhere in between, and the close
/// is the first position that brings it back down.
pub open spec fn is_match(code: Seq<char>, i: int, j: int) -> bool {
    &&& 0 <= i < j < code.len()
    &&& code[i] == '['
    &&& code[j] == ']'
    &&& depth(code, j) == depth(code, i) + 1
    &&& forall|k: int| i < k <= j ==> depth(code, k) > depth(code, i)
}

/// The unique loop-close position matching the loop-open at `i`
/// (meaningful only when such a position exists).
pub open spec fn match_close(code: Seq<char>, i: int) -> int {
    choose|j: int| is_match(code, i, j)
}

/// The unique loop-open position matching the loop-close at `j`
/// (meaningful only when such a position exists).
pub open spec fn match_open(code: Seq<char>, j: int) -> int {
    choose|i: int| is_match(code, i, j)
}

/// A loop-open position has at most one matching close.
pub proof fn lemma_match_close_unique(code: Seq<char>, i: int, j1: int, j2: int)
    requires
        is_match(code, i, j1),
        is_match(code, i, j2),
    ensures
        j1 == j2,
{
    if j1 < j2 {
        assert(depth(code, j1 + 1) == depth(code, i));
        assert(i < j1 + 1 <= j2);
    } else if j2 < j1 {
        assert(depth(code, j2 + 1) == depth(code, i));
        assert(i < j2 + 1 <= j1);
    }
}

/// A loop-close position has at most one matching open.
pub proof fn lemma_match_open_unique(code: Seq<char>, i1: int, i2: int, j: int)
    requires
        is_match(code, i1, j),
        is_match(code, i2, j),
    ensures
        i1 == i2,
{
    if i1 < i2 {
        assert(depth(code, i2) > depth(code, i1));
        assert(depth(code, j) == depth(code, i1) + 1);
        assert(depth(code, j) == depth(code, i2) + 1);
    } else if i2 < i1 {
        assert(depth(code, i1) > depth(code, i2));
        assert(depth(code, j) == depth(code, i1) + 1);
        assert(depth(code, j) == depth(code, i2) + 1);
    }
}

/// A jump map is well formed for `code` when every bracket position is in
/// its domain, mapped to the position it matches, and nothing else is.
pub open spec fn jump_map_wf(code: Seq<char>, m: Map<usize, usize>) -> bool {
    &&& forall|i: int|
        0 <= i < code.len() && #[trigger] code[i] == '[' ==> m.contains_key(i as usize) && is_match(
            code,
            i,
            m[i as usize] as int,
        )
    &&& forall|j: int|
        0 <= j < code.len() && #[trigger] code[j] == ']' ==> m.contains_key(j as usize) && is_match(
            code,
            m[j as usize] as int,
            j,
        )
    &&& forall|k: usize|
        #[trigger] m.contains_key(k) ==> k < code.len() && (code[k as int] == '[' || code[k as int]
            == ']')
}

/// Law: a well-formed jump map sends every loop-open position `i` to
/// exactly one loop-close position, and sends that position back to `i`.
pub proof fn lemma_jump_map_round_trip(code: Seq<char>, m: Map<usize, usize>, i: usize)
    requires
        jump_map_wf(code, m),
        i < code.len(),
        code[i as int] == '[',
    ensures
        m.contains_key(i),
        is_match(code, i as int, m[i] as int),
        m.contains_key(m[i]),
        m[m[i]] == i,
        forall|j: int| is_match(code, i as int, j) ==> j == m[i] as int,
{
    let j: usize = m[i];
    assert(is_match(code, i as int, j as int));
    assert(m.contains_key(j) && is_match(code, m[j] as int, j as int));
    lemma_match_open_unique(code, m[j] as int, i as int, j as int);
    assert forall|j2: int| is_match(code, i as int, j2) implies j2 == m[i] as int by {
        lemma_match_close_unique(code, i as int, j2, m[i] as int);
    }
}

/// Ghost state of a run: tape, data pointer, program counter, the input
/// bytes not yet consumed, and the output bytes produced so far.
pub ghost struct ExecState {
    pub mem: Seq<u8>,
    pub p: int,
    pub pc: int,
    pub input: Seq<u8>,
    pub output: Seq<u8>,
}

/// The state every run starts from: one zero cell, everything at 0.
pub open spec fn init_state(input: Seq<u8>) -> ExecState {
    ExecState { mem: seq![0u8], p: 0, pc: 0, input: input, output: Seq::empty() }
}

/// The pointer addresses a cell of the tape.
pub open spec fn state_wf(s: ExecState) -> bool {
    0 <= s.p < s.mem.len()
}

/// The program counter has run off the end of the instruction stream.
pub open spec fn halted(code: Seq<char>, s: ExecState) -> bool {
    s.pc >= code.len()
}

/// The next instruction is a move-left with the pointer already at cell 0:
/// the one fatal runtime condition.
pub open spec fn step_fails(code: Seq<char>, s: ExecState) -> bool {
    0 <= s.pc < code.len() && code[s.pc] == '<' && s.p == 0
}

/// Increment a cell, wrapping 255 back to 0.
pub open spec fn wrap_inc(b: u8) -> u8 {
    if b == 255 {
        0
    } else {
        (b + 1) as u8
    }
}

/// Decrement a cell, wrapping 0 back to 255.
pub open spec fn wrap_dec(b: u8) -> u8 {
    if b == 0 {
        255
    } else {
        (b - 1) as u8
    }
}

/// One instruction dispatched at `s.pc`, including the unconditional
/// advance of the program counter that follows every instruction.
/// Meaningful only when `!halted(code, s)` and `!step_fails(code, s)`.
pub open spec fn step(code: Seq<char>, s: ExecState) -> ExecState {
    let c = code[s.pc];
    let t = if c == '>' {
        ExecState {
            p: s.p + 1,
            mem: if s.p + 1 == s.mem.len() {
                s.mem.push(0)
            } else {
                s.mem
            },
            ..s
        }
    } else if c == '<' {
        ExecState { p: s.p - 1, ..s }
    } else if c == '+' {
        ExecState { mem: s.mem.update(s.p, wrap_inc(s.mem[s.p])), ..s }
    } else if c == '-' {
        ExecState { mem: s.mem.update(s.p, wrap_dec(s.mem[s.p])), ..s }
    } else if c == '.' {
        ExecState { output: s.output.push(s.mem[s.p]), ..s }
    } else if c == ',' {
        if s.input.len() > 0 {
            ExecState { mem: s.mem.update(s.p, s.input[0]), input: s.input.drop_first(), ..s }
        } else {
            s
        }
    } else if c == '[' {
        if s.mem[s.p] == 0 {
            ExecState { pc: match_close(code, s.pc), ..s }
        } else {
            s
        }
    } else if c == ']' {
        if s.mem[s.p] != 0 {
            ExecState { pc: match_open(code, s.pc), ..s }
        } else {
            s
        }
    } else {
        s
    };
    ExecState { pc: t.pc + 1, ..t }
}

/// The state after `n` instructions from `s`.
pub open spec fn steps(code: Seq<char>, s: ExecState, n: nat) -> ExecState
    decreases n,
{
    if n == 0 {
        s
    } else {
        step(code, steps(code, s, (n - 1) as nat))
    }
}

/// The first `n` instructions from `s` all execute: none finds the machine
/// halted, and none is a move-left at cell 0.
pub open spec fn runs_ok(code: Seq<char>, s: ExecState, n: nat) -> bool {
    forall|k: nat|
        k < n ==> !halted(code, #[trigger] steps(code, s, k)) && !step_fails(
            code,
            steps(code, s, k),
        )
}

/// Law: a run halts after exactly one step count, so the halting state —
/// tape, pointer and output alike — is fully determined by the program
/// and the input.
pub proof fn lemma_halt_unique(code: Seq<char>, s: ExecState, k1: nat, k2: nat)
    requires
        runs_ok(code, s, k1),
        halted(code, steps(code, s, k1)),
        runs_ok(code, s, k2),
        halted(code, steps(code, s, k2)),
    ensures
        k1 == k2,
        steps(code, s, k1) == steps(code, s, k2),
{
    if k1 < k2 {
        assert(!halted(code, steps(code, s, k1)));
    } else if k2 < k1 {
        assert(!halted(code, steps(code, s, k2)));
    }
}

} // verus!
