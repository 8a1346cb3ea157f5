//! The executable machine: a growable byte tape, a data pointer, a program
//! counter, and a jump map built by a pre-scan of the program text.

use vstd::prelude::*;

use crate::semantics::balanced;
use crate::semantics::depth;
use crate::semantics::halted;
use crate::semantics::init_state;
use crate::semantics::runs_ok;
use crate::semantics::state_wf;
use crate::semantics::step;
use crate::semantics::step_fails;
use crate::semantics::steps;
use crate::semantics::is_match;
use crate::semantics::jump_map_wf;
use crate::semantics::lemma_match_close_unique;
use crate::semantics::lemma_match_open_unique;
use crate::semantics::match_close;
use crate::semantics::match_open;
use crate::semantics::wrap_dec;
use crate::semantics::wrap_inc;

use std::collections::HashMap;

use vstd::string::StrSliceExecFns;

verus! {

broadcast use vstd::std_specs::hash::group_hash_axioms;

/// Why a run stopped before the program counter ran off the end.
#[derive(Debug, PartialEq, Eq, Structural)]
pub enum VmError {
    /// A loop-close with no pending loop-open; `pos` is 1-based.
    UnmatchedClose { pos: usize },
    /// At least one loop-open was never closed.
    UnclosedLoop,
    /// A move-left was executed while the pointer was at cell 0.
    PointerUnderflow,
}

/// Outcome of a run that no error stopped: the program counter ran off the end
/// of the program, or the step budget ran out first. Either way the
/// output produced so far comes back.
#[derive(Debug, PartialEq, Eq)]
pub enum RunOutcome {
    Halted(Vec<u8>),
    OutOfFuel(Vec<u8>),
}

/// Collect the characters of a program text into an indexable stream.
fn collect_chars(code: &str) -> (r: Vec<char>)
    ensures
        r@ == code@,
{
    let n: usize = code.unicode_len();
    let mut r: Vec<char> = Vec::new();
    let mut i: usize = 0;
    while i < n
        invariant
            i <= n,
            n == code@.len(),
            r@ == code@.subrange(0, i as int),
        decreases n - i,
    {
        let c = code.get_char(i);
        r.push(c);
        proof {
            assert(code@.subrange(0, i as int).push(code@[i as int]) =~= code@.subrange(
                0,
                i as int + 1,
            ));
        }
        i += 1;
    }
    proof {
        assert(code@.subrange(0, n as int) =~= code@);
    }
    r
}

/// The virtual machine: tape, data pointer, program counter and jump map.
pub struct BFVM {
    mem: Vec<u8>,
    p: usize,
    codep: usize,
    jump_sign: HashMap<usize, usize>,
}

/// Ghost image of a machine: the tape and pointers as mathematical values.
pub ghost struct VmView {
    pub mem: Seq<u8>,
    pub p: int,
    pub pc: int,
    pub jumps: Map<usize, usize>,
}

impl View for BFVM {
    type V = VmView;

    closed spec fn view(&self) -> VmView {
        VmView { mem: self.mem@, p: self.p as int, pc: self.codep as int, jumps: self.jump_sign@ }
    }
}

impl BFVM {
    /// A machine as it is before any run: one zero cell, pointer and
    /// program counter at 0, no jumps recorded.
    pub open spec fn is_init(self) -> bool {
        &&& self@.mem =~= seq![0u8]
        &&& self@.p == 0
        &&& self@.pc == 0
        &&& self@.jumps =~= Map::<usize, usize>::empty()
    }

    pub fn new() -> (vm: Self)
        ensures
            vm.is_init(),
    {
        Self { mem: vec![0], p: 0, codep: 0, jump_sign: HashMap::new() }
    }

    /// Pre-scan: validate bracket nesting and record both directions of
    /// every matching pair in the jump map. Succeeds exactly on balanced
    /// programs; on failure says which of the two nesting faults occurred,
    /// an unmatched loop-close reporting its 1-based position.
    pub fn scan_jump(&mut self, code: &Vec<char>) -> (r: Result<(), VmError>)
        requires
            old(self)@.jumps =~= Map::<usize, usize>::empty(),
        ensures
            final(self)@.mem == old(self)@.mem,
            final(self)@.p == old(self)@.p,
            final(self)@.pc == old(self)@.pc,
            match r {
                Ok(()) => balanced(code@) && jump_map_wf(code@, final(self)@.jumps),
                Err(VmError::UnmatchedClose { pos }) => {
                    &&& 1 <= pos <= code@.len()
                    &&& code@[pos - 1] == ']'
                    &&& depth(code@, pos as int) < 0
                    &&& forall|t: int| 0 <= t < pos ==> depth(code@, t) >= 0
                },
                Err(VmError::UnclosedLoop) => {
                    &&& forall|t: int| 0 <= t <= code@.len() ==> depth(code@, t) >= 0
                    &&& depth(code@, code@.len() as int) > 0
                },
                Err(VmError::PointerUnderflow) => false,
            },
    {
        let mut stack: Vec<usize> = Vec::new();
        let n: usize = code.len();
        let mut i: usize = 0;
        while i < n
            invariant
                n == code@.len(),
                i <= n,
                self.mem == old(self).mem,
                self.p == old(self).p,
                self.codep == old(self).codep,
                stack@.len() == depth(code@, i as int),
                forall|t: int| 0 <= t <= i ==> depth(code@, t) >= 0,
                forall|q: int|
                    0 <= q < stack@.len() ==> {
                        let t = (#[trigger] stack@[q]) as int;
                        &&& t < i
                        &&& code@[t] == '['
                        &&& depth(code@, t) == q
                        &&& forall|k: int| t < k <= i ==> depth(code@, k) > q
                    },
                forall|q: int|
                    0 <= q < stack@.len() ==> !self.jump_sign@.contains_key(#[trigger] stack@[q]),
                forall|a: int, b: int|
                    #[trigger] is_match(code@, a, b) && b < i ==> {
                        &&& self.jump_sign@.contains_key(a as usize)
                        &&& self.jump_sign@[a as usize] == b as usize
                        &&& self.jump_sign@.contains_key(b as usize)
                        &&& self.jump_sign@[b as usize] == a as usize
                    },
                forall|a: int|
                    0 <= a < i && #[trigger] code@[a] == '[' ==> stack@.contains(a as usize) || (
                    self.jump_sign@.contains_key(a as usize) && is_match(
                        code@,
                        a,
                        self.jump_sign@[a as usize] as int,
                    )),
                forall|b: int|
                    0 <= b < i && #[trigger] code@[b] == ']' ==> self.jump_sign@.contains_key(
                        b as usize,
                    ) && is_match(code@, self.jump_sign@[b as usize] as int, b),
                forall|k: usize|
                    #[trigger] self.jump_sign@.contains_key(k) ==> k < i && (code@[k as int] == '['
                        || code@[k as int] == ']'),
            decreases n - i,
        {
            let c = code[i];
            let ghost pre = stack@;
            if c == '[' {
                stack.push(i);
                proof {
                    assert forall|a: int| 0 <= a < i + 1 && #[trigger] code@[a] == '[' implies
                        stack@.contains(a as usize) || (self.jump_sign@.contains_key(a as usize)
                        && is_match(code@, a, self.jump_sign@[a as usize] as int)) by {
                        if a == i as int {
                            assert(stack@[pre.len() as int] == i);
                        } else if pre.contains(a as usize) {
                            let q: int = choose|qq: int| 0 <= qq < pre.len() && pre[qq] == a as usize;
                            assert(stack@[q] == a as usize);
                        }
                    }
                }
            } else if c == ']' {
                match stack.pop() {
                    Some(j) => {
                        proof {
                            let ghost l: nat = stack@.len() + 1;
                            assert(depth(code@, i as int) == l);
                            assert(depth(code@, j as int) == l - 1);
                            assert(is_match(code@, j as int, i as int));
                        }
                        self.jump_sign.insert(j, i);
                        self.jump_sign.insert(i, j);
                        proof {
                            assert forall|a: int, b: int|
                                #[trigger] is_match(code@, a, b) && b < i + 1 implies {
                                &&& self.jump_sign@.contains_key(a as usize)
                                &&& self.jump_sign@[a as usize] == b as usize
                                &&& self.jump_sign@.contains_key(b as usize)
                                &&& self.jump_sign@[b as usize] == a as usize
                            } by {
                                if b == i as int {
                                    lemma_match_open_unique(code@, a, j as int, i as int);
                                } else {
                                    assert(a != i as int && a != j as int && b != i as int && b
                                        != j as int);
                                }
                            }
                            assert forall|a: int| 0 <= a < i + 1 && #[trigger] code@[a] == '['
                                implies stack@.contains(a as usize) || (
                                self.jump_sign@.contains_key(a as usize) && is_match(
                                code@,
                                a,
                                self.jump_sign@[a as usize] as int,
                            )) by {
                                if a == j as int {
                                    assert(self.jump_sign@[j] == i);
                                } else if pre.contains(a as usize) {
                                    let q: int = choose|qq: int|
                                        0 <= qq < pre.len() && pre[qq] == a as usize;
                                    assert(q < pre.len() - 1);
                                    assert(stack@[q] == a as usize);
                                }
                            }
                        }
                    },
                    None => {
                        return Err(VmError::UnmatchedClose { pos: i + 1 });
                    },
                }
            }
            i += 1;
        }
        if stack.is_empty() {
            Ok(())
        } else {
            Err(VmError::UnclosedLoop)
        }
    }

    /// `>`: advance the pointer; append one zero cell when it moves past
    /// the current tape end, and only then.
    pub fn op_right(&mut self)
        requires
            old(self)@.p < old(self)@.mem.len(),
        ensures
            final(self)@.p == old(self)@.p + 1,
            final(self)@.mem == (if old(self)@.p + 1 == old(self)@.mem.len() {
                old(self)@.mem.push(0u8)
            } else {
                old(self)@.mem
            }),
            final(self)@.p < final(self)@.mem.len(),
            final(self)@.pc == old(self)@.pc,
            final(self)@.jumps == old(self)@.jumps,
    {
        let len: usize = self.mem.len();
        self.p += 1;
        if self.p == len {
            self.mem.push(0);
        }
    }

    /// `<`: retreat the pointer. The caller must rule out underflow.
    pub fn op_left(&mut self)
        requires
            old(self)@.p > 0,
        ensures
            final(self)@.p == old(self)@.p - 1,
            final(self)@.mem == old(self)@.mem,
            final(self)@.pc == old(self)@.pc,
            final(self)@.jumps == old(self)@.jumps,
    {
        self.p -= 1;
    }

    /// `+`: increment the current cell modulo 256.
    pub fn op_add(&mut self)
        requires
            old(self)@.p < old(self)@.mem.len(),
        ensures
            final(self)@.mem == old(self)@.mem.update(
                old(self)@.p,
                wrap_inc(old(self)@.mem[old(self)@.p]),
            ),
            final(self)@.p == old(self)@.p,
            final(self)@.pc == old(self)@.pc,
            final(self)@.jumps == old(self)@.jumps,
    {
        let v: u8 = self.mem[self.p];
        self.mem[self.p] = if v == 255 {
            0
        } else {
            v + 1
        };
    }

    /// `-`: decrement the current cell modulo 256.
    pub fn op_sub(&mut self)
        requires
            old(self)@.p < old(self)@.mem.len(),
        ensures
            final(self)@.mem == old(self)@.mem.update(
                old(self)@.p,
                wrap_dec(old(self)@.mem[old(self)@.p]),
            ),
            final(self)@.p == old(self)@.p,
            final(self)@.pc == old(self)@.pc,
            final(self)@.jumps == old(self)@.jumps,
    {
        let v: u8 = self.mem[self.p];
        self.mem[self.p] = if v == 0 {
            255
        } else {
            v - 1
        };
    }

    /// `.`: emit the current cell to the output sink.
    pub fn op_out(&self, out: &mut Vec<u8>)
        requires
            self@.p < self@.mem.len(),
        ensures
            final(out)@ == old(out)@.push(self@.mem[self@.p]),
    {
        let c: u8 = self.mem[self.p];
        out.push(c);
    }

    /// `,`: store the byte the input source yielded; when the source is
    /// exhausted (`None`), leave the cell unchanged.
    pub fn op_in(&mut self, b: Option<u8>)
        requires
            old(self)@.p < old(self)@.mem.len(),
        ensures
            final(self)@.mem == (match b {
                Some(x) => old(self)@.mem.update(old(self)@.p, x),
                None => old(self)@.mem,
            }),
            final(self)@.p == old(self)@.p,
            final(self)@.pc == old(self)@.pc,
            final(self)@.jumps == old(self)@.jumps,
    {
        match b {
            Some(x) => {
                self.mem[self.p] = x;
            },
            None => {},
        }
    }

    /// `[`: when the current cell is 0, move the program counter to the
    /// matching loop-close; otherwise fall through.
    pub fn op_jump(&mut self, code: Ghost<Seq<char>>)
        requires
            jump_map_wf(code@, old(self)@.jumps),
            0 <= old(self)@.pc < code@.len(),
            code@[old(self)@.pc] == '[',
            old(self)@.p < old(self)@.mem.len(),
        ensures
            final(self)@.mem == old(self)@.mem,
            final(self)@.p == old(self)@.p,
            final(self)@.jumps == old(self)@.jumps,
            final(self)@.pc == (if old(self)@.mem[old(self)@.p] == 0 {
                match_close(code@, old(self)@.pc)
            } else {
                old(self)@.pc
            }),
            old(self)@.mem[old(self)@.p] == 0 ==> is_match(
                code@,
                old(self)@.pc,
                final(self)@.pc,
            ),
    {
        if self.mem[self.p] == 0 {
            proof {
                assert(self.jump_sign@.contains_key(self.codep));
                assert(is_match(code@, self.codep as int, self.jump_sign@[self.codep] as int));
            }
            if let Some(jumpto) = self.jump_sign.get(&self.codep) {
                let j: usize = *jumpto;
                proof {
                    lemma_match_close_unique(
                        code@,
                        self.codep as int,
                        j as int,
                        match_close(code@, self.codep as int),
                    );
                }
                self.codep = j;
            }
        }
    }

    /// `]`: when the current cell is non-zero, move the program counter
    /// back to the matching loop-open; otherwise fall through.
    pub fn op_jumpback(&mut self, code: Ghost<Seq<char>>)
        requires
            jump_map_wf(code@, old(self)@.jumps),
            0 <= old(self)@.pc < code@.len(),
            code@[old(self)@.pc] == ']',
            old(self)@.p < old(self)@.mem.len(),
        ensures
            final(self)@.mem == old(self)@.mem,
            final(self)@.p == old(self)@.p,
            final(self)@.jumps == old(self)@.jumps,
            final(self)@.pc == (if old(self)@.mem[old(self)@.p] != 0 {
                match_open(code@, old(self)@.pc)
            } else {
                old(self)@.pc
            }),
            old(self)@.mem[old(self)@.p] != 0 ==> is_match(
                code@,
                final(self)@.pc,
                old(self)@.pc,
            ),
    {
        if self.mem[self.p] != 0 {
            proof {
                assert(self.jump_sign@.contains_key(self.codep));
                assert(is_match(code@, self.jump_sign@[self.codep] as int, self.codep as int));
            }
            if let Some(jumpto) = self.jump_sign.get(&self.codep) {
                let j: usize = *jumpto;
                proof {
                    lemma_match_open_unique(
                        code@,
                        j as int,
                        match_open(code@, self.codep as int),
                        self.codep as int,
                    );
                }
                self.codep = j;
            }
        }
    }

    /// Interpret `code` from a fresh machine for at most `fuel`
    /// instructions, reading bytes from `input` and collecting the bytes
    /// the program emits.
    ///
    /// The pre-scan failures and pointer underflow surface as errors;
    /// otherwise the result says whether the program halted, and the
    /// machine state and output are exactly those of the small-step
    /// semantics applied to the program.
    pub fn run(&mut self, code: String, input: Vec<u8>, fuel: u64) -> (r: Result<
        RunOutcome,
        VmError,
    >)
        requires
            old(self).is_init(),
        ensures
            ({
                let s0 = init_state(input@);
                match r {
                    Ok(RunOutcome::Halted(out)) => {
                        &&& balanced(code@)
                        &&& exists|k: nat|
                            {
                                &&& k <= fuel
                                &&& #[trigger] runs_ok(code@, s0, k)
                                &&& halted(code@, steps(code@, s0, k))
                                &&& out@ == steps(code@, s0, k).output
                                &&& final(self)@.mem == steps(code@, s0, k).mem
                                &&& final(self)@.p == steps(code@, s0, k).p
                            }
                    },
                    Ok(RunOutcome::OutOfFuel(out)) => {
                        &&& balanced(code@)
                        &&& runs_ok(code@, s0, fuel as nat)
                        &&& !halted(code@, steps(code@, s0, fuel as nat))
                        &&& out@ == steps(code@, s0, fuel as nat).output
                        &&& final(self)@.mem == steps(code@, s0, fuel as nat).mem
                        &&& final(self)@.p == steps(code@, s0, fuel as nat).p
                    },
                    Err(VmError::PointerUnderflow) => {
                        &&& balanced(code@)
                        &&& exists|k: nat|
                            {
                                &&& k < fuel
                                &&& #[trigger] runs_ok(code@, s0, k)
                                &&& !halted(code@, steps(code@, s0, k))
                                &&& step_fails(code@, steps(code@, s0, k))
                            }
                    },
                    Err(VmError::UnmatchedClose { pos }) => {
                        &&& 1 <= pos <= code@.len()
                        &&& code@[pos - 1] == ']'
                        &&& depth(code@, pos as int) < 0
                        &&& forall|t: int| 0 <= t < pos ==> depth(code@, t) >= 0
                    },
                    Err(VmError::UnclosedLoop) => {
                        &&& forall|t: int| 0 <= t <= code@.len() ==> depth(code@, t) >= 0
                        &&& depth(code@, code@.len() as int) > 0
                    },
                }
            }),
    {
        let chars = collect_chars(code.as_str());
        match self.scan_jump(&chars) {
            Ok(()) => {},
            Err(e) => {
                return Err(e);
            },
        }
        let n: usize = chars.len();
        let mut out: Vec<u8> = Vec::new();
        let mut inp: usize = 0;
        let mut fuel_left: u64 = fuel;
        let ghost s0 = init_state(input@);
        let ghost mut k: nat = 0nat;
        while self.codep < n && fuel_left > 0
            invariant
                s0 == init_state(input@),
                n == code@.len(),
                chars@ == code@,
                balanced(code@),
                jump_map_wf(code@, self@.jumps),
                inp <= input@.len(),
                k + fuel_left == fuel,
                runs_ok(code@, s0, k),
                ({
                    let cur = steps(code@, s0, k);
                    &&& cur.mem == self@.mem
                    &&& cur.p == self@.p
                    &&& cur.pc == self@.pc
                    &&& cur.input == input@.skip(inp as int)
                    &&& cur.output == out@
                    &&& state_wf(cur)
                    &&& 0 <= cur.pc <= n
                }),
            decreases fuel_left,
        {
            let ghost cur = steps(code@, s0, k);
            let op = chars[self.codep];
            if op == '>' {
                self.op_right();
            } else if op == '<' {
                if self.p == 0 {
                    proof {
                        assert(step_fails(code@, steps(code@, init_state(input@), k)));
                    }
                    return Err(VmError::PointerUnderflow);
                }
                self.op_left();
            } else if op == '+' {
                self.op_add();
            } else if op == '-' {
                self.op_sub();
            } else if op == '.' {
                self.op_out(&mut out);
            } else if op == ',' {
                if inp < input.len() {
                    let b: u8 = input[inp];
                    inp += 1;
                    self.op_in(Some(b));
                } else {
                    self.op_in(None);
                }
            } else if op == '[' {
                self.op_jump(Ghost(code@));
            } else if op == ']' {
                self.op_jumpback(Ghost(code@));
            }
            self.codep += 1;
            fuel_left -= 1;
            proof {
                let nxt = step(code@, cur);
                assert(steps(code@, s0, k + 1) == nxt);
                assert(self@.mem =~= nxt.mem);
                assert(out@ =~= nxt.output);
                assert(input@.skip(inp as int) =~= nxt.input);
                assert(self@.p == nxt.p);
                assert(self@.pc == nxt.pc);
                assert forall|m2: nat| m2 < k + 1 implies !halted(
                    code@,
                    #[trigger] steps(code@, s0, m2),
                ) && !step_fails(code@, steps(code@, s0, m2)) by {
                    if m2 == k {
                        assert(!halted(code@, cur));
                        assert(!step_fails(code@, cur));
                    }
                }
                k = k + 1;
            }
        }
        if self.codep >= n {
            proof {
                assert(runs_ok(code@, s0, k) && halted(code@, steps(code@, s0, k)));
            }
            Ok(RunOutcome::Halted(out))
        } else {
            Ok(RunOutcome::OutOfFuel(out))
        }
    }

    /// The recorded jump destination for an instruction position: the
    /// matching bracket's position when `pos` holds a bracket the pre-scan
    /// matched, and nothing otherwise.
    pub fn jump_target(&self, pos: usize) -> (r: Option<usize>)
        ensures
            r == (if self@.jumps.contains_key(pos) {
                Some(self@.jumps[pos])
            } else {
                None::<usize>
            }),
    {
        match self.jump_sign.get(&pos) {
            Some(j) => Some(*j),
            None => None,
        }
    }

    /// The tape as it stands: for inspection after a run.
    pub fn tape(&self) -> (t: &Vec<u8>)
        ensures
            t@ == self@.mem,
    {
        &self.mem
    }

    /// The data pointer as it stands: for inspection after a run.
    pub fn pointer(&self) -> (p: usize)
        ensures
            p as int == self@.p,
    {
        self.p
    }
}

} // verus!
