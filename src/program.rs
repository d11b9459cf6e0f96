use vstd::prelude::*;
use crate::instruction::Instruction;

verus! {

/// Loop starts minus loop ends among the first `k` instructions.
pub open spec fn loop_depth(ins: Seq<Instruction>, k: int) -> int
    decreases k,
{
    if k <= 0 {
        0
    } else {
        loop_depth(ins, k - 1) + if ins[k - 1] is LoopStart {
            1int
        } else if ins[k - 1] is LoopEnd {
            -1int
        } else {
            0int
        }
    }
}

/// The loop start at `s` and the loop end at `e` are syntactic partners: the
/// nesting depth stays above the start's depth strictly inside and returns
/// to it right after `e`.
pub open spec fn matched(ins: Seq<Instruction>, s: int, e: int) -> bool {
    &&& 0 <= s < e < ins.len()
    &&& ins[s] is LoopStart
    &&& ins[e] is LoopEnd
    &&& loop_depth(ins, e + 1) == loop_depth(ins, s)
    &&& forall|k: int| s < k <= e ==> #[trigger] loop_depth(ins, k) > loop_depth(ins, s)
}

/// A loop map for `ins`: one entry per instruction, set exactly on the loop
/// boundaries, each pointing at its partner.
pub open spec fn is_loop_map(ins: Seq<Instruction>, map: Seq<Option<usize>>) -> bool {
    &&& map.len() == ins.len()
    &&& forall|s: int, e: int|
        #[trigger] matched(ins, s, e) ==> map[s] == Some(e as usize) && map[e] == Some(s as usize)
    &&& forall|i: int|
        0 <= i < ins.len() && #[trigger] map[i] is Some ==> matched(ins, i, map[i]->0 as int)
            || matched(ins, map[i]->0 as int, i)
    &&& forall|i: int|
        0 <= i < ins.len() ==> (#[trigger] map[i] is Some <==> (ins[i] is LoopStart
            || ins[i] is LoopEnd))
    &&& forall|i: int| 0 <= i < ins.len() && #[trigger] map[i] is Some ==> map[i]->0 < ins.len()
}

/// A compiled program: its instructions and the loop map that pairs each
/// loop boundary with its partner.
pub struct Program {
    instructions: Vec<Instruction>,
    loop_map: Vec<Option<usize>>,
}

impl View for Program {
    type V = (Seq<Instruction>, Seq<Option<usize>>);

    closed spec fn view(&self) -> Self::V {
        (self.instructions@, self.loop_map@)
    }
}

impl Program {
    /// The loop map pairs every loop boundary with its partner and nothing else.
    pub open spec fn wf(&self) -> bool {
        is_loop_map(self@.0, self@.1)
    }

    pub(crate) fn from_parts(instructions: Vec<Instruction>, loop_map: Vec<Option<usize>>) -> (r:
        Program)
        requires
            is_loop_map(instructions@, loop_map@),
        ensures
            r@ == (instructions@, loop_map@),
            r.wf(),
    {
        Program { instructions, loop_map }
    }

    /// Number of instructions.
    pub fn len(&self) -> (r: usize)
        ensures
            r == self@.0.len(),
    {
        self.instructions.len()
    }

    /// The instruction at position `i`.
    pub fn instruction(&self, i: usize) -> (r: Instruction)
        requires
            i < self@.0.len(),
        ensures
            r == self@.0[i as int],
    {
        self.instructions[i]
    }

    /// The instructions, in order.
    pub fn instructions(&self) -> (r: &Vec<Instruction>)
        ensures
            r@ == self@.0,
    {
        &self.instructions
    }

    /// The partner of the loop boundary at position `i`; `None` elsewhere.
    pub fn partner(&self, i: usize) -> (r: Option<usize>)
        ensures
            i < self@.1.len() ==> r == self@.1[i as int],
            i >= self@.1.len() ==> r is None,
    {
        if i < self.loop_map.len() {
            self.loop_map[i]
        } else {
            None
        }
    }
}

/// Loop map symmetry: a loop boundary's partner has it as its own partner, so
/// no other position maps to either of them.
pub proof fn lemma_loop_map_symmetric(p: Program, i: int, j: usize, k: int)
    requires
        p.wf(),
        0 <= i < p@.0.len(),
        0 <= k < p@.0.len(),
        p@.1[i] == Some(j),
        p@.1[k] == Some(j),
    ensures
        j < p@.0.len(),
        p@.1[j as int] == Some(i as usize),
        k == i,
{
    let ins = p@.0;
    let map = p@.1;
    assert(map[i] is Some);
    assert(map[k] is Some);
    if matched(ins, i, j as int) {
    } else {
        assert(matched(ins, j as int, i));
    }
    if matched(ins, k, j as int) {
    } else {
        assert(matched(ins, j as int, k));
    }
}

} // verus!
