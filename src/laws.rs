use vstd::prelude::*;
use crate::instruction::{Instruction, is_command};
use crate::compiler::{compile, compile_from, bracket_depth, balanced, run_from};
use crate::engine::{advance, cell_add, cell_sub, run_for, start_config, MachineView, Status, Step};

verus! {

proof fn lemma_compile_ignored(s: Seq<char>, i: int)
    requires
        0 <= i,
        forall|m: int| 0 <= m < s.len() ==> !is_command(#[trigger] s[m]),
    ensures
        compile_from(s, i) == Seq::<Instruction>::empty(),
    decreases s.len() - i,
{
    if i < s.len() {
        assert(!is_command(s[i]));
        lemma_compile_ignored(s, i + 1);
    }
}

proof fn lemma_depth_ignored(s: Seq<char>, k: int)
    requires
        k <= s.len(),
        forall|m: int| 0 <= m < s.len() ==> !is_command(#[trigger] s[m]),
    ensures
        bracket_depth(s, k) == 0,
    decreases k,
{
    if k > 0 {
        assert(!is_command(s[k - 1]));
        lemma_depth_ignored(s, k - 1);
    }
}

/// A source made only of characters outside the language is well formed,
/// compiles to no instructions, and halts on the first step with no input
/// read and no output.
pub proof fn lemma_no_commands(s: Seq<char>, map: Seq<Option<usize>>, input: Seq<u8>, fuel: nat)
    requires
        forall|m: int| 0 <= m < s.len() ==> !is_command(#[trigger] s[m]),
        fuel >= 1,
    ensures
        balanced(s),
        compile(s) == Seq::<Instruction>::empty(),
        run_for(compile(s), map, start_config(input), fuel) == (Status::Halted, start_config(input)),
{
    lemma_compile_ignored(s, 0);
    assert forall|k: int| 0 <= k <= s.len() implies #[trigger] bracket_depth(s, k) >= 0 by {
        lemma_depth_ignored(s, k);
    }
    lemma_depth_ignored(s, s.len() as int);
}

/// Subtracting `n` undoes adding `n`, and adding undoes subtracting, on every
/// cell value.
pub proof fn lemma_add_sub_inverse(v: u8, n: u8)
    requires
        1 <= n,
    ensures
        cell_sub(cell_add(v, n), n) == v,
        cell_add(cell_sub(v, n), n) == v,
{
}

/// The source of `n` consecutive `+`.
pub open spec fn plus_run(n: nat) -> Seq<char> {
    Seq::new(n, |i: int| '+')
}

proof fn lemma_run_constant(n: nat, i: int)
    requires
        0 <= i <= n,
    ensures
        run_from(plus_run(n), i, '+') == n - i,
    decreases n - i,
{
    if i < n {
        lemma_run_constant(n, i + 1);
    }
}

/// A run of exactly 256 `+` compiles to one addition of zero, which leaves
/// the current cell, and the rest of the machine, as it was.
pub proof fn lemma_full_wrap(map: Seq<Option<usize>>, m: MachineView)
    requires
        m.0 == 0,
        0 <= m.1 < m.2.len(),
    ensures
        compile(plus_run(256)) == seq![Instruction::Add(0)],
        advance(compile(plus_run(256)), map, m) == (Step::Continue, (1int, m.1, m.2)),
{
    let s = plus_run(256);
    lemma_run_constant(256, 1);
    assert(compile_from(s, 256) == Seq::<Instruction>::empty());
    assert(compile(s) =~= seq![Instruction::Add(0)]);
    assert(m.2.update(m.1, cell_add(m.2[m.1], 0)) =~= m.2);
}

/// `d` opening brackets followed by `d` closing ones.
pub open spec fn nested(d: nat) -> Seq<char> {
    Seq::new(2 * d, |i: int| if i < d { '[' } else { ']' })
}

proof fn lemma_nested_depth(d: nat, k: int)
    requires
        0 <= k <= 2 * d,
    ensures
        bracket_depth(nested(d), k) == if k <= d { k } else { 2 * d - k },
    decreases k,
{
    if k > 0 {
        lemma_nested_depth(d, k - 1);
    }
}

/// Loops nested to any depth are well formed, so they compile without error.
pub proof fn lemma_nested_balanced(d: nat)
    ensures
        balanced(nested(d)),
{
    assert forall|k: int| 0 <= k <= nested(d).len() implies #[trigger] bracket_depth(nested(d), k) >= 0 by {
        lemma_nested_depth(d, k);
    }
    lemma_nested_depth(d, 2 * d as int);
}

} // verus!
