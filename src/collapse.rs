use vstd::prelude::*;
use crate::instruction::{Instruction, is_command, is_run_symbol, unit_of};
use crate::compiler::{compile, compile_from, run_len, lemma_run_from};
use crate::program::{loop_depth, matched, is_loop_map};
use crate::engine::{partner_of, run_for, start_config, step_io, Config, Status, TAPE_LEN};
use vstd::arithmetic::div_mod::{
    lemma_add_mod_noop_right, lemma_mod_add_multiples_vanish, lemma_sub_mod_noop,
    lemma_sub_mod_noop_right,
};

verus! {

/// The instruction for `n` copies of the command symbol `c`.
pub open spec fn instr_of(c: char, n: nat) -> Instruction {
    if is_run_symbol(c) {
        unit_of(c, n)
    } else if c == '[' {
        Instruction::LoopStart
    } else if c == ']' {
        Instruction::LoopEnd
    } else if c == '.' {
        Instruction::Output
    } else {
        Instruction::Input
    }
}

/// The source from position `i` on as (symbol, count) blocks, one for each
/// instruction that the compiler emits.
pub open spec fn blocks_from(s: Seq<char>, i: int) -> Seq<(char, nat)>
    decreases s.len() - i,
{
    if i < 0 || i >= s.len() {
        seq![]
    } else if is_run_symbol(s[i]) {
        if i + run_len(s, i) <= s.len() {
            seq![(s[i], run_len(s, i))] + blocks_from(s, i + run_len(s, i))
        } else {
            seq![]
        }
    } else if is_command(s[i]) {
        seq![(s[i], 1nat)] + blocks_from(s, i + 1)
    } else {
        blocks_from(s, i + 1)
    }
}

/// One instruction per block.
pub open spec fn instrs(b: Seq<(char, nat)>) -> Seq<Instruction> {
    Seq::new(b.len(), |k: int| instr_of(b[k].0, b[k].1))
}

/// One single-symbol instruction per character of each block.
pub open spec fn expand(b: Seq<(char, nat)>) -> Seq<Instruction>
    decreases b.len(),
{
    if b.len() == 0 {
        seq![]
    } else {
        expand(b.drop_last()) + Seq::new(b.last().1, |j: int| instr_of(b.last().0, 1))
    }
}

/// One single-symbol instruction for each command character of `s` from
/// position `i` on.
pub open spec fn uncollapsed_from(s: Seq<char>, i: int) -> Seq<Instruction>
    decreases s.len() - i,
{
    if i < 0 || i >= s.len() {
        seq![]
    } else if is_command(s[i]) {
        seq![instr_of(s[i], 1)] + uncollapsed_from(s, i + 1)
    } else {
        uncollapsed_from(s, i + 1)
    }
}

/// The uncollapsed program of `s`: one instruction for each command character.
pub open spec fn naive(s: Seq<char>) -> Seq<Instruction> {
    uncollapsed_from(s, 0)
}

/// Blocks as the compiler makes them: command symbols, positive counts, and
/// a count above one only for a run symbol.
pub open spec fn blocks_ok(b: Seq<(char, nat)>, bound: nat) -> bool {
    forall|k: int|
        #![trigger b[k]]
        0 <= k < b.len() ==> is_command(b[k].0) && 1 <= b[k].1 <= bound && (
        !is_run_symbol(b[k].0) ==> b[k].1 == 1)
}

/// Where the block `k` starts in the expanded program.
pub open spec fn offset(b: Seq<(char, nat)>, k: int) -> nat {
    expand(b.take(k)).len()
}

proof fn lemma_blocks_compile(s: Seq<char>, i: int)
    requires
        0 <= i,
    ensures
        compile_from(s, i) == instrs(blocks_from(s, i)),
        blocks_ok(blocks_from(s, i), s.len()),
    decreases s.len() - i,
{
    if 0 <= i < s.len() {
        if is_run_symbol(s[i]) {
            let n = run_len(s, i);
            if i + n <= s.len() {
                lemma_blocks_compile(s, i + n);
                let rest = blocks_from(s, i + n);
                assert(blocks_from(s, i) == seq![(s[i], n)] + rest);
                assert(n <= s.len());
                assert(instrs(seq![(s[i], n)] + rest) =~= seq![instr_of(s[i], n)] + instrs(rest));
                assert(blocks_ok(blocks_from(s, i), s.len())) by {
                    assert forall|k: int| 0 <= k < blocks_from(s, i).len() implies is_command(#[trigger] blocks_from(s, i)[k].0) && 1 <= blocks_from(s, i)[k].1 <= s.len() && (
                        !is_run_symbol(blocks_from(s, i)[k].0) ==> blocks_from(s, i)[k].1 == 1) by {
                        if k > 0 {
                            assert(blocks_from(s, i)[k] == rest[k - 1]);
                        }
                    }
                }
            }
        } else {
            lemma_blocks_compile(s, i + 1);
            let rest = blocks_from(s, i + 1);
            if is_command(s[i]) {
                assert(blocks_from(s, i) == seq![(s[i], 1nat)] + rest);
                assert(instrs(seq![(s[i], 1nat)] + rest) =~= seq![instr_of(s[i], 1)] + instrs(rest));
                assert(blocks_ok(blocks_from(s, i), s.len())) by {
                    assert forall|k: int| 0 <= k < blocks_from(s, i).len() implies is_command(#[trigger] blocks_from(s, i)[k].0) && 1 <= blocks_from(s, i)[k].1 <= s.len() && (
                        !is_run_symbol(blocks_from(s, i)[k].0) ==> blocks_from(s, i)[k].1 == 1) by {
                        if k > 0 {
                            assert(blocks_from(s, i)[k] == rest[k - 1]);
                        }
                    }
                }
            }
        }
    } else {
        assert(instrs(seq![]) =~= seq![]);
    }
}

proof fn lemma_offset_step(b: Seq<(char, nat)>, k: int)
    requires
        0 <= k < b.len(),
    ensures
        expand(b.take(k + 1)) == expand(b.take(k)) + Seq::new(b[k].1, |j: int| instr_of(b[k].0, 1)),
        offset(b, k + 1) == offset(b, k) + b[k].1,
{
    assert(b.take(k + 1).drop_last() =~= b.take(k));
    assert(b.take(k + 1).last() == b[k]);
}

proof fn lemma_prefix(b: Seq<(char, nat)>, m: int)
    requires
        0 <= m <= b.len(),
    ensures
        offset(b, m) <= expand(b).len(),
        forall|x: int| 0 <= x < offset(b, m) ==> #[trigger] expand(b.take(m))[x] == expand(b)[x],
    decreases b.len() - m,
{
    if m == b.len() {
        assert(b.take(m) =~= b);
    } else {
        lemma_prefix(b, m + 1);
        lemma_offset_step(b, m);
        assert forall|x: int| 0 <= x < offset(b, m) implies #[trigger] expand(b.take(m))[x] == expand(b)[x] by {
            assert(expand(b.take(m + 1))[x] == expand(b.take(m))[x]);
        }
    }
}

proof fn lemma_offsets(b: Seq<(char, nat)>)
    ensures
        offset(b, 0) == 0,
        offset(b, b.len() as int) == expand(b).len(),
{
    assert(b.take(0) =~= Seq::<(char, nat)>::empty());
    assert(b.take(b.len() as int) =~= b);
}

proof fn lemma_elem(b: Seq<(char, nat)>, k: int, j: int)
    requires
        0 <= k < b.len(),
        0 <= j < b[k].1,
    ensures
        offset(b, k) + j < expand(b).len(),
        expand(b)[offset(b, k) + j] == instr_of(b[k].0, 1),
{
    lemma_offset_step(b, k);
    lemma_prefix(b, k + 1);
    assert(expand(b.take(k + 1))[offset(b, k) + j] == instr_of(b[k].0, 1));
}

proof fn lemma_offset_mono(b: Seq<(char, nat)>, bound: nat, a: int, c: int)
    requires
        blocks_ok(b, bound),
        0 <= a <= c <= b.len(),
    ensures
        offset(b, a) + (c - a) <= offset(b, c),
    decreases c - a,
{
    if a < c {
        lemma_offset_mono(b, bound, a, c - 1);
        lemma_offset_step(b, c - 1);
        assert(b[c - 1].1 >= 1);
    }
}

proof fn lemma_depth_in_block(b: Seq<(char, nat)>, bound: nat, k: int, j: int)
    requires
        blocks_ok(b, bound),
        0 <= k < b.len(),
        0 <= j <= b[k].1,
        loop_depth(expand(b), offset(b, k) as int) == loop_depth(instrs(b), k),
    ensures
        loop_depth(expand(b), offset(b, k) + j) == if j == 0 {
            loop_depth(instrs(b), k)
        } else {
            loop_depth(instrs(b), k + 1)
        },
    decreases j,
{
    assert(is_command(b[k].0));
    assert(instrs(b)[k] == instr_of(b[k].0, b[k].1));
    if j > 0 {
        lemma_depth_in_block(b, bound, k, j - 1);
        lemma_elem(b, k, j - 1);
    }
}

proof fn lemma_depth_offsets(b: Seq<(char, nat)>, bound: nat, k: int)
    requires
        blocks_ok(b, bound),
        0 <= k <= b.len(),
    ensures
        loop_depth(expand(b), offset(b, k) as int) == loop_depth(instrs(b), k),
    decreases k,
{
    if k == 0 {
        lemma_offsets(b);
    } else {
        lemma_depth_offsets(b, bound, k - 1);
        assert(b[k - 1].1 >= 1);
        lemma_depth_in_block(b, bound, k - 1, b[k - 1].1 as int);
        lemma_offset_step(b, k - 1);
    }
}

proof fn lemma_locate(b: Seq<(char, nat)>, bound: nat, a: int, c: int, x: int)
    requires
        blocks_ok(b, bound),
        0 <= a <= c <= b.len(),
        offset(b, a) < x <= offset(b, c),
    ensures
        exists|k: int| a <= k < c && offset(b, k) < x <= #[trigger] offset(b, k + 1),
    decreases c - a,
{
    lemma_offset_step(b, c - 1);
    if x <= offset(b, c - 1) {
        lemma_locate(b, bound, a, c - 1, x);
        let k = choose|k: int| a <= k < c - 1 && offset(b, k) < x <= #[trigger] offset(b, k + 1);
        assert(a <= k < c && offset(b, k) < x <= offset(b, k + 1));
    } else {
        assert(offset(b, c - 1) < x <= offset(b, c - 1 + 1));
    }
}

/// Loop boundaries that match in the collapsed program match in the expanded one.
proof fn lemma_matched_expand(b: Seq<(char, nat)>, bound: nat, a: int, c: int)
    requires
        blocks_ok(b, bound),
        matched(instrs(b), a, c),
    ensures
        matched(expand(b), offset(b, a) as int, offset(b, c) as int),
        b[a].1 == 1,
        b[c].1 == 1,
{
    let ci = instrs(b);
    let n = expand(b);
    assert(ci[a] == instr_of(b[a].0, b[a].1));
    assert(ci[c] == instr_of(b[c].0, b[c].1));
    assert(is_command(b[a].0) && is_command(b[c].0));
    lemma_elem(b, a, 0);
    lemma_elem(b, c, 0);
    lemma_offset_mono(b, bound, a, c);
    lemma_depth_offsets(b, bound, a);
    lemma_depth_offsets(b, bound, c);
    lemma_depth_in_block(b, bound, c, 1);
    assert forall|x: int| offset(b, a) < x <= offset(b, c) implies #[trigger] loop_depth(n, x) > loop_depth(n, offset(b, a) as int) by {
        lemma_locate(b, bound, a, c, x);
        let k = choose|k: int| a <= k < c && offset(b, k) < x <= #[trigger] offset(b, k + 1);
        lemma_offset_step(b, k);
        lemma_depth_offsets(b, bound, k);
        lemma_depth_in_block(b, bound, k, x - offset(b, k));
        assert(loop_depth(ci, k + 1) > loop_depth(ci, a));
    }
}

/// What the last `n - i` of `n` single-symbol instructions `c`, placed at
/// position `q` of a program, do from `cfg`.
spec fn units_outcome(c: char, q: int, n: nat, i: int, cfg: Config) -> (Status, Config) {
    let (m, inp, out) = cfg;
    let k = n - i;
    let dp = m.1;
    let t = m.2;
    if c == '+' {
        (Status::Running, ((q + n, dp, t.update(dp, ((t[dp] + k) % 256) as u8)), inp, out))
    } else if c == '-' {
        (Status::Running, ((q + n, dp, t.update(dp, ((t[dp] - k) % 256) as u8)), inp, out))
    } else if c == '>' {
        if dp + k < TAPE_LEN {
            (Status::Running, ((q + n, dp + k, t), inp, out))
        } else {
            (Status::TapeFault, ((q + i + (TAPE_LEN - 1 - dp), TAPE_LEN - 1, t), inp, out))
        }
    } else {
        if dp - k >= 0 {
            (Status::Running, ((q + n, dp - k, t), inp, out))
        } else {
            (Status::TapeFault, ((q + i + dp, 0int, t), inp, out))
        }
    }
}

proof fn lemma_units_from(
    p: Seq<Instruction>,
    map: Seq<Option<usize>>,
    q: int,
    c: char,
    n: nat,
    i: int,
    cfg: Config,
)
    requires
        is_run_symbol(c),
        0 <= q,
        q + n <= p.len(),
        forall|j: int| 0 <= j < n ==> #[trigger] p[q + j] == unit_of(c, 1),
        0 <= i <= n,
        cfg.0.0 == q + i,
        0 <= cfg.0.1 < TAPE_LEN,
        cfg.0.2.len() == TAPE_LEN,
    ensures
        run_for(p, map, cfg, (n - i) as nat) == units_outcome(c, q, n, i, cfg),
    decreases n - i,
{
    let (m, inp, out) = cfg;
    let dp = m.1;
    let t = m.2;
    let v = t[dp] as int;
    let k = n - i;
    if i == n {
        assert(t.update(dp, ((v + 0) % 256) as u8) =~= t);
        assert(t.update(dp, ((v - 0) % 256) as u8) =~= t);
    } else {
        assert(p[q + i] == unit_of(c, 1));
        let (st, next) = step_io(p, map, cfg);
        if st is Running {
            lemma_units_from(p, map, q, c, n, i + 1, next);
            if c == '+' {
                let v1 = (v + 1) % 256;
                assert(next.0.2 == t.update(dp, v1 as u8));
                lemma_add_mod_noop_right(k - 1, v + 1, 256);
                assert(next.0.2.update(dp, ((v1 + (k - 1)) % 256) as u8) =~= t.update(
                    dp,
                    ((v + k) % 256) as u8,
                ));
            } else if c == '-' {
                let x = v - 1 + 256;
                assert(next.0.2 == t.update(dp, (x % 256) as u8));
                lemma_sub_mod_noop(x, k - 1, 256);
                lemma_sub_mod_noop_right(x % 256, k - 1, 256);
                lemma_mod_add_multiples_vanish(v - k, 256);
                assert(next.0.2.update(dp, ((x % 256 - (k - 1)) % 256) as u8) =~= t.update(
                    dp,
                    ((v - k) % 256) as u8,
                ));
            }
        }
    }
}


} // verus!
