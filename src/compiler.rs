use vstd::prelude::*;
use crate::instruction::{Instruction, is_run_symbol, unit_of};
use crate::program::{Program, loop_depth, matched};

verus! {

/// Length of the run of `c` that starts at position `i` of `s`.
pub open spec fn run_from(s: Seq<char>, i: int, c: char) -> nat
    decreases s.len() - i,
{
    if 0 <= i < s.len() && s[i] == c {
        1 + run_from(s, i + 1, c)
    } else {
        0
    }
}

/// Length of the maximal run of identical characters that starts at `i`.
pub open spec fn run_len(s: Seq<char>, i: int) -> nat {
    1 + run_from(s, i + 1, s[i])
}

/// The instructions that the source `s` compiles to from position `i` on.
pub open spec fn compile_from(s: Seq<char>, i: int) -> Seq<Instruction>
    decreases s.len() - i,
{
    if i < 0 || i >= s.len() {
        seq![]
    } else if is_run_symbol(s[i]) {
        if i + run_len(s, i) <= s.len() {
            seq![unit_of(s[i], run_len(s, i))] + compile_from(s, i + run_len(s, i))
        } else {
            seq![]
        }
    } else if s[i] == '[' {
        seq![Instruction::LoopStart] + compile_from(s, i + 1)
    } else if s[i] == ']' {
        seq![Instruction::LoopEnd] + compile_from(s, i + 1)
    } else if s[i] == '.' {
        seq![Instruction::Output] + compile_from(s, i + 1)
    } else if s[i] == ',' {
        seq![Instruction::Input] + compile_from(s, i + 1)
    } else {
        compile_from(s, i + 1)
    }
}

/// The instruction sequence of the source `s`.
pub open spec fn compile(s: Seq<char>) -> Seq<Instruction> {
    compile_from(s, 0)
}

/// Opening minus closing brackets among the first `k` characters of `s`.
pub open spec fn bracket_depth(s: Seq<char>, k: int) -> int
    decreases k,
{
    if k <= 0 {
        0
    } else {
        bracket_depth(s, k - 1) + if s[k - 1] == '[' {
            1int
        } else if s[k - 1] == ']' {
            -1int
        } else {
            0int
        }
    }
}

/// No prefix of `s` closes more brackets than it opens.
pub open spec fn never_negative(s: Seq<char>) -> bool {
    forall|k: int| 0 <= k <= s.len() ==> #[trigger] bracket_depth(s, k) >= 0
}

/// The brackets of `s` nest properly.
pub open spec fn balanced(s: Seq<char>) -> bool {
    never_negative(s) && bracket_depth(s, s.len() as int) == 0
}

/// `p` is the first `]` of `s` that has no `[` to match.
pub open spec fn first_unmatched_end(s: Seq<char>, p: int) -> bool {
    &&& 0 <= p < s.len()
    &&& s[p] == ']'
    &&& bracket_depth(s, p + 1) == -1
    &&& forall|k: int| 0 <= k <= p ==> #[trigger] bracket_depth(s, k) >= 0
}

/// `p` is the last `[` of `s` that is never closed.
pub open spec fn last_unclosed_start(s: Seq<char>, p: int) -> bool {
    &&& 0 <= p < s.len()
    &&& s[p] == '['
    &&& bracket_depth(s, s.len() as int) == bracket_depth(s, p) + 1
    &&& forall|k: int| p < k <= s.len() ==> #[trigger] bracket_depth(s, k) > bracket_depth(s, p)
}

/// A malformed program, with the source position of the offending bracket.
#[derive(Debug, Clone, Copy, PartialEq, Eq, Structural)]
pub enum CompileError {
    /// A `]` with no open loop to close.
    UnmatchedEnd(usize),
    /// A `[` that is still open at the end of the source.
    UnterminatedStart(usize),
}

pub(crate) proof fn lemma_run_from(s: Seq<char>, i: int, c: char)
    requires
        0 <= i <= s.len(),
    ensures
        i + run_from(s, i, c) <= s.len(),
        forall|m: int| i <= m < i + run_from(s, i, c) ==> s[m] == c,
        i + run_from(s, i, c) < s.len() ==> s[i + run_from(s, i, c)] != c,
    decreases s.len() - i,
{
    if i < s.len() && s[i] == c {
        lemma_run_from(s, i + 1, c);
    }
}

proof fn lemma_depth_flat(s: Seq<char>, i: int, n: int)
    requires
        0 <= i,
        0 <= n,
        i + n <= s.len(),
        forall|m: int| i <= m < i + n ==> s[m] != '[' && s[m] != ']',
    ensures
        forall|k: int| i <= k <= i + n ==> #[trigger] bracket_depth(s, k) == bracket_depth(s, i),
    decreases n,
{
    if n > 0 {
        lemma_depth_flat(s, i, n - 1);
        assert(bracket_depth(s, i + n) == bracket_depth(s, i + n - 1));
    }
}

proof fn lemma_depth_push_at(ins: Seq<Instruction>, x: Instruction, k: int)
    requires
        0 <= k <= ins.len(),
    ensures
        loop_depth(ins.push(x), k) == loop_depth(ins, k),
    decreases k,
{
    if k > 0 {
        lemma_depth_push_at(ins, x, k - 1);
    }
}

proof fn lemma_depth_push(ins: Seq<Instruction>, x: Instruction)
    ensures
        forall|k: int| 0 <= k <= ins.len() ==> #[trigger] loop_depth(ins.push(x), k) == loop_depth(ins, k),
        forall|a: int, b: int| b < ins.len() ==> (#[trigger] matched(ins.push(x), a, b) <==> matched(ins, a, b)),
{
    assert forall|k: int| 0 <= k <= ins.len() implies #[trigger] loop_depth(ins.push(x), k) == loop_depth(ins, k) by {
        lemma_depth_push_at(ins, x, k);
    }
    assert forall|a: int, b: int| b < ins.len() implies (#[trigger] matched(ins.push(x), a, b) <==> matched(ins, a, b)) by {
        let p = ins.push(x);
        if 0 <= a < b {
            assert(p[a] == ins[a] && p[b] == ins[b]);
            assert(loop_depth(p, b + 1) == loop_depth(ins, b + 1));
            assert(loop_depth(p, a) == loop_depth(ins, a));
            assert forall|k: int| #![trigger loop_depth(p, k)] #![trigger loop_depth(ins, k)]
                a < k <= b implies loop_depth(p, k) == loop_depth(ins, k) by {
                lemma_depth_push_at(ins, x, k);
            }
        }
    }
}

/// Length of the maximal run of the character at `start`: at least one, and
/// it never reaches past the end.
pub fn reduce_similar(src: &Vec<char>, start: usize) -> (n: usize)
    requires
        start < src@.len(),
    ensures
        n == run_len(src@, start as int),
        1 <= n,
        start + n <= src@.len(),
{
    let len = src.len();
    let c = src[start];
    let mut idx: usize = start + 1;
    while idx < src.len() && src[idx] == c
        invariant
            start < idx <= src@.len(),
            c == src@[start as int],
            run_from(src@, start + 1, c) == (idx - start - 1) + run_from(src@, idx as int, c),
        decreases src@.len() - idx,
    {
        idx += 1;
    }
    idx - start
}

/// The characters of `src`, in order.
pub fn source_chars(src: &str) -> (r: Vec<char>)
    ensures
        r@ == src@,
{
    let n = src.unicode_len();
    let mut r: Vec<char> = Vec::new();
    let mut i: usize = 0;
    while i < n
        invariant
            n == src@.len(),
            i <= n,
            r@ == src@.subrange(0, i as int),
        decreases n - i,
    {
        r.push(src.get_char(i));
        i += 1;
        assert(r@ =~= src@.subrange(0, i as int));
    }
    assert(r@ =~= src@);
    r
}

/// The loop state of a partial compilation: `stack` holds, innermost last,
/// the instruction index and source position of every loop still open after
/// reading `idx` characters of `s` into `out`, and `map` pairs the loops that
/// are already closed.
spec fn scan_state(
    s: Seq<char>,
    idx: int,
    out: Seq<Instruction>,
    map: Seq<Option<usize>>,
    stack: Seq<(usize, usize)>,
) -> bool {
    &&& 0 <= idx <= s.len()
    &&& compile(s) == out + compile_from(s, idx)
    &&& map.len() == out.len()
    &&& forall|k: int| 0 <= k <= idx ==> #[trigger] bracket_depth(s, k) >= 0
    &&& bracket_depth(s, idx) == stack.len()
    &&& loop_depth(out, out.len() as int) == stack.len()
    &&& forall|j: int|
        #![trigger stack[j]]
        0 <= j < stack.len() ==> {
            &&& stack[j].0 < out.len()
            &&& stack[j].1 < idx
            &&& s[stack[j].1 as int] == '['
            &&& out[stack[j].0 as int] is LoopStart
            &&& map[stack[j].0 as int] is None
            &&& bracket_depth(s, stack[j].1 as int) == j
            &&& loop_depth(out, stack[j].0 as int) == j
            &&& forall|k: int|
                stack[j].1 < k <= idx ==> #[trigger] bracket_depth(s, k) > j
            &&& forall|k: int|
                stack[j].0 < k <= out.len() ==> #[trigger] loop_depth(out, k) > j
        }
    &&& forall|a: int, b: int|
        #[trigger] matched(out, a, b) ==> map[a] == Some(b as usize) && map[b] == Some(a as usize)
    &&& forall|i: int|
        0 <= i < out.len() && #[trigger] map[i] is Some ==> (matched(out, i, map[i]->0 as int)
            || matched(out, map[i]->0 as int, i)) && map[i]->0 < out.len() && (out[i] is LoopStart
            || out[i] is LoopEnd)
    &&& forall|i: int| 0 <= i < out.len() && #[trigger] out[i] is LoopEnd ==> map[i] is Some
    &&& forall|i: int|
        0 <= i < out.len() && #[trigger] out[i] is LoopStart && map[i] is None ==> exists|j: int|
            0 <= j < stack.len() && #[trigger] stack[j].0 == i
}

/// Appending an instruction that is not a loop boundary keeps the loop state.
proof fn lemma_push_plain(
    s: Seq<char>,
    idx: int,
    n: int,
    out: Seq<Instruction>,
    map: Seq<Option<usize>>,
    stack: Seq<(usize, usize)>,
    x: Instruction,
)
    requires
        scan_state(s, idx, out, map, stack),
        1 <= n,
        idx + n <= s.len(),
        forall|m: int| idx <= m < idx + n ==> s[m] != '[' && s[m] != ']',
        !(x is LoopStart),
        !(x is LoopEnd),
        compile_from(s, idx) == seq![x] + compile_from(s, idx + n),
    ensures
        scan_state(s, idx + n, out.push(x), map.push(None), stack),
{
    lemma_depth_flat(s, idx, n);
    lemma_depth_push(out, x);
    let out2 = out.push(x);
    let map2 = map.push(None);
    assert(out + compile_from(s, idx) =~= out2 + compile_from(s, idx + n));
    assert(out2[out.len() as int] == x);
    assert(loop_depth(out2, out.len() as int) == loop_depth(out, out.len() as int));
    assert(loop_depth(out2, out2.len() as int) == loop_depth(out, out.len() as int));
    assert forall|a: int, b: int| #[trigger] matched(out2, a, b) implies map2[a] == Some(b as usize)
        && map2[b] == Some(a as usize) by {
        assert(b < out.len());
        assert(matched(out, a, b));
    }
    assert forall|i: int|
        0 <= i < out2.len() && #[trigger] map2[i] is Some implies (matched(out2, i, map2[i]->0 as int)
            || matched(out2, map2[i]->0 as int, i)) && map2[i]->0 < out2.len() && (out2[i] is LoopStart
            || out2[i] is LoopEnd) by {
        assert(i < out.len());
        assert(map[i] is Some);
    }
    assert forall|i: int|
        0 <= i < out2.len() && #[trigger] out2[i] is LoopStart && map2[i] is None implies exists|j: int|
            0 <= j < stack.len() && #[trigger] stack[j].0 == i by {
        assert(i < out.len());
        assert(out[i] is LoopStart);
    }
    assert forall|j: int| #![trigger stack[j]] 0 <= j < stack.len() implies
        forall|k: int| stack[j].0 < k <= out2.len() ==> #[trigger] loop_depth(out2, k) > j by {
        assert(loop_depth(out, stack[j].0 as int) == j);
    }
}

/// Compiles `src`: collapses runs of `>`, `<`, `+` and `-`, drops every
/// character outside the language, and pairs each `[` with its `]`.
pub fn parse(src: &str) -> (r: Result<Program, CompileError>)
    ensures
        balanced(src@) <==> r is Ok,
        match r {
            Ok(p) => p.wf() && p@.0 == compile(src@),
            Err(CompileError::UnmatchedEnd(pos)) => first_unmatched_end(src@, pos as int),
            Err(CompileError::UnterminatedStart(pos)) => never_negative(src@) && bracket_depth(
                src@,
                src@.len() as int,
            ) > 0 && last_unclosed_start(src@, pos as int),
        },
{
    let chars = source_chars(src);
    let ghost s = chars@;
    let len = chars.len();
    let mut out: Vec<Instruction> = Vec::new();
    let mut map: Vec<Option<usize>> = Vec::new();
    let mut stack: Vec<(usize, usize)> = Vec::new();
    let mut idx: usize = 0;
    proof {
        assert(out@ + compile_from(s, 0) =~= compile(s));
    }
    while idx < len
        invariant
            s == src@,
            chars@ == s,
            len == s.len(),
            scan_state(s, idx as int, out@, map@, stack@),
        decreases len - idx,
    {
        let c = chars[idx];
        if c == '>' || c == '<' || c == '+' || c == '-' {
            let n = reduce_similar(&chars, idx);
            let x = Instruction::from_sym_rep(c, n);
            proof {
                lemma_run_from(s, idx + 1, c);
                lemma_push_plain(s, idx as int, n as int, out@, map@, stack@, x);
            }
            out.push(x);
            map.push(None);
            idx += n;
        } else if c == '.' || c == ',' {
            let x = if c == '.' {
                Instruction::Output
            } else {
                Instruction::Input
            };
            proof {
                lemma_push_plain(s, idx as int, 1, out@, map@, stack@, x);
            }
            out.push(x);
            map.push(None);
            idx += 1;
        } else if c == '[' {
            let ghost old_out = out@;
            let ghost old_map = map@;
            let ghost old_stack = stack@;
            proof {
                lemma_depth_push(out@, Instruction::LoopStart);
            }
            stack.push((out.len(), idx));
            out.push(Instruction::LoopStart);
            map.push(None);
            idx += 1;
            proof {
                assert(old_out + compile_from(s, idx - 1) =~= out@ + compile_from(s, idx as int));
                assert(bracket_depth(s, idx as int) == bracket_depth(s, idx - 1) + 1);
                assert(out@[old_out.len() as int] is LoopStart);
                assert(loop_depth(out@, old_out.len() as int) == loop_depth(old_out, old_out.len() as int));
                assert(loop_depth(out@, out@.len() as int) == old_stack.len() + 1);
                assert forall|a: int, b: int| #[trigger] matched(out@, a, b) implies map@[a] == Some(
                    b as usize,
                ) && map@[b] == Some(a as usize) by {
                    assert(b < old_out.len());
                    assert(matched(old_out, a, b));
                }
                assert forall|i: int|
                    0 <= i < out@.len() && #[trigger] map@[i] is Some implies (matched(
                        out@,
                        i,
                        map@[i]->0 as int,
                    ) || matched(out@, map@[i]->0 as int, i)) && map@[i]->0 < out@.len() && (
                    out@[i] is LoopStart || out@[i] is LoopEnd) by {
                    assert(i < old_out.len());
                    assert(old_map[i] is Some);
                }
                assert forall|i: int|
                    0 <= i < out@.len() && #[trigger] out@[i] is LoopStart && map@[i] is None implies exists|j: int|
                        0 <= j < stack@.len() && #[trigger] stack@[j].0 == i by {
                    if i < old_out.len() {
                        assert(old_out[i] is LoopStart);
                        let j = choose|j: int| 0 <= j < old_stack.len() && #[trigger] old_stack[j].0 == i;
                        assert(stack@[j] == old_stack[j]);
                    } else {
                        assert(stack@[old_stack.len() as int].0 == i);
                    }
                }
                assert forall|j: int| #![trigger stack@[j]] 0 <= j < stack@.len() implies {
                    &&& forall|k: int| stack@[j].1 < k <= idx ==> #[trigger] bracket_depth(s, k) > j
                    &&& forall|k: int| stack@[j].0 < k <= out@.len() ==> #[trigger] loop_depth(out@, k) > j
                    &&& loop_depth(out@, stack@[j].0 as int) == j
                } by {
                    if j < old_stack.len() {
                        assert(stack@[j] == old_stack[j]);
                        assert(loop_depth(old_out, old_stack[j].0 as int) == j);
                    }
                }
            }
        } else if c == ']' {
            if stack.len() == 0 {
                proof {
                    assert(bracket_depth(s, idx + 1) == -1);
                    assert(!never_negative(s));
                }
                return Err(CompileError::UnmatchedEnd(idx));
            }
            let ghost old_out = out@;
            let ghost old_map = map@;
            let ghost old_stack = stack@;
            let (start, _) = stack.pop().unwrap();
            let end = out.len();
            let ghost t = old_stack.len() - 1;
            proof {
                assert(old_stack[t].0 == start);
                lemma_depth_push(out@, Instruction::LoopEnd);
            }
            out.push(Instruction::LoopEnd);
            map.push(Some(start));
            map.set(start, Some(end));
            idx += 1;
            proof {
                let o = out@;
                assert(old_out + compile_from(s, idx - 1) =~= out@ + compile_from(s, idx as int));
                assert(bracket_depth(s, idx as int) == bracket_depth(s, idx - 1) - 1);
                assert(o[end as int] is LoopEnd);
                assert(loop_depth(o, end as int) == loop_depth(old_out, end as int));
                assert(loop_depth(o, end + 1) == t);
                assert(loop_depth(o, start as int) == t);
                assert(matched(o, start as int, end as int));
                assert forall|a: int, b: int| #[trigger] matched(o, a, b) implies map@[a] == Some(
                    b as usize,
                ) && map@[b] == Some(a as usize) by {
                    if b < end {
                        assert(matched(old_out, a, b));
                        if a == start {
                            assert(loop_depth(o, b + 1) > t);
                        }
                    } else {
                        if a < start {
                            assert(loop_depth(o, start as int) > loop_depth(o, a));
                        } else if a > start {
                            assert(loop_depth(o, a) > t);
                        }
                    }
                }
                assert forall|i: int|
                    0 <= i < o.len() && #[trigger] map@[i] is Some implies (matched(
                        o,
                        i,
                        map@[i]->0 as int,
                    ) || matched(o, map@[i]->0 as int, i)) && map@[i]->0 < o.len() && (
                    o[i] is LoopStart || o[i] is LoopEnd) by {
                    if i != start && i != end {
                        assert(old_map[i] is Some);
                    }
                }
                assert forall|i: int| 0 <= i < o.len() && #[trigger] o[i] is LoopEnd implies map@[i] is Some by {
                    if i != start && i != end {
                        assert(old_out[i] is LoopEnd);
                    }
                }
                assert forall|i: int|
                    0 <= i < o.len() && #[trigger] o[i] is LoopStart && map@[i] is None implies exists|j: int|
                        0 <= j < stack@.len() && #[trigger] stack@[j].0 == i by {
                    assert(i < old_out.len());
                    assert(old_out[i] is LoopStart);
                    let j = choose|j: int| 0 <= j < old_stack.len() && #[trigger] old_stack[j].0 == i;
                    assert(j != t);
                    assert(stack@[j] == old_stack[j]);
                }
                assert forall|j: int| #![trigger stack@[j]] 0 <= j < stack@.len() implies {
                    &&& map@[stack@[j].0 as int] is None
                    &&& forall|k: int| stack@[j].1 < k <= idx ==> #[trigger] bracket_depth(s, k) > j
                    &&& forall|k: int| stack@[j].0 < k <= o.len() ==> #[trigger] loop_depth(o, k) > j
                    &&& loop_depth(o, stack@[j].0 as int) == j
                } by {
                    assert(stack@[j] == old_stack[j]);
                    assert(old_stack[j].0 != start);
                    assert(loop_depth(old_out, old_stack[j].0 as int) == j);
                }
            }
        } else {
            proof {
                assert(bracket_depth(s, idx + 1) == bracket_depth(s, idx as int));
                assert(compile_from(s, idx as int) == compile_from(s, idx + 1));
            }
            idx += 1;
        }
    }
    if stack.len() > 0 {
        let (_, pos) = stack[stack.len() - 1];
        return Err(CompileError::UnterminatedStart(pos));
    }
    proof {
        assert(compile_from(s, len as int) == Seq::<Instruction>::empty());
        assert(out@ =~= compile(s));
        assert forall|i: int| 0 <= i < out@.len() implies (#[trigger] map@[i] is Some <==> (out@[i] is LoopStart
            || out@[i] is LoopEnd)) by {
            if out@[i] is LoopStart && map@[i] is None {
                let j = choose|j: int| 0 <= j < stack@.len() && #[trigger] stack@[j].0 == i;
            }
        }
    }
    Ok(Program::from_parts(out, map))
}

} // verus!
