//! Bracket structure of a flat symbol sequence: nesting depth and balance.
use crate::opcode::OpCode;
use vstd::prelude::*;

verus! {

impl OpCode {
    /// What a symbol does to the nesting depth: `[` opens a level, `]` closes one.
    pub open spec fn nesting_change(self) -> int {
        match self {
            OpCode::LoopBegin => 1,
            OpCode::LoopEnd => -1,
            _ => 0,
        }
    }
}

/// The nesting depth after a symbol sequence: loop begins minus loop ends.
pub open spec fn depth(ops: Seq<OpCode>) -> int
    decreases ops.len(),
{
    if ops.len() == 0 {
        0
    } else {
        depth(ops.drop_last()) + ops.last().nesting_change()
    }
}

/// The greatest nesting depth reached after any prefix of a symbol sequence.
pub open spec fn max_depth(ops: Seq<OpCode>) -> int
    decreases ops.len(),
{
    if ops.len() == 0 {
        0
    } else {
        let before = max_depth(ops.drop_last());
        if before >= depth(ops) {
            before
        } else {
            depth(ops)
        }
    }
}

/// No prefix of the first `n` symbols closes more loops than it has opened.
pub open spec fn never_negative(ops: Seq<OpCode>, n: int) -> bool {
    forall|k: int| 0 <= k <= n ==> depth(#[trigger] ops.take(k)) >= 0
}

/// Every loop end closes an earlier loop begin, and every loop begin is closed.
pub open spec fn balanced(ops: Seq<OpCode>) -> bool {
    never_negative(ops, ops.len() as int) && depth(ops) == 0
}

/// The symbol at `offset` is the first loop end with no loop open before it.
pub open spec fn stray_end_at(ops: Seq<OpCode>, offset: int) -> bool {
    &&& 0 <= offset < ops.len()
    &&& ops[offset] == OpCode::LoopEnd
    &&& never_negative(ops, offset)
    &&& depth(ops.take(offset)) == 0
}

/// No loop end is stray, and the symbol at `offset` is the outermost loop
/// begin that is still open at the end of the sequence.
pub open spec fn unclosed_begin_at(ops: Seq<OpCode>, offset: int) -> bool {
    &&& 0 <= offset < ops.len()
    &&& ops[offset] == OpCode::LoopBegin
    &&& never_negative(ops, offset)
    &&& depth(ops.take(offset)) == 0
    &&& forall|k: int| offset < k <= ops.len() ==> depth(#[trigger] ops.take(k)) >= 1
}

/// Reading one more symbol changes the depth by that symbol's change.
pub proof fn lemma_depth_step(ops: Seq<OpCode>, i: int)
    requires
        0 <= i < ops.len(),
    ensures
        depth(ops.take(i + 1)) == depth(ops.take(i)) + ops[i].nesting_change(),
{
    assert(ops.take(i + 1).drop_last() == ops.take(i));
}

/// The depth after a concatenation is the sum of the depths.
pub proof fn lemma_depth_concat(a: Seq<OpCode>, b: Seq<OpCode>)
    ensures
        depth(a + b) == depth(a) + depth(b),
    decreases b.len(),
{
    if b.len() > 0 {
        assert((a + b).drop_last() == a + b.drop_last());
        lemma_depth_concat(a, b.drop_last());
    }
}

/// The deepest point of a concatenation is the deepest point of the first
/// part, or that of the second part raised by the depth the first part ends at.
pub proof fn lemma_max_depth_concat(a: Seq<OpCode>, b: Seq<OpCode>)
    ensures
        max_depth(a + b) == if max_depth(a) >= depth(a) + max_depth(b) {
            max_depth(a)
        } else {
            depth(a) + max_depth(b)
        },
        max_depth(a) >= depth(a),
        max_depth(a) >= 0,
    decreases b.len(),
{
    lemma_max_depth_bounds(a);
    if b.len() > 0 {
        lemma_max_depth_bounds(b.drop_last());
        assert((a + b).drop_last() == a + b.drop_last());
        lemma_max_depth_concat(a, b.drop_last());
        lemma_depth_concat(a, b);
    }
}

/// The deepest point is at least the depth at the start and at the end.
pub proof fn lemma_max_depth_bounds(ops: Seq<OpCode>)
    ensures
        max_depth(ops) >= 0,
        max_depth(ops) >= depth(ops),
    decreases ops.len(),
{
    if ops.len() > 0 {
        lemma_max_depth_bounds(ops.drop_last());
    }
}

/// Depth and deepest point of a single symbol.
pub proof fn lemma_single_symbol(op: OpCode)
    ensures
        depth(seq![op]) == op.nesting_change(),
        max_depth(seq![op]) == if op == OpCode::LoopBegin {
            1int
        } else {
            0int
        },
{
    let one = seq![op];
    assert(depth(one.drop_last()) == 0);
    assert(max_depth(one.drop_last()) == 0);
}

/// The depth never exceeds the number of symbols read.
pub proof fn lemma_depth_bound(ops: Seq<OpCode>)
    ensures
        -ops.len() <= depth(ops) <= ops.len(),
    decreases ops.len(),
{
    if ops.len() > 0 {
        lemma_depth_bound(ops.drop_last());
    }
}

/// Between a loop begin at depth 0 and the loop end that returns to depth 0
/// lies a balanced sequence.
pub proof fn lemma_enclosed_is_balanced(ops: Seq<OpCode>, begin: int, end: int)
    requires
        0 <= begin < end < ops.len(),
        ops[begin] == OpCode::LoopBegin,
        depth(ops.take(begin)) == 0,
        depth(ops.take(end)) == 1,
        forall|k: int| begin < k <= end ==> depth(#[trigger] ops.take(k)) >= 1,
    ensures
        balanced(ops.subrange(begin + 1, end)),
{
    let inner = ops.subrange(begin + 1, end);
    lemma_depth_step(ops, begin);
    assert forall|m: int| 0 <= m <= inner.len() implies depth(#[trigger] inner.take(m)) == depth(
        ops.take(begin + 1 + m),
    ) - 1 by {
        assert(ops.take(begin + 1 + m) == ops.take(begin + 1) + inner.take(m));
        lemma_depth_concat(ops.take(begin + 1), inner.take(m));
    }
    assert(inner.take(inner.len() as int) == inner);
}

/// Two balanced sequences, one after the other, are balanced.
pub proof fn lemma_balanced_concat(a: Seq<OpCode>, b: Seq<OpCode>)
    requires
        balanced(a),
        balanced(b),
    ensures
        balanced(a + b),
{
    let whole = a + b;
    assert forall|k: int| 0 <= k <= whole.len() implies depth(#[trigger] whole.take(k)) >= 0 by {
        if k <= a.len() {
            assert(whole.take(k) == a.take(k));
        } else {
            assert(whole.take(k) == a + b.take(k - a.len()));
            lemma_depth_concat(a, b.take(k - a.len()));
        }
    }
    lemma_depth_concat(a, b);
}

/// A balanced sequence between a loop begin and a loop end is balanced, lies
/// one level deep throughout, and its deepest point is one level deeper.
pub proof fn lemma_balanced_enclosed(inner: Seq<OpCode>)
    requires
        balanced(inner),
    ensures
        ({
            let whole = seq![OpCode::LoopBegin] + inner + seq![OpCode::LoopEnd];
            &&& balanced(whole)
            &&& max_depth(whole) == 1 + max_depth(inner)
            &&& forall|k: int| 0 < k < whole.len() ==> depth(#[trigger] whole.take(k)) >= 1
        }),
{
    let begin = seq![OpCode::LoopBegin];
    let end = seq![OpCode::LoopEnd];
    let whole = begin + inner + end;
    lemma_single_symbol(OpCode::LoopBegin);
    lemma_single_symbol(OpCode::LoopEnd);
    assert forall|k: int| 0 < k < whole.len() implies depth(#[trigger] whole.take(k)) >= 1 by {
        assert(whole.take(k) == begin + inner.take(k - 1));
        lemma_depth_concat(begin, inner.take(k - 1));
    }
    assert(whole.take(whole.len() as int) == whole);
    lemma_depth_concat(begin, inner);
    lemma_depth_concat(begin + inner, end);
    lemma_max_depth_concat(begin, inner);
    lemma_max_depth_concat(begin + inner, end);
    lemma_max_depth_bounds(inner);
}

/// A symbol sequence is balanced, or has its first stray loop end at one
/// offset, or has its outermost unclosed loop begin at one offset: no two of
/// these hold together, and neither offset can be another.
pub proof fn bracket_verdict_is_unique(ops: Seq<OpCode>, i: int, j: int)
    ensures
        !(balanced(ops) && stray_end_at(ops, i)),
        !(balanced(ops) && unclosed_begin_at(ops, i)),
        !(stray_end_at(ops, i) && unclosed_begin_at(ops, j)),
        stray_end_at(ops, i) && stray_end_at(ops, j) ==> i == j,
        unclosed_begin_at(ops, i) && unclosed_begin_at(ops, j) ==> i == j,
{
    assert(ops.take(ops.len() as int) == ops);
    if stray_end_at(ops, i) {
        lemma_depth_step(ops, i);
    }
    if stray_end_at(ops, j) {
        lemma_depth_step(ops, j);
    }
}

} // verus!
