//! The mathematical model of the builder.
//!
//! A node is a subtree digest together with its depth: a depth-`k` node
//! stands for `2^k` consecutive leaf units (the rightmost node may stand for
//! fewer). The specs here mirror, step for step, what the builder does: the
//! bounded-depth merge of a new leaf into the stack (`merge_step`), the
//! stream of such merges (`stream_stack`), the finalize-time collapse of the
//! below-cap suffix (`collapse`), and the pure pairing fold that reduces a
//! node list to the root digest (`root_of_list`).

use vstd::prelude::*;
use crate::hashes::{chunk_cv, parent_cv_spec};

verus! {

/// Depth cap: a completed block is a node of this depth, covering
/// `2^BLOCK_DEPTH` units.
pub open spec fn spec_block_depth() -> nat {
    10
}

/// Unit size in bytes (the BLAKE3 chunk length).
pub open spec fn spec_unit_len() -> nat {
    1024
}

/// A stack node at the model level: a subtree digest and its depth.
#[verifier::ext_equal]
pub ghost struct NodeV {
    pub cv: Seq<u8>,
    pub depth: nat,
}

/// Number of leaf units a byte stream of length `len` decomposes into:
/// all units are full except a possibly shorter final one; an empty stream
/// has no units.
pub open spec fn num_units(len: nat) -> nat {
    if len == 0 {
        0
    } else {
        ((len - 1) / spec_unit_len() as int + 1) as nat
    }
}

/// The bytes of unit `i` of the stream: a full window of `spec_unit_len()`
/// bytes, clipped at the end of the stream.
pub open spec fn unit_bytes(s: Seq<u8>, i: nat) -> Seq<u8> {
    let lo = i * spec_unit_len();
    let hi = (i + 1) * spec_unit_len();
    if hi <= s.len() {
        s.subrange(lo as int, hi as int)
    } else {
        s.subrange(lo as int, s.len() as int)
    }
}

/// One merge step of the stack reducer: a running digest of depth `depth`
/// arrives; while the top of the stack has the same depth, the top is
/// combined (as left operand) with the running digest. The combine carries
/// the root flag only when this is the final push and the stack empties.
/// Merging stops once the cap is reached: the resulting block node is pushed
/// and never touched again.
pub open spec fn merge_step(stack: Seq<NodeV>, running: Seq<u8>, depth: nat, fin: bool) -> Seq<NodeV>
    decreases stack.len(),
{
    if stack.len() == 0 || stack.last().depth != depth {
        stack.push(NodeV { cv: running, depth })
    } else {
        let combined = parent_cv_spec(stack.last().cv, running, fin && stack.len() == 1);
        if depth + 1 == spec_block_depth() {
            stack.drop_last().push(NodeV { cv: combined, depth: spec_block_depth() })
        } else {
            merge_step(stack.drop_last(), combined, depth + 1, fin)
        }
    }
}

/// The stack after the first `k` full units of the stream have been pushed,
/// none of them final.
pub open spec fn stream_stack(s: Seq<u8>, k: nat) -> Seq<NodeV>
    decreases k,
{
    if k == 0 {
        Seq::empty()
    } else {
        let i = (k - 1) as nat;
        merge_step(stream_stack(s, i), chunk_cv(i, unit_bytes(s, i), false), 0, false)
    }
}

/// Number of leading block nodes (nodes at the depth cap) of a stack.
pub open spec fn leading_blocks(stack: Seq<NodeV>) -> nat
    decreases stack.len(),
{
    if stack.len() == 0 || stack.first().depth != spec_block_depth() {
        0
    } else {
        1 + leading_blocks(stack.drop_first())
    }
}

/// The digest obtained by folding the stack downward from its top, starting
/// at absolute index `k`: each node below the top is combined, as left
/// operand, with the digest accumulated so far. The combine that reaches the
/// bottom of the stack carries the root flag.
pub open spec fn collapse_hash(stack: Seq<NodeV>, k: int) -> Seq<u8>
    decreases stack.len() - k,
{
    if k >= stack.len() - 1 {
        stack[k].cv
    } else {
        parent_cv_spec(stack[k].cv, collapse_hash(stack, k + 1), k == 0)
    }
}

/// The finalize-time collapse: the leading block nodes stay; everything
/// above the last block boundary folds into exactly one tail node, which
/// keeps the depth of the deepest node it absorbed. The fold carries the
/// root flag only when it reaches the bottom of the stack, that is when
/// there are no block nodes at all.
pub open spec fn collapse(stack: Seq<NodeV>) -> Seq<NodeV> {
    let b = leading_blocks(stack) as int;
    if stack.len() == 0 || b == stack.len() {
        stack
    } else {
        stack.take(b).push(NodeV { cv: collapse_hash(stack, b), depth: stack[b].depth })
    }
}

/// The finalized block list of a whole byte stream: the full units are
/// pushed in order, the trailing (possibly partial, never empty) unit is
/// pushed as the final leaf — root-flagged only if it is the only node —
/// and the stack is collapsed. An empty stream has an empty list.
pub open spec fn final_list(s: Seq<u8>) -> Seq<NodeV> {
    if s.len() == 0 {
        Seq::empty()
    } else {
        let m = (num_units(s.len()) - 1) as nat;
        let mid = stream_stack(s, m);
        let leaf = chunk_cv(m, unit_bytes(s, m), mid.len() == 0);
        collapse(merge_step(mid, leaf, 0, true))
    }
}

/// One pairing round of the root reducer: adjacent digests are combined
/// left to right without the root flag; an unpaired trailing digest is
/// carried forward unmerged.
pub open spec fn pair_up(l: Seq<Seq<u8>>) -> Seq<Seq<u8>> {
    Seq::new((l.len() + 1) / 2, |i: int|
        if 2 * i + 1 < l.len() {
            parent_cv_spec(l[2 * i], l[2 * i + 1], false)
        } else {
            l[2 * i]
        })
}

/// The root digest of a node list: the empty list yields the designated
/// empty-input digest; a single digest is the root verbatim; two digests
/// are combined with the root flag; longer lists are pairing-folded until
/// two remain.
pub open spec fn root_of_list(l: Seq<Seq<u8>>) -> Seq<u8>
    decreases l.len(),
{
    if l.len() == 0 {
        chunk_cv(0, Seq::empty(), true)
    } else if l.len() == 1 {
        l[0]
    } else if l.len() == 2 {
        parent_cv_spec(l[0], l[1], true)
    } else {
        root_of_list(pair_up(l))
    }
}

/// The digests of a node list, in order.
pub open spec fn digests_of(stack: Seq<NodeV>) -> Seq<Seq<u8>> {
    stack.map_values(|n: NodeV| n.cv)
}

/// The shape every reachable stack has: depths never exceed the cap, and
/// left of any node stand only strictly deeper nodes or completed blocks —
/// so the block nodes form a prefix and the rest strictly decreases.
pub open spec fn stack_wf(stack: Seq<NodeV>) -> bool {
    &&& forall|i: int| 0 <= i < stack.len() ==> (#[trigger] stack[i].depth) <= spec_block_depth()
    &&& forall|i: int, j: int|
        0 <= i < j < stack.len() ==> (#[trigger] stack[i].depth == spec_block_depth()
            || stack[i].depth > #[trigger] stack[j].depth)
}

/// A merge step never empties the stack.
pub proof fn lemma_merge_step_len(stack: Seq<NodeV>, running: Seq<u8>, depth: nat, fin: bool)
    ensures
        merge_step(stack, running, depth, fin).len() >= 1,
        merge_step(stack, running, depth, fin).len() <= stack.len() + 1,
    decreases stack.len(),
{
    if stack.len() != 0 && stack.last().depth == depth && depth + 1 != spec_block_depth() {
        let combined = parent_cv_spec(stack.last().cv, running, fin && stack.len() == 1);
        lemma_merge_step_len(stack.drop_last(), combined, depth + 1, fin);
    }
}

/// A merge step preserves the stack shape, provided the incoming digest sits
/// no deeper than the top of the stack.
pub proof fn lemma_merge_step_wf(stack: Seq<NodeV>, running: Seq<u8>, depth: nat, fin: bool)
    requires
        stack_wf(stack),
        depth < spec_block_depth(),
        stack.len() > 0 && stack.last().depth != spec_block_depth() ==> stack.last().depth
            >= depth,
    ensures
        stack_wf(merge_step(stack, running, depth, fin)),
    decreases stack.len(),
{
    if stack.len() == 0 || stack.last().depth != depth {
        assert(stack_wf(stack.push(NodeV { cv: running, depth })));
    } else {
        let combined = parent_cv_spec(stack.last().cv, running, fin && stack.len() == 1);
        if depth + 1 == spec_block_depth() {
            assert forall|i: int| 0 <= i < stack.len() - 1 implies (#[trigger] stack[i].depth)
                == spec_block_depth() by {
                assert(stack[i].depth == spec_block_depth() || stack[i].depth
                    > stack[stack.len() - 1].depth);
            }
            assert(stack_wf(stack.drop_last().push(
                NodeV { cv: combined, depth: spec_block_depth() },
            )));
        } else {
            lemma_merge_step_wf(stack.drop_last(), combined, depth + 1, fin);
        }
    }
}

/// Every mid-stream stack has the well-formed shape.
pub proof fn lemma_stream_stack_wf(s: Seq<u8>, k: nat)
    ensures
        stack_wf(stream_stack(s, k)),
    decreases k,
{
    if k > 0 {
        let i = (k - 1) as nat;
        lemma_stream_stack_wf(s, i);
        lemma_merge_step_wf(stream_stack(s, i), chunk_cv(i, unit_bytes(s, i), false), 0, false);
    }
}

/// In a well-formed stack, `leading_blocks` counts exactly the nodes up to
/// the first node below the cap.
pub proof fn lemma_leading_blocks_index(stack: Seq<NodeV>, m: nat)
    requires
        m <= stack.len(),
        forall|i: int| 0 <= i < m ==> (#[trigger] stack[i].depth) == spec_block_depth(),
        m < stack.len() ==> stack[m as int].depth != spec_block_depth(),
    ensures
        leading_blocks(stack) == m,
    decreases stack.len(),
{
    if m == 0 {
        if stack.len() > 0 {
            assert(stack.first().depth != spec_block_depth());
        }
    } else {
        assert(stack.first().depth == spec_block_depth());
        let rest = stack.drop_first();
        assert forall|i: int| 0 <= i < m - 1 implies (#[trigger] rest[i].depth)
            == spec_block_depth() by {
            assert(rest[i] == stack[i + 1]);
        }
        assert(m - 1 < rest.len() ==> rest[m - 1].depth != spec_block_depth());
        lemma_leading_blocks_index(rest, (m - 1) as nat);
    }
}

/// Two to the power `k`.
pub open spec fn pow2(k: nat) -> nat
    decreases k,
{
    if k == 0 {
        1
    } else {
        2 * pow2((k - 1) as nat)
    }
}

/// Block size in bytes: a block node covers this much input.
pub open spec fn spec_block_bytes() -> nat {
    pow2(spec_block_depth()) * spec_unit_len()
}

/// The number of leaf units a stack accounts for, going by depth alone: a
/// depth-`k` node stands for `2^k` units.
pub open spec fn units_sum(stack: Seq<NodeV>) -> nat
    decreases stack.len(),
{
    if stack.len() == 0 {
        0
    } else {
        units_sum(stack.drop_last()) + pow2(stack.last().depth)
    }
}

/// The number of block nodes in a stack.
pub open spec fn count_blocks(stack: Seq<NodeV>) -> nat
    decreases stack.len(),
{
    if stack.len() == 0 {
        0
    } else {
        count_blocks(stack.drop_last()) + if stack.last().depth == spec_block_depth() {
            1nat
        } else {
            0nat
        }
    }
}

pub proof fn lemma_pow2_monotonic(a: nat, b: nat)
    requires
        a <= b,
    ensures
        pow2(a) <= pow2(b),
    decreases b,
{
    if a < b {
        lemma_pow2_monotonic(a, (b - 1) as nat);
    }
}

/// A merge step adds exactly the units of the incoming digest to the stack's
/// account: combining two equal-depth nodes into one a level up keeps the
/// total.
pub proof fn lemma_merge_step_units(stack: Seq<NodeV>, running: Seq<u8>, depth: nat, fin: bool)
    ensures
        units_sum(merge_step(stack, running, depth, fin)) == units_sum(stack) + pow2(depth),
    decreases stack.len(),
{
    if stack.len() == 0 || stack.last().depth != depth {
        let r = stack.push(NodeV { cv: running, depth });
        assert(r.drop_last() =~= stack);
    } else {
        let combined = parent_cv_spec(stack.last().cv, running, fin && stack.len() == 1);
        if depth + 1 == spec_block_depth() {
            let r = stack.drop_last().push(NodeV { cv: combined, depth: spec_block_depth() });
            assert(r.drop_last() =~= stack.drop_last());
            assert(pow2(spec_block_depth()) == 2 * pow2(depth));
        } else {
            lemma_merge_step_units(stack.drop_last(), combined, depth + 1, fin);
        }
    }
}

/// The mid-stream stack accounts for exactly the units pushed so far.
pub proof fn lemma_stream_stack_units(s: Seq<u8>, k: nat)
    ensures
        units_sum(stream_stack(s, k)) == k,
    decreases k,
{
    if k > 0 {
        let i = (k - 1) as nat;
        lemma_stream_stack_units(s, i);
        lemma_merge_step_units(stream_stack(s, i), chunk_cv(i, unit_bytes(s, i), false), 0, false);
    }
}

/// The units of a stack split additively at any boundary.
pub proof fn lemma_units_sum_split(stack: Seq<NodeV>, m: int)
    requires
        0 <= m <= stack.len(),
    ensures
        units_sum(stack) == units_sum(stack.take(m)) + units_sum(stack.skip(m)),
    decreases stack.len() - m,
{
    if m == stack.len() {
        assert(stack.take(m) =~= stack);
        assert(units_sum(stack.skip(m)) == 0);
    } else {
        lemma_units_sum_split(stack.drop_last(), m);
        assert(stack.drop_last().take(m) =~= stack.take(m));
        assert(stack.drop_last().skip(m) =~= stack.skip(m).drop_last());
        assert(stack.skip(m).last() == stack.last());
    }
}

/// A run of block nodes accounts for a block's worth of units each.
pub proof fn lemma_units_sum_blocks(stack: Seq<NodeV>)
    requires
        forall|i: int| 0 <= i < stack.len() ==> (#[trigger] stack[i].depth) == spec_block_depth(),
    ensures
        units_sum(stack) == stack.len() * pow2(spec_block_depth()),
    decreases stack.len(),
{
    if stack.len() > 0 {
        lemma_units_sum_blocks(stack.drop_last());
        let p = pow2(spec_block_depth());
        assert((stack.len() - 1) * p + p == stack.len() * p) by (nonlinear_arith);
    }
}

/// A single node accounts for the units of its depth.
pub proof fn lemma_units_sum_single(n: NodeV)
    ensures
        units_sum(seq![n]) == pow2(n.depth),
{
    assert(seq![n].last() == n);
    assert(seq![n].drop_last() =~= Seq::<NodeV>::empty());
    assert(units_sum(seq![n].drop_last()) == 0);
}

/// A run of strictly decreasing depths, each at most `d`, accounts for
/// fewer than `2^(d+1)` units: distinct powers of two below a bound.
pub proof fn lemma_units_sum_decreasing(stack: Seq<NodeV>, d: nat)
    requires
        forall|i: int| 0 <= i < stack.len() ==> (#[trigger] stack[i].depth) <= d,
        forall|i: int, j: int| 0 <= i < j < stack.len() ==> (#[trigger] stack[i].depth)
            > (#[trigger] stack[j].depth),
    ensures
        units_sum(stack) < pow2(d + 1),
    decreases stack.len(),
{
    if stack.len() == 0 {
        lemma_pow2_monotonic(0, d + 1);
    } else {
        let first = stack.first();
        let rest = stack.drop_first();
        assert(stack =~= seq![first] + rest);
        lemma_units_sum_split(stack, 1);
        assert(stack.take(1) =~= seq![first]);
        assert(stack.skip(1) =~= rest);
        lemma_units_sum_single(first);
        assert(pow2(first.depth + 1) == 2 * pow2(first.depth));
        lemma_pow2_monotonic(0, first.depth);
        if rest.len() == 0 {
            lemma_pow2_monotonic(first.depth + 1, d + 1);
        } else {
            assert(first.depth >= 1);
            assert forall|i: int| 0 <= i < rest.len() implies (#[trigger] rest[i].depth)
                <= (first.depth - 1) as nat by {
                assert(stack[0].depth > stack[i + 1].depth);
                assert(rest[i] == stack[i + 1]);
            }
            assert forall|i: int, j: int| 0 <= i < j < rest.len() implies (#[trigger] rest[i].depth)
                > (#[trigger] rest[j].depth) by {
                assert(rest[i] == stack[i + 1]);
                assert(rest[j] == stack[j + 1]);
            }
            lemma_units_sum_decreasing(rest, (first.depth - 1) as nat);
            lemma_pow2_monotonic(first.depth + 1, d + 1);
        }
    }
}

/// A stack accounting for no units is empty.
pub proof fn lemma_units_sum_zero(stack: Seq<NodeV>)
    requires
        units_sum(stack) == 0,
    ensures
        stack.len() == 0,
{
    if stack.len() > 0 {
        assert(pow2(stack.last().depth) >= 1) by {
            lemma_pow2_monotonic(0, stack.last().depth);
        }
    }
}

/// In a well-formed stack, the block nodes are exactly the leading ones.
pub proof fn lemma_count_blocks_leading(stack: Seq<NodeV>)
    requires
        stack_wf(stack),
    ensures
        count_blocks(stack) == leading_blocks(stack),
    decreases stack.len(),
{
    let b = leading_blocks(stack) as int;
    lemma_leading_blocks_bounds(stack);
    assert forall|i: int| 0 <= i < stack.len() implies ((#[trigger] stack[i].depth)
        == spec_block_depth()) == (i < b) by {
        lemma_leading_blocks_at(stack, i);
    }
    lemma_count_blocks_by_prefix(stack, b);
}

/// `leading_blocks` never exceeds the stack's length.
pub proof fn lemma_leading_blocks_bounds(stack: Seq<NodeV>)
    ensures
        leading_blocks(stack) <= stack.len(),
    decreases stack.len(),
{
    if stack.len() > 0 && stack.first().depth == spec_block_depth() {
        lemma_leading_blocks_bounds(stack.drop_first());
    }
}

/// In a well-formed stack, a node is a block exactly when it stands before
/// the `leading_blocks` boundary.
pub proof fn lemma_leading_blocks_at(stack: Seq<NodeV>, i: int)
    requires
        stack_wf(stack),
        0 <= i < stack.len(),
    ensures
        (stack[i].depth == spec_block_depth()) == (i < leading_blocks(stack)),
    decreases stack.len(),
{
    lemma_leading_blocks_bounds(stack);
    if stack.first().depth != spec_block_depth() {
        if i > 0 {
            assert(stack[0].depth == spec_block_depth() || stack[0].depth > stack[i].depth);
        }
    } else {
        let rest = stack.drop_first();
        assert forall|x: int, y: int| 0 <= x < y < rest.len() implies ((#[trigger] rest[x].depth)
            == spec_block_depth() || rest[x].depth > (#[trigger] rest[y].depth)) by {
            assert(rest[x] == stack[x + 1]);
            assert(rest[y] == stack[y + 1]);
        }
        assert forall|x: int| 0 <= x < rest.len() implies (#[trigger] rest[x].depth)
            <= spec_block_depth() by {
            assert(rest[x] == stack[x + 1]);
        }
        if i > 0 {
            lemma_leading_blocks_at(rest, i - 1);
            assert(rest[i - 1] == stack[i]);
        }
    }
}

/// Counting block nodes when exactly the first `b` are blocks.
pub proof fn lemma_count_blocks_by_prefix(stack: Seq<NodeV>, b: int)
    requires
        0 <= b <= stack.len(),
        forall|i: int| 0 <= i < stack.len() ==> ((#[trigger] stack[i].depth)
            == spec_block_depth()) == (i < b),
    ensures
        count_blocks(stack) == b,
    decreases stack.len(),
{
    if stack.len() > 0 {
        if b == stack.len() {
            lemma_count_blocks_by_prefix(stack.drop_last(), b - 1);
        } else {
            lemma_count_blocks_by_prefix(stack.drop_last(), b);
        }
    }
}

/// The left-subtree size of the reference tree over `count >= 2` units: the
/// largest power of two strictly below `count`, so that the left subtree is
/// as large as possible while leaving at least one unit for the right.
pub open spec fn left_count(count: nat) -> nat
    decreases count,
{
    if count <= 2 {
        1
    } else {
        2 * left_count(((count + 1) / 2) as nat)
    }
}

/// `left_count` picks the power of two `p` with `p < count <= 2 * p`.
pub proof fn lemma_left_count_range(count: nat, k: nat)
    requires
        pow2(k) < count <= pow2(k + 1),
    ensures
        left_count(count) == pow2(k),
    decreases count,
{
    if count <= 2 {
        assert(pow2(0) == 1 && pow2(1) == 2);
        if k > 0 {
            lemma_pow2_monotonic(1, k);
        }
    } else {
        let m = ((count + 1) / 2) as nat;
        assert(k >= 1) by {
            if k == 0 {
                assert(pow2(1) == 2);
            }
        }
        assert(pow2(k) == 2 * pow2((k - 1) as nat));
        assert(pow2(k + 1) == 2 * pow2(k));
        assert(pow2((k - 1) as nat) < m <= pow2(k));
        lemma_left_count_range(m, (k - 1) as nat);
    }
}

/// The reference tree digest over `count` consecutive units starting at
/// unit `start`: a single unit is its leaf digest; more units split into
/// the largest power-of-two left subtree and the rest, combined with the
/// root flag only at the overall root.
pub open spec fn subtree_cv(s: Seq<u8>, start: nat, count: nat, is_root: bool) -> Seq<u8>
    decreases count,
{
    if count <= 1 {
        chunk_cv(start, unit_bytes(s, start), is_root)
    } else {
        let lp = left_count(count);
        if 0 < lp && lp < count {
            parent_cv_spec(
                subtree_cv(s, start, lp, false),
                subtree_cv(s, start + lp, (count - lp) as nat, false),
                is_root,
            )
        } else {
            subtree_cv(s, start, 1, is_root)
        }
    }
}

/// The reference whole-stream digest: the empty stream hashes to the
/// designated empty-input digest; otherwise the tree over all units, with
/// the root flag at the top.
pub open spec fn ref_root(s: Seq<u8>) -> Seq<u8> {
    if s.len() == 0 {
        chunk_cv(0, Seq::empty(), true)
    } else {
        subtree_cv(s, 0, num_units(s.len()), true)
    }
}

/// Combining a full power-of-two subtree with its right neighbour of at
/// most the same size is exactly the reference split one level up.
pub proof fn lemma_subtree_compose(s: Seq<u8>, start: nat, d: nat, t: nat, flag: bool)
    requires
        1 <= t <= pow2(d),
    ensures
        subtree_cv(s, start, pow2(d) + t, flag) == parent_cv_spec(
            subtree_cv(s, start, pow2(d), false),
            subtree_cv(s, start + pow2(d), t, false),
            flag,
        ),
{
    let c = pow2(d) + t;
    lemma_pow2_monotonic(0, d);
    assert(pow2(d + 1) == 2 * pow2(d));
    lemma_left_count_range(c, d);
}

/// What each node of a reachable stack is: the reference digest of the
/// units it covers — node `i` covers `2^depth` units starting right after
/// the units of the nodes left of it, with no root flag.
pub open spec fn stack_meaning(s: Seq<u8>, stack: Seq<NodeV>) -> bool {
    forall|i: int|
        0 <= i < stack.len() ==> (#[trigger] stack[i]).cv == subtree_cv(
            s,
            units_sum(stack.take(i)),
            pow2(stack[i].depth),
            false,
        )
}

/// Dropping the top of a stack keeps the meaning of the rest.
pub proof fn lemma_meaning_drop_last(s: Seq<u8>, stack: Seq<NodeV>)
    requires
        stack.len() > 0,
        stack_meaning(s, stack),
    ensures
        stack_meaning(s, stack.drop_last()),
{
    let rest = stack.drop_last();
    assert forall|i: int| 0 <= i < rest.len() implies (#[trigger] rest[i]).cv == subtree_cv(
        s,
        units_sum(rest.take(i)),
        pow2(rest[i].depth),
        false,
    ) by {
        assert(rest[i] == stack[i]);
        assert(rest.take(i) =~= stack.take(i));
    }
}

/// A merge step keeps the stack's meaning: each combine joins two adjacent
/// equal-size reference subtrees into the reference subtree one level up.
/// If the merge folds everything into a single node, that node is the
/// reference digest of all units seen, root-flagged exactly when this was
/// the final push.
#[verifier::rlimit(100)]
pub proof fn lemma_merge_step_meaning(
    s: Seq<u8>,
    stack: Seq<NodeV>,
    depth: nat,
    fin: bool,
    rflag: bool,
)
    requires
        stack_wf(stack),
        stack_meaning(s, stack),
        depth < spec_block_depth(),
        stack.len() > 0 && stack.last().depth != spec_block_depth() ==> stack.last().depth
            >= depth,
        rflag ==> fin && stack.len() == 0,
    ensures
        ({
            let running = subtree_cv(s, units_sum(stack), pow2(depth), rflag);
            let r = merge_step(stack, running, depth, fin);
            &&& (r.len() >= 2 ==> stack_meaning(s, r))
            &&& (r.len() == 1 ==> r[0].cv == subtree_cv(
                s,
                0,
                units_sum(stack) + pow2(depth),
                rflag || (fin && stack.len() > 0),
            ))
        }),
    decreases stack.len(),
{
    let running = subtree_cv(s, units_sum(stack), pow2(depth), rflag);
    let r = merge_step(stack, running, depth, fin);
    let len = stack.len() as int;
    if stack.len() == 0 || stack.last().depth != depth {
        let node = NodeV { cv: running, depth };
        assert(r == stack.push(node));
        if stack.len() == 0 {
            assert(r[0].cv == running);
        } else {
            assert forall|i: int| 0 <= i < r.len() implies (#[trigger] r[i]).cv == subtree_cv(
                s,
                units_sum(r.take(i)),
                pow2(r[i].depth),
                false,
            ) by {
                if i < len {
                    assert(r[i] == stack[i]);
                    assert(r.take(i) =~= stack.take(i));
                } else {
                    assert(r[i] == node);
                    assert(r.take(i) =~= stack);
                }
            }
        }
    } else {
        let rest = stack.drop_last();
        let flagc = fin && stack.len() == 1;
        let combined = parent_cv_spec(stack.last().cv, running, flagc);
        assert(stack.last() == stack[len - 1]);
        assert(stack.take(len - 1) =~= rest);
        assert(units_sum(stack) == units_sum(rest) + pow2(depth));
        assert(stack.last().cv == subtree_cv(s, units_sum(rest), pow2(depth), false));
        lemma_pow2_monotonic(0, depth);
        lemma_subtree_compose(s, units_sum(rest), depth, pow2(depth), flagc);
        assert(pow2(depth + 1) == pow2(depth) + pow2(depth));
        assert(combined == subtree_cv(s, units_sum(rest), pow2(depth + 1), flagc));
        lemma_meaning_drop_last(s, stack);
        if depth + 1 == spec_block_depth() {
            let node = NodeV { cv: combined, depth: spec_block_depth() };
            assert(r == rest.push(node));
            if stack.len() == 1 {
                assert(r[0].cv == combined);
                assert(units_sum(rest) == 0);
            } else {
                assert forall|i: int| 0 <= i < r.len() implies (#[trigger] r[i]).cv
                    == subtree_cv(s, units_sum(r.take(i)), pow2(r[i].depth), false) by {
                    if i < len - 1 {
                        assert(r[i] == stack[i]);
                        assert(r.take(i) =~= stack.take(i));
                    } else {
                        assert(r[i] == node);
                        assert(r.take(i) =~= rest);
                    }
                }
            }
        } else {
            assert forall|x: int, y: int| 0 <= x < y < rest.len() implies ((
            #[trigger] rest[x].depth) == spec_block_depth() || rest[x].depth
                > (#[trigger] rest[y].depth)) by {
                assert(rest[x] == stack[x]);
                assert(rest[y] == stack[y]);
            }
            assert forall|x: int| 0 <= x < rest.len() implies (#[trigger] rest[x].depth)
                <= spec_block_depth() by {
                assert(rest[x] == stack[x]);
            }
            if rest.len() > 0 && rest.last().depth != spec_block_depth() {
                assert(rest.last() == stack[len - 2]);
                assert(stack[len - 2].depth == spec_block_depth() || stack[len - 2].depth
                    > stack[len - 1].depth);
            }
            assert(flagc ==> fin && rest.len() == 0);
            lemma_merge_step_meaning(s, rest, depth + 1, fin, flagc);
            assert(r == merge_step(rest, combined, depth + 1, fin));
            assert(units_sum(rest) + pow2(depth + 1) == units_sum(stack) + pow2(depth));
            if r.len() == 1 {
                assert(r[0].cv == subtree_cv(
                    s,
                    0,
                    units_sum(stack) + pow2(depth),
                    flagc || (fin && rest.len() > 0),
                ));
                assert((flagc || (fin && rest.len() > 0)) == (rflag || (fin && stack.len()
                    > 0)));
            }
        }
    }
}

/// Every mid-stream stack means what it should: node by node, the
/// reference digest of the units it covers.
pub proof fn lemma_stream_stack_meaning(s: Seq<u8>, k: nat)
    ensures
        stack_meaning(s, stream_stack(s, k)),
    decreases k,
{
    if k > 0 {
        let i = (k - 1) as nat;
        let mid = stream_stack(s, i);
        let leaf = chunk_cv(i, unit_bytes(s, i), false);
        lemma_stream_stack_meaning(s, i);
        lemma_stream_stack_wf(s, i);
        lemma_stream_stack_units(s, i);
        assert(pow2(0) == 1);
        assert(leaf == subtree_cv(s, units_sum(mid), pow2(0), false));
        lemma_merge_step_meaning(s, mid, 0, false, false);
        let r = stream_stack(s, k);
        assert(r == merge_step(mid, leaf, 0, false));
        lemma_merge_step_len(mid, leaf, 0, false);
        if r.len() == 1 {
            lemma_merge_step_units(mid, leaf, 0, false);
            assert(r =~= seq![r[0]]);
            lemma_units_sum_single(r[0]);
            assert(pow2(r[0].depth) == k);
            assert forall|j: int| 0 <= j < r.len() implies (#[trigger] r[j]).cv == subtree_cv(
                s,
                units_sum(r.take(j)),
                pow2(r[j].depth),
                false,
            ) by {
                assert(r.take(0) =~= Seq::<NodeV>::empty());
            }
        }
    }
}

/// The downward fold at the end of the stream means the reference digest of
/// all units the folded nodes cover, root-flagged exactly when the fold
/// reaches the bottom of a multi-node stack.
pub proof fn lemma_collapse_hash_meaning(s: Seq<u8>, stack: Seq<NodeV>, k: int)
    requires
        stack_wf(stack),
        stack_meaning(s, stack),
        0 <= k < stack.len(),
        forall|j: int| k <= j < stack.len() ==> (#[trigger] stack[j].depth) < spec_block_depth(),
    ensures
        collapse_hash(stack, k) == subtree_cv(
            s,
            units_sum(stack.take(k)),
            units_sum(stack.skip(k)),
            k == 0 && stack.len() > 1,
        ),
    decreases stack.len() - k,
{
    let ln = stack.len() as int;
    if k == ln - 1 {
        assert(stack.skip(k) =~= seq![stack[k]]);
        lemma_units_sum_single(stack[k]);
    } else {
        lemma_collapse_hash_meaning(s, stack, k + 1);
        let d = stack[k].depth;
        assert(d >= 1) by {
            assert(stack[k].depth == spec_block_depth() || stack[k].depth > stack[k + 1].depth);
        }
        let suf1 = stack.skip(k + 1);
        assert forall|i: int| 0 <= i < suf1.len() implies (#[trigger] suf1[i].depth) <= (d
            - 1) as nat by {
            assert(suf1[i] == stack[k + 1 + i]);
            assert(stack[k].depth == spec_block_depth() || stack[k].depth > stack[k + 1
                + i].depth);
        }
        assert forall|i: int, j: int| 0 <= i < j < suf1.len() implies (#[trigger] suf1[i].depth)
            > (#[trigger] suf1[j].depth) by {
            assert(suf1[i] == stack[k + 1 + i]);
            assert(suf1[j] == stack[k + 1 + j]);
            assert(stack[k + 1 + i].depth == spec_block_depth() || stack[k + 1 + i].depth
                > stack[k + 1 + j].depth);
        }
        lemma_units_sum_decreasing(suf1, (d - 1) as nat);
        assert(pow2(((d - 1) as nat) + 1) == pow2(d));
        let t1 = units_sum(suf1);
        assert(t1 >= 1) by {
            if t1 == 0 {
                lemma_units_sum_zero(suf1);
            }
        }
        assert(stack.take(k + 1).drop_last() =~= stack.take(k));
        assert(stack.take(k + 1).last() == stack[k]);
        assert(units_sum(stack.take(k + 1)) == units_sum(stack.take(k)) + pow2(d));
        assert(stack.skip(k).take(1) =~= seq![stack[k]]);
        assert(stack.skip(k).skip(1) =~= suf1);
        lemma_units_sum_split(stack.skip(k), 1);
        lemma_units_sum_single(stack[k]);
        assert(units_sum(stack.skip(k)) == pow2(d) + t1);
        lemma_subtree_compose(s, units_sum(stack.take(k)), d, t1, k == 0);
    }
}

/// The pairing fold equals the reference split: over a list of adjacent
/// reference subtrees of one uniform power-of-two size — except a final
/// subtree of at most that size — pairing left to right, carrying an odd
/// trailing entry, and root-flagging only the last combine reproduces the
/// reference digest of the whole range.
pub proof fn lemma_fold_uniform(s: Seq<u8>, st: nat, l: Seq<Seq<u8>>, p: nat, t: nat)
    requires
        l.len() >= 2,
        1 <= t <= pow2(p),
        forall|j: int|
            0 <= j < l.len() - 1 ==> #[trigger] l[j] == subtree_cv(
                s,
                (st + j * pow2(p)) as nat,
                pow2(p),
                false,
            ),
        l[l.len() - 1] == subtree_cv(s, (st + (l.len() - 1) * pow2(p)) as nat, t, false),
    ensures
        root_of_list(l) == subtree_cv(s, st, ((l.len() - 1) * pow2(p) + t) as nat, true),
    decreases l.len(),
{
    lemma_pow2_monotonic(0, p);
    let ln = l.len() as int;
    let pw = pow2(p) as int;
    if l.len() == 2 {
        assert(root_of_list(l) == parent_cv_spec(l[0], l[1], true));
        assert(l[0] == subtree_cv(s, st, pow2(p), false));
        assert(1 * pw == pw);
        assert(l[1] == subtree_cv(s, (st + pw) as nat, t, false));
        lemma_subtree_compose(s, st, p, t, true);
        assert(((l.len() - 1) * pow2(p) + t) as nat == pow2(p) + t);
    } else {
        let l2 = pair_up(l);
        let ln2 = l2.len() as int;
        assert(ln2 == (ln + 1) / 2);
        assert(pow2(p + 1) == 2 * pow2(p));
        let t2: nat = if ln % 2 == 1 {
            t
        } else {
            (pow2(p) + t) as nat
        };
        assert forall|j: int| 0 <= j < ln2 - 1 implies #[trigger] l2[j] == subtree_cv(
            s,
            (st + j * pow2(p + 1)) as nat,
            pow2(p + 1),
            false,
        ) by {
            assert(2 * j + 1 < ln - 1);
            assert(l2[j] == parent_cv_spec(l[2 * j], l[2 * j + 1], false));
            assert(l[2 * j] == subtree_cv(s, (st + (2 * j) * pw) as nat, pow2(p), false));
            assert(l[2 * j + 1] == subtree_cv(s, (st + (2 * j + 1) * pw) as nat, pow2(p), false));
            assert((2 * j + 1) * pw == (2 * j) * pw + pw) by (nonlinear_arith);
            lemma_subtree_compose(s, (st + (2 * j) * pw) as nat, p, pow2(p), false);
            assert((2 * j) * pw == j * (2 * pw)) by (nonlinear_arith);
        }
        if ln % 2 == 1 {
            assert(2 * (ln2 - 1) == ln - 1);
            assert(l2[ln2 - 1] == l[ln - 1]);
            assert((ln - 1) * pw == (ln2 - 1) * (2 * pw)) by (nonlinear_arith)
                requires
                    ln - 1 == 2 * (ln2 - 1),
            ;
            lemma_pow2_monotonic(p, p + 1);
        } else {
            assert(2 * (ln2 - 1) + 1 == ln - 1);
            assert(l2[ln2 - 1] == parent_cv_spec(l[ln - 2], l[ln - 1], false));
            assert(l[ln - 2] == subtree_cv(s, (st + (ln - 2) * pw) as nat, pow2(p), false));
            assert((ln - 1) * pw == (ln - 2) * pw + pw) by (nonlinear_arith);
            lemma_subtree_compose(s, (st + (ln - 2) * pw) as nat, p, t, false);
            assert((ln - 2) * pw == (ln2 - 1) * (2 * pw)) by (nonlinear_arith)
                requires
                    ln - 2 == 2 * (ln2 - 1),
            ;
        }
        assert((ln2 - 1) * (2 * pw) + t2 == (ln - 1) * pw + t) by (nonlinear_arith)
            requires
                (ln % 2 == 1 ==> ln - 1 == 2 * (ln2 - 1) && t2 == t),
                (ln % 2 == 0 ==> ln - 2 == 2 * (ln2 - 1) && t2 == pw + t),
        ;
        lemma_fold_uniform(s, st, l2, p + 1, t2);
        assert(root_of_list(l) == root_of_list(l2));
        assert((ln2 - 1) * (pow2(p + 1) as int) == (ln2 - 1) * (2 * pw)) by (nonlinear_arith)
            requires
                pow2(p + 1) == 2 * pw,
        ;
        assert(((ln2 - 1) * pow2(p + 1) + t2) as nat == ((ln - 1) * pow2(p) + t) as nat);
    }
}

/// How many combines of a merge step carry the root flag, following
/// `merge_step` combine for combine: a combine is flagged exactly when this
/// is the final push and the pop empties the stack.
pub open spec fn merge_root_ops(stack: Seq<NodeV>, depth: nat, fin: bool) -> nat
    decreases stack.len(),
{
    if stack.len() == 0 || stack.last().depth != depth {
        0
    } else {
        let c: nat = if fin && stack.len() == 1 {
            1
        } else {
            0
        };
        if depth + 1 == spec_block_depth() {
            c
        } else {
            c + merge_root_ops(stack.drop_last(), depth + 1, fin)
        }
    }
}

/// How many combines of the downward fold carry the root flag, following
/// `collapse_hash` combine for combine: only the combine at the bottom of
/// the stack is flagged.
pub open spec fn collapse_hash_root_ops(stack: Seq<NodeV>, k: int) -> nat
    decreases stack.len() - k,
{
    if k >= stack.len() - 1 {
        0
    } else {
        (if k == 0 {
            1nat
        } else {
            0nat
        }) + collapse_hash_root_ops(stack, k + 1)
    }
}

/// How many combines of the finalize-time collapse carry the root flag.
pub open spec fn collapse_root_ops(stack: Seq<NodeV>) -> nat {
    let b = leading_blocks(stack) as int;
    if stack.len() == 0 || b == stack.len() {
        0
    } else {
        collapse_hash_root_ops(stack, b)
    }
}

/// How many operations of the root reduction carry the root flag, following
/// `root_of_list` case for case: the empty-input digest is one root-flagged
/// leaf operation, a single node is returned without any operation, and the
/// pairing rounds flag nothing until the final two-node combine.
pub open spec fn fold_root_ops(l: Seq<Seq<u8>>) -> nat
    decreases l.len(),
{
    if l.len() == 0 {
        1
    } else if l.len() == 1 {
        0
    } else if l.len() == 2 {
        1
    } else {
        fold_root_ops(pair_up(l))
    }
}

/// How many operations of a whole run carry the root flag: the final leaf
/// digest (flagged only when it is the first node ever), the final merge,
/// the collapse, and the root reduction of the finalized list.
pub open spec fn total_root_ops(s: Seq<u8>) -> nat {
    if s.len() == 0 {
        fold_root_ops(digests_of(final_list(s)))
    } else {
        let m = (num_units(s.len()) - 1) as nat;
        let mid = stream_stack(s, m);
        let leaf = chunk_cv(m, unit_bytes(s, m), mid.len() == 0);
        let leaf_ops: nat = if mid.len() == 0 {
            1
        } else {
            0
        };
        leaf_ops + merge_root_ops(mid, 0, true) + collapse_root_ops(merge_step(mid, leaf, 0, true))
            + fold_root_ops(digests_of(final_list(s)))
    }
}

/// A merge flags exactly one combine when it is final and folds a nonempty
/// stack into a single node, and none otherwise.
pub proof fn lemma_merge_root_ops(stack: Seq<NodeV>, running: Seq<u8>, depth: nat, fin: bool)
    ensures
        merge_root_ops(stack, depth, fin) == if fin && stack.len() > 0 && merge_step(
            stack,
            running,
            depth,
            fin,
        ).len() == 1 {
            1nat
        } else {
            0nat
        },
    decreases stack.len(),
{
    if stack.len() == 0 || stack.last().depth != depth {
        assert(merge_step(stack, running, depth, fin).len() == stack.len() + 1);
    } else {
        let combined = parent_cv_spec(stack.last().cv, running, fin && stack.len() == 1);
        if depth + 1 != spec_block_depth() {
            lemma_merge_root_ops(stack.drop_last(), combined, depth + 1, fin);
            lemma_merge_step_len(stack.drop_last(), combined, depth + 1, fin);
        }
    }
}

/// The downward fold flags nothing when it starts above the bottom.
pub proof fn lemma_collapse_hash_root_ops(stack: Seq<NodeV>, k: int)
    requires
        k >= 1,
    ensures
        collapse_hash_root_ops(stack, k) == 0,
    decreases stack.len() - k,
{
    if k < stack.len() - 1 {
        lemma_collapse_hash_root_ops(stack, k + 1);
    }
}

/// The root reduction of two or more nodes flags exactly one combine.
pub proof fn lemma_fold_root_ops(l: Seq<Seq<u8>>)
    requires
        l.len() >= 2,
    ensures
        fold_root_ops(l) == 1,
    decreases l.len(),
{
    if l.len() >= 3 {
        lemma_fold_root_ops(pair_up(l));
    }
}

/// A completed unit's bytes do not change when the stream is extended.
pub proof fn lemma_unit_bytes_stable(s1: Seq<u8>, s2: Seq<u8>, i: nat)
    requires
        s1.len() <= s2.len(),
        s2.subrange(0, s1.len() as int) == s1,
        (i + 1) * spec_unit_len() <= s1.len(),
    ensures
        unit_bytes(s2, i) == unit_bytes(s1, i),
{
    assert(unit_bytes(s2, i) =~= unit_bytes(s1, i)) by {
        assert forall|j: int| 0 <= j < s1.len() implies s2[j] == s1[j] by {
            assert(s1[j] == s2.subrange(0, s1.len() as int)[j]);
        }
    }
}

/// The stack over the first `k` units does not change when the stream is
/// extended past them.
pub proof fn lemma_stream_stack_stable(s1: Seq<u8>, s2: Seq<u8>, k: nat)
    requires
        s1.len() <= s2.len(),
        s2.subrange(0, s1.len() as int) == s1,
        k * spec_unit_len() <= s1.len(),
    ensures
        stream_stack(s2, k) == stream_stack(s1, k),
    decreases k,
{
    if k > 0 {
        let i = (k - 1) as nat;
        assert(i * spec_unit_len() <= k * spec_unit_len());
        lemma_stream_stack_stable(s1, s2, i);
        lemma_unit_bytes_stable(s1, s2, i);
    }
}

} // verus!
