//! Laws that relate the builder's operations to each other.

use vstd::prelude::*;
use crate::hashes::{chunk_cv, chunk_data, chunk_index, Digest};
use crate::merkle::{stack_view, Merkle};
use crate::model::{
    collapse, collapse_hash, count_blocks, digests_of, final_list, leading_blocks,
    lemma_count_blocks_by_prefix, lemma_count_blocks_leading, lemma_leading_blocks_at,
    lemma_leading_blocks_bounds, lemma_merge_step_len, lemma_merge_step_units,
    lemma_merge_step_wf, lemma_stream_stack_units, lemma_stream_stack_wf, lemma_units_sum_blocks,
    lemma_units_sum_decreasing, lemma_units_sum_split, lemma_units_sum_zero, merge_step,
    num_units, pow2, root_of_list, spec_block_bytes, spec_block_depth, spec_unit_len,
    stream_stack, units_sum, NodeV, lemma_merge_step_meaning, lemma_pow2_monotonic,
    lemma_stream_stack_meaning, lemma_collapse_hash_meaning, lemma_fold_uniform,
    ref_root, stack_meaning, stack_wf, subtree_cv, collapse_hash_root_ops, collapse_root_ops,
    fold_root_ops, lemma_collapse_hash_root_ops, lemma_fold_root_ops, lemma_merge_root_ops,
    merge_root_ops, total_root_ops,
};
use vstd::arithmetic::div_mod::{lemma_fundamental_div_mod, lemma_fundamental_div_mod_converse};

verus! {

/// Write-chunking invariance: two finalized builders that consumed the same
/// bytes — however those bytes were sliced across write calls — hold
/// identical block lists, and therefore identical root digests.
pub proof fn lemma_write_chunking_invariance(a: Merkle, b: Merkle)
    requires
        a.wf(),
        b.wf(),
        a.finalized,
        b.finalized,
        a.bytes@ == b.bytes@,
    ensures
        stack_view(a.li@) == stack_view(b.li@),
        root_of_list(digests_of(stack_view(a.li@))) == root_of_list(
            digests_of(stack_view(b.li@)),
        ),
{
}

/// Write-chunking invariance mid-stream: two builders that consumed the
/// same bytes — whether in one write or byte by byte — stand in the same
/// state: the same stack, the same unit and byte counters, and an
/// accumulator with the same index holding the same bytes. Identical
/// states then evolve identically under every further write and finalize.
pub proof fn lemma_mid_stream_invariance(a: Merkle, b: Merkle)
    requires
        a.wf(),
        b.wf(),
        !a.finalized,
        !b.finalized,
        a.bytes@ == b.bytes@,
    ensures
        stack_view(a.li@) == stack_view(b.li@),
        a.n == b.n,
        a.pos == b.pos,
        chunk_index(a.state) == chunk_index(b.state),
        chunk_data(a.state) == chunk_data(b.state),
{
    let ln = a.bytes@.len() as int;
    if ln > 0 {
        lemma_fundamental_div_mod_converse(ln - 1, 1024, a.n as int, a.pos - 1);
        lemma_fundamental_div_mod_converse(ln - 1, 1024, b.n as int, b.pos - 1);
    }
}

/// The root digest is idempotent: it is a pure function of the block list,
/// which computing it does not touch, so repeated computations after
/// finalize return bit-identical output.
pub proof fn lemma_root_digest_idempotent(m: Merkle, r1: Digest, r2: Digest)
    requires
        r1@ == root_of_list(digests_of(stack_view(m.li@))),
        r2@ == root_of_list(digests_of(stack_view(m.li@))),
    ensures
        r1@ == r2@,
{
}

/// Block count: a stream of `L` bytes finalizes to exactly `L` divided by
/// the block size in full block nodes, plus one tail node exactly when `L`
/// is not a multiple of the block size — and no nodes at all when `L` is
/// zero. The law holds away from the final-unit carry zone: when `L` falls
/// short of a block boundary by less than one unit, the partial final unit
/// still completes the block's depth structure, so the short block merges
/// to a block node and no tail remains.
pub proof fn lemma_block_count(s: Seq<u8>)
    requires
        (s.len() as int) % (spec_block_bytes() as int) == 0 || (s.len() as int) % (
        spec_block_bytes() as int) + spec_unit_len() <= spec_block_bytes(),
    ensures
        count_blocks(final_list(s)) == (s.len() as int) / (spec_block_bytes() as int),
        final_list(s).len() == (s.len() as int) / (spec_block_bytes() as int) + if (
        s.len() as int) % (spec_block_bytes() as int) == 0 {
            0int
        } else {
            1int
        },
{
    let bd = spec_block_depth();
    let bb = spec_block_bytes() as int;
    assert(pow2(bd) == 1024) by {
        reveal_with_fuel(pow2, 11);
    }
    assert(bb == 1048576);
    if s.len() == 0 {
        assert(count_blocks(final_list(s)) == 0);
        assert(0int / 1048576 == 0);
    } else {
        let ln = s.len() as int;
        let u = num_units(s.len()) as int;
        let m = (u - 1) as nat;
        let mid = stream_stack(s, m);
        let leaf = chunk_cv(m, crate::model::unit_bytes(s, m), mid.len() == 0);
        let merged = merge_step(mid, leaf, 0, true);
        lemma_stream_stack_wf(s, m);
        lemma_merge_step_wf(mid, leaf, 0, true);
        lemma_stream_stack_units(s, m);
        lemma_merge_step_units(mid, leaf, 0, true);
        lemma_merge_step_len(mid, leaf, 0, true);
        assert(units_sum(merged) == u);
        let b = leading_blocks(merged) as int;
        lemma_leading_blocks_bounds(merged);
        lemma_units_sum_split(merged, b);
        let pre = merged.take(b);
        let suf = merged.skip(b);
        assert forall|i: int| 0 <= i < pre.len() implies (#[trigger] pre[i].depth) == bd by {
            assert(pre[i] == merged[i]);
            lemma_leading_blocks_at(merged, i);
        }
        lemma_units_sum_blocks(pre);
        assert(units_sum(pre) == b * 1024);
        assert forall|i: int| 0 <= i < suf.len() implies (#[trigger] suf[i].depth) <= 9 by {
            assert(suf[i] == merged[b + i]);
            lemma_leading_blocks_at(merged, b + i);
        }
        assert forall|i: int, j: int| 0 <= i < j < suf.len() implies (#[trigger] suf[i].depth) > (
        #[trigger] suf[j].depth) by {
            assert(suf[i] == merged[b + i]);
            assert(suf[j] == merged[b + j]);
            lemma_leading_blocks_at(merged, b + i);
        }
        lemma_units_sum_decreasing(suf, 9);
        let su = units_sum(suf) as int;
        assert(0 <= su < 1024);
        assert(u == b * 1024 + su);
        lemma_fundamental_div_mod(ln - 1, 1024);
        let q1 = (ln - 1) / 1024;
        let b1 = (ln - 1) % 1024;
        assert(u == q1 + 1);
        assert(ln == q1 * 1024 + b1 + 1);
        let fl = final_list(s);
        assert(fl == collapse(merged));
        let tail_count: int;
        if b == merged.len() {
            assert(fl == merged);
            lemma_count_blocks_leading(merged);
            assert(count_blocks(fl) == b);
            assert(suf.len() == 0);
            assert(su == 0);
            tail_count = 0;
            assert(fl.len() == b + tail_count);
        } else {
            let tail = NodeV { cv: collapse_hash(merged, b), depth: merged[b].depth };
            assert(fl == pre.push(tail));
            lemma_leading_blocks_at(merged, b);
            assert(tail.depth != bd);
            assert(fl.drop_last() =~= pre);
            assert(fl.last() == tail);
            assert(count_blocks(fl) == count_blocks(pre));
            lemma_count_blocks_by_prefix(pre, b);
            assert(count_blocks(fl) == b);
            if su == 0 {
                lemma_units_sum_zero(suf);
                assert(false);
            }
            tail_count = 1;
            assert(fl.len() == b + tail_count);
        }
        if su == 0 {
            assert(q1 == b * 1024 - 1);
            assert(ln == b * 1048576 - 1024 + b1 + 1) by (nonlinear_arith)
                requires
                    ln == q1 * 1024 + b1 + 1,
                    q1 == b * 1024 - 1,
            ;
            if ln != b * 1048576 {
                let x = b * 1048576 - ln;
                assert(1 <= x <= 1023);
                assert(ln == (b - 1) * 1048576 + (1048576 - x)) by (nonlinear_arith)
                    requires
                        x == b * 1048576 - ln,
                ;
                lemma_fundamental_div_mod_converse(ln, 1048576, b - 1, 1048576 - x);
                assert(ln % 1048576 == 1048576 - x);
                assert(false);
            }
            assert(ln == b * 1048576 + 0);
            lemma_fundamental_div_mod_converse(ln, 1048576, b, 0);
            assert(ln / bb == b);
            assert(ln % bb == 0);
        } else {
            let r2 = (su - 1) * 1024 + b1 + 1;
            assert(ln == b * 1048576 + r2) by (nonlinear_arith)
                requires
                    ln == q1 * 1024 + b1 + 1,
                    q1 == b * 1024 + su - 1,
                    r2 == (su - 1) * 1024 + b1 + 1,
            ;
            assert(1 <= r2 <= 1047552);
            lemma_fundamental_div_mod_converse(ln, 1048576, b, r2);
            assert(ln / bb == b);
            assert(ln % bb == r2);
            assert(ln % bb != 0);
        }
    }
}

/// A leading block node of a meaningful stack is the reference digest of
/// its own block's unit range.
proof fn lemma_block_node_meaning(s: Seq<u8>, merged: Seq<NodeV>, j: int)
    requires
        stack_wf(merged),
        stack_meaning(s, merged),
        0 <= j < merged.len(),
        j < leading_blocks(merged),
    ensures
        merged[j].cv == subtree_cv(
            s,
            (j * pow2(spec_block_depth())) as nat,
            pow2(spec_block_depth()),
            false,
        ),
{
    let bd = spec_block_depth();
    lemma_leading_blocks_bounds(merged);
    lemma_leading_blocks_at(merged, j);
    assert forall|i: int| 0 <= i < merged.take(j).len() implies (
    #[trigger] merged.take(j)[i].depth) == bd by {
        assert(merged.take(j)[i] == merged[i]);
        lemma_leading_blocks_at(merged, i);
    }
    lemma_units_sum_blocks(merged.take(j));
    assert(units_sum(merged.take(j)) == j * pow2(bd));
}

/// The pairing fold of a collapsed stack of two or more nodes is the
/// reference digest of all units the stack covers.
#[verifier::rlimit(100)]
proof fn lemma_final_fold(s: Seq<u8>, merged: Seq<NodeV>, u: nat)
    requires
        stack_wf(merged),
        stack_meaning(s, merged),
        units_sum(merged) == u,
        merged.len() >= 2,
    ensures
        root_of_list(digests_of(collapse(merged))) == subtree_cv(s, 0, u, true),
{
    let bd = spec_block_depth();
    let b = leading_blocks(merged) as int;
    lemma_leading_blocks_bounds(merged);
    lemma_units_sum_split(merged, b);
    let pre = merged.take(b);
    let suf = merged.skip(b);
    assert forall|i: int| 0 <= i < pre.len() implies (#[trigger] pre[i].depth) == bd by {
        assert(pre[i] == merged[i]);
        lemma_leading_blocks_at(merged, i);
    }
    lemma_units_sum_blocks(pre);
    lemma_pow2_monotonic(0, bd);
    if b == merged.len() {
        let fl = collapse(merged);
        assert(fl == merged);
        let l = digests_of(fl);
        assert(l.len() == merged.len());
        assert forall|j: int| 0 <= j < l.len() - 1 implies #[trigger] l[j] == subtree_cv(
            s,
            (0 + j * pow2(bd)) as nat,
            pow2(bd),
            false,
        ) by {
            assert(l[j] == merged[j].cv);
            lemma_block_node_meaning(s, merged, j);
        }
        assert(l[l.len() - 1] == subtree_cv(
            s,
            (0 + (l.len() - 1) * pow2(bd)) as nat,
            pow2(bd),
            false,
        )) by {
            assert(l[l.len() - 1] == merged[merged.len() - 1].cv);
            lemma_block_node_meaning(s, merged, merged.len() - 1);
        }
        lemma_fold_uniform(s, 0, l, bd, pow2(bd));
        assert(((l.len() - 1) * pow2(bd) + pow2(bd)) as nat == u) by {
            assert(pre =~= merged);
            assert(suf =~= Seq::<NodeV>::empty());
            assert(units_sum(pre) == pre.len() * pow2(bd));
            assert((l.len() - 1) * pow2(bd) + pow2(bd) == l.len() * pow2(bd))
                by (nonlinear_arith);
        }
    } else {
        assert forall|j: int| b <= j < merged.len() implies (#[trigger] merged[j].depth) < bd by {
            lemma_leading_blocks_at(merged, j);
        }
        lemma_collapse_hash_meaning(s, merged, b);
        let tail = NodeV { cv: collapse_hash(merged, b), depth: merged[b].depth };
        let fl = collapse(merged);
        assert(fl == pre.push(tail));
        let su = units_sum(suf);
        assert(su >= 1) by {
            if su == 0 {
                lemma_units_sum_zero(suf);
            }
        }
        if b == 0 {
            assert(tail.cv == subtree_cv(s, 0, u, true)) by {
                assert(merged.take(0) =~= Seq::<NodeV>::empty());
                assert(merged.skip(0) =~= merged);
            }
            assert(fl.len() == 1);
            assert(digests_of(fl)[0] == tail.cv);
        } else {
            assert forall|i: int, j: int| 0 <= i < j < suf.len() implies (
            #[trigger] suf[i].depth) > (#[trigger] suf[j].depth) by {
                assert(suf[i] == merged[b + i]);
                assert(suf[j] == merged[b + j]);
                lemma_leading_blocks_at(merged, b + i);
            }
            assert forall|i: int| 0 <= i < suf.len() implies (#[trigger] suf[i].depth) <= (bd
                - 1) as nat by {
                assert(suf[i] == merged[b + i]);
                lemma_leading_blocks_at(merged, b + i);
            }
            lemma_units_sum_decreasing(suf, (bd - 1) as nat);
            assert(pow2(((bd - 1) as nat) + 1) == pow2(bd));
            let l = digests_of(fl);
            assert(l.len() == b + 1);
            assert forall|j: int| 0 <= j < l.len() - 1 implies #[trigger] l[j] == subtree_cv(
                s,
                (0 + j * pow2(bd)) as nat,
                pow2(bd),
                false,
            ) by {
                assert(l[j] == fl[j].cv);
                assert(fl[j] == pre[j]);
                assert(pre[j] == merged[j]);
                lemma_block_node_meaning(s, merged, j);
            }
            assert(l[l.len() - 1] == subtree_cv(s, (0 + b * pow2(bd)) as nat, su, false)) by {
                assert(l[l.len() - 1] == tail.cv);
                assert(units_sum(pre) == pre.len() * pow2(bd));
            }
            lemma_fold_uniform(s, 0, l, bd, su);
            assert(((l.len() - 1) * pow2(bd) + su) as nat == u) by {
                assert(units_sum(pre) == pre.len() * pow2(bd));
            }
        }
    }
}

/// Exactly one operation across a full run carries the root flag, whatever
/// the input length: the flag sits either on the final leaf digest (empty
/// or single-node streams), on the one merge combine that folds the whole
/// stack, on the one collapse combine that reaches the bottom, or on the
/// final combine of the root reduction — never on more than one of them.
pub proof fn lemma_one_root_operation(s: Seq<u8>)
    ensures
        total_root_ops(s) == 1,
{
    if s.len() == 0 {
        assert(digests_of(final_list(s)) =~= Seq::<Seq<u8>>::empty());
    } else {
        let u = num_units(s.len());
        let m = (u - 1) as nat;
        let mid = stream_stack(s, m);
        let leaf = chunk_cv(m, crate::model::unit_bytes(s, m), mid.len() == 0);
        let merged = merge_step(mid, leaf, 0, true);
        let fl = final_list(s);
        assert(fl == collapse(merged));
        lemma_merge_step_len(mid, leaf, 0, true);
        lemma_merge_root_ops(mid, leaf, 0, true);
        lemma_stream_stack_wf(s, m);
        lemma_merge_step_wf(mid, leaf, 0, true);
        let b = leading_blocks(merged) as int;
        lemma_leading_blocks_bounds(merged);
        assert(digests_of(fl).len() == fl.len());
        if merged.len() == 1 {
            assert(merge_root_ops(mid, 0, true) == if mid.len() > 0 {
                1nat
            } else {
                0nat
            });
            assert(collapse_root_ops(merged) == 0) by {
                if b != 1 {
                    assert(collapse_hash_root_ops(merged, 0) == 0);
                }
            }
            assert(fl.len() == 1);
            assert(fold_root_ops(digests_of(fl)) == 0);
        } else {
            assert(merge_root_ops(mid, 0, true) == 0);
            assert(mid.len() > 0);
            if b == merged.len() {
                assert(collapse_root_ops(merged) == 0);
                assert(fl == merged);
                lemma_fold_root_ops(digests_of(fl));
            } else if b == 0 {
                assert(collapse_root_ops(merged) == collapse_hash_root_ops(merged, 0));
                assert(collapse_hash_root_ops(merged, 0) == 1 + collapse_hash_root_ops(
                    merged,
                    1,
                ));
                lemma_collapse_hash_root_ops(merged, 1);
                assert(fl.len() == 1);
                assert(fold_root_ops(digests_of(fl)) == 0);
            } else {
                assert(collapse_root_ops(merged) == collapse_hash_root_ops(merged, b));
                lemma_collapse_hash_root_ops(merged, b);
                assert(fl.len() == b + 1);
                lemma_fold_root_ops(digests_of(fl));
            }
        }
    }
}

/// The central law: for every byte stream, the root reduction of the
/// finalized block list is bit-identical to the reference whole-buffer tree
/// digest of the same bytes — the builder's streaming merge, finalize-time
/// collapse and pairing fold together reproduce the reference tree's
/// left-largest power-of-two split for every unit count.
pub proof fn lemma_root_matches_reference(s: Seq<u8>)
    ensures
        root_of_list(digests_of(final_list(s))) == ref_root(s),
{
    if s.len() == 0 {
        assert(digests_of(final_list(s)) =~= Seq::<Seq<u8>>::empty());
    } else {
        let u = num_units(s.len());
        let m = (u - 1) as nat;
        let mid = stream_stack(s, m);
        let leaf = chunk_cv(m, crate::model::unit_bytes(s, m), mid.len() == 0);
        let merged = merge_step(mid, leaf, 0, true);
        lemma_stream_stack_wf(s, m);
        lemma_stream_stack_meaning(s, m);
        lemma_stream_stack_units(s, m);
        lemma_merge_step_len(mid, leaf, 0, true);
        lemma_merge_step_units(mid, leaf, 0, true);
        lemma_merge_step_wf(mid, leaf, 0, true);
        assert(pow2(0) == 1);
        assert(units_sum(merged) == u);
        let rflag = mid.len() == 0;
        if rflag {
            lemma_units_sum_zero(mid);
        }
        assert(leaf == subtree_cv(s, units_sum(mid), pow2(0), rflag));
        lemma_merge_step_meaning(s, mid, 0, true, rflag);
        let fl = final_list(s);
        assert(fl == collapse(merged));
        if merged.len() == 1 {
            assert(merged[0].cv == subtree_cv(s, 0, u, true));
            assert(collapse_hash(merged, 0) == merged[0].cv);
            let b0 = leading_blocks(merged);
            lemma_leading_blocks_bounds(merged);
            if b0 == 0 {
                let node = NodeV { cv: collapse_hash(merged, 0), depth: merged[0].depth };
                assert(fl == merged.take(0).push(node));
                assert(node =~= merged[0]);
                assert(fl =~= merged);
            } else {
                assert(fl == merged);
            }
            assert(digests_of(fl).len() == 1);
            assert(digests_of(fl)[0] == merged[0].cv);
        } else {
            assert(stack_meaning(s, merged));
            lemma_final_fold(s, merged, u);
        }
    }
}

} // verus!
