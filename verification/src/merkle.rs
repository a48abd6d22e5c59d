//! The streaming builder: a bounded-depth merge stack driven by byte writes.

use vstd::prelude::*;
use crate::hashes::{
    chunk_cv, chunk_data, chunk_index, chunk_state_finalize, chunk_state_new, chunk_state_update,
    Digest,
};
use crate::model::{
    collapse, lemma_leading_blocks_index, lemma_merge_step_len, lemma_merge_step_wf,
    lemma_stream_stack_wf, lemma_stream_stack_units, leading_blocks, num_units, stack_wf,
    collapse_hash,
    lemma_stream_stack_stable,
    digests_of, final_list, merge_step, pair_up, root_of_list, spec_block_depth, spec_unit_len,
    ref_root, stream_stack, unit_bytes, NodeV,
};

verus! {

/// Unit size in bytes: one leaf of the tree covers this many bytes.
pub const CHUNK_LEN: usize = 1024;

/// Depth cap: a block is a node of this depth, covering `2^BLOCK_CHUNK`
/// units (1 MiB of input).
pub const BLOCK_CHUNK: u8 = 10;

/// A stack node: a subtree digest and the merge depth it was produced at.
#[derive(Clone, Copy, Debug)]
pub struct HashDepth {
    pub hash: Digest,
    pub depth: u8,
}

impl View for HashDepth {
    type V = NodeV;

    open spec fn view(&self) -> NodeV {
        NodeV { cv: self.hash@, depth: self.depth as nat }
    }
}

/// The model of a node stack.
pub open spec fn stack_view(li: Seq<HashDepth>) -> Seq<NodeV> {
    li.map_values(|hd: HashDepth| hd@)
}

/// The digests of a sequence of hash values, in order.
pub open spec fn digest_views(s: Seq<Digest>) -> Seq<Seq<u8>> {
    s.map_values(|d: Digest| d@)
}

/// Misuse of the builder's lifecycle: writing after finalize, or finalizing
/// twice.
#[derive(Clone, Copy, Debug, PartialEq, Eq, Structural)]
pub enum MerkleError {
    InvalidState,
}

/// The streaming tree-hash builder.
pub struct Merkle {
    /// The node stack; after finalize, the block list.
    pub li: Vec<HashDepth>,
    /// Bytes buffered in the current unit, `0 <= pos <= CHUNK_LEN`.
    pub pos: usize,
    /// Count of fully completed units pushed so far.
    pub n: u64,
    /// Accumulator for the current unit.
    pub state: blake3::guts::ChunkState,
    /// Whether finalize has run.
    pub finalized: bool,
    /// All bytes consumed so far (ghost).
    pub bytes: Ghost<Seq<u8>>,
}

impl Merkle {
    /// Mid-stream well-formedness: the accumulator holds exactly the bytes
    /// past the last unit boundary, the counters account for every byte
    /// consumed, and the stack is the merge of all completed units. The
    /// buffer is empty only when nothing was ever written: a write that ends
    /// exactly on a unit boundary leaves the full unit buffered, so that the
    /// root flag can be applied at the true end of the stream.
    pub open spec fn core_wf(self) -> bool {
        &&& !self.finalized
        &&& chunk_index(self.state) == self.n as nat
        &&& chunk_data(self.state) == self.bytes@.skip(self.n as int * spec_unit_len() as int)
        &&& self.pos == chunk_data(self.state).len()
        &&& self.pos <= CHUNK_LEN
        &&& self.bytes@.len() == self.n as int * spec_unit_len() as int + self.pos
        &&& stack_view(self.li@) == stream_stack(self.bytes@, self.n as nat)
    }

    pub open spec fn mid_wf(self) -> bool {
        &&& self.core_wf()
        &&& (self.pos == 0 ==> self.bytes@.len() == 0)
    }

    /// Post-finalize well-formedness: the stack is the finalized block list
    /// of the whole byte stream.
    pub open spec fn done_wf(self) -> bool {
        &&& self.finalized
        &&& stack_view(self.li@) == final_list(self.bytes@)
    }

    /// The builder is always in exactly one of the two lifecycle states.
    pub open spec fn wf(self) -> bool {
        if self.finalized {
            self.done_wf()
        } else {
            self.mid_wf()
        }
    }

    /// A fresh builder: empty stack, empty accumulator for unit 0.
    pub fn new() -> (m: Merkle)
        ensures
            m.wf(),
            !m.finalized,
            m.bytes@ == Seq::<u8>::empty(),
            m.li@.len() == 0,
    {
        let m = Merkle {
            li: Vec::new(),
            pos: 0,
            n: 0,
            state: chunk_state_new(0),
            finalized: false,
            bytes: Ghost(Seq::empty()),
        };
        proof {
            assert(m.bytes@.skip(0) =~= Seq::<u8>::empty());
            assert(stack_view(m.li@) =~= stream_stack(m.bytes@, 0));
        }
        m
    }

    /// The merge step: finalize the current accumulator into a leaf digest
    /// — root-flagged only when this is the final push onto an empty stack —
    /// and merge it into the stack, combining equal-depth tops until the
    /// depth cap. A root-flagged leaf exists only for the very first unit,
    /// so a final push onto an empty stack demands accumulator index 0.
    fn push(&mut self, finalize: bool)
        requires
            finalize && old(self).li@.len() == 0 ==> chunk_index(old(self).state) == 0,
        ensures
            stack_view(final(self).li@) == merge_step(
                stack_view(old(self).li@),
                chunk_cv(
                    chunk_index(old(self).state),
                    chunk_data(old(self).state),
                    finalize && old(self).li@.len() == 0,
                ),
                0,
                finalize,
            ),
            final(self).pos == old(self).pos,
            final(self).n == old(self).n,
            final(self).state == old(self).state,
            final(self).finalized == old(self).finalized,
            final(self).bytes == old(self).bytes,
    {
        let ghost pre = *self;
        let is_root = finalize && self.li.len() == 0;
        let mut hash: Digest = chunk_state_finalize(&self.state, is_root);
        let ghost target = merge_step(stack_view(pre.li@), hash@, 0, finalize);
        let mut depth: u8 = 0;
        loop
            invariant_except_break
                depth < BLOCK_CHUNK,
                merge_step(stack_view(self.li@), hash@, depth as nat, finalize) == target,
            invariant
                self.pos == pre.pos,
                self.n == pre.n,
                self.state == pre.state,
                self.finalized == pre.finalized,
                self.bytes == pre.bytes,
            ensures
                stack_view(self.li@) == target,
                self.pos == pre.pos,
                self.n == pre.n,
                self.state == pre.state,
                self.finalized == pre.finalized,
                self.bytes == pre.bytes,
            decreases self.li.len(),
        {
            let ghost sv = stack_view(self.li@);
            let len = self.li.len();
            if len == 0 || self.li[len - 1].depth != depth {
                proof {
                    assert(len > 0 ==> sv.last() == self.li@.last()@);
                }
                self.li.push(HashDepth { hash, depth });
                proof {
                    assert(stack_view(self.li@) =~= sv.push(NodeV { cv: hash@, depth: depth as nat }));
                }
                break;
            }
            proof {
                assert(sv.last() == self.li@.last()@);
                assert(sv.last().depth == depth as nat);
            }
            let top = self.li.pop().unwrap();
            let flag = finalize && self.li.len() == 0;
            proof {
                assert(top@ == sv.last());
                assert(stack_view(self.li@) =~= sv.drop_last());
                assert(flag == (finalize && sv.len() == 1));
            }
            hash = crate::hashes::combine(&top.hash, &hash, flag);
            if depth + 1 == BLOCK_CHUNK {
                self.li.push(HashDepth { hash, depth: BLOCK_CHUNK });
                proof {
                    assert(stack_view(self.li@) =~= sv.drop_last().push(
                        NodeV { cv: hash@, depth: spec_block_depth() },
                    ));
                }
                break;
            }
            depth = depth + 1;
        }
    }

    /// Consumes the whole buffer, driving the accumulator across unit
    /// boundaries and merging each completed leaf into the stack. Always
    /// consumes everything and returns the buffer's length; after finalize
    /// it rejects the write and leaves the builder untouched.
    pub fn write(&mut self, buf: &[u8]) -> (r: Result<usize, MerkleError>)
        requires
            old(self).wf(),
            old(self).bytes@.len() + buf@.len() <= 0xffff_ffff_ffff_ffff * 1024,
        ensures
            final(self).wf(),
            old(self).finalized ==> r == Err::<usize, MerkleError>(MerkleError::InvalidState)
                && *final(self) == *old(self),
            !old(self).finalized ==> r == Ok::<usize, MerkleError>(buf@.len() as usize)
                && !final(self).finalized
                && final(self).bytes@ == old(self).bytes@ + buf@,
    {
        if self.finalized {
            return Err(MerkleError::InvalidState);
        }
        let ghost pre = *self;
        let len = buf.len();
        let mut begin: usize = 0;
        while begin < len
            invariant
                begin <= len,
                len == buf@.len(),
                self.core_wf(),
                self.pos == 0 ==> self.bytes@.len() == 0 || begin < len,
                self.bytes@ == pre.bytes@ + buf@.take(begin as int),
                pre.bytes@.len() + buf@.len() <= 0xffff_ffff_ffff_ffff * 1024,
            decreases
                    2 * (len - begin) + (if self.pos == CHUNK_LEN { 1int } else { 0int }),
        {
            if self.pos == CHUNK_LEN {
                let ghost s = self.bytes@;
                let ghost k = self.n as nat;
                proof {
                    assert(chunk_data(self.state) =~= unit_bytes(s, k));
                }
                self.push(false);
                self.n = self.n + 1;
                self.state = chunk_state_new(self.n);
                self.pos = 0;
                proof {
                    assert(stack_view(self.li@) == stream_stack(s, k + 1));
                    assert(chunk_data(self.state) =~= s.skip(self.n as int * spec_unit_len() as int));
                }
            } else {
                let remain = CHUNK_LEN - self.pos;
                let avail = len - begin;
                let take = if avail < remain { avail } else { remain };
                let ghost s = self.bytes@;
                let piece = vstd::slice::slice_subrange(buf, begin, begin + take);
                chunk_state_update(&mut self.state, piece);
                self.pos = self.pos + take;
                self.bytes = Ghost(s + piece@);
                begin = begin + take;
                proof {
                    let s2 = self.bytes@;
                    assert(chunk_data(self.state) =~= s2.skip(self.n as int * spec_unit_len() as int));
                    assert(s2 =~= pre.bytes@ + buf@.take(begin as int));
                    assert(s2.subrange(0, s.len() as int) =~= s);
                    lemma_stream_stack_stable(s, s2, self.n as nat);
                }
            }
        }
        proof {
            assert(buf@.take(len as int) =~= buf@);
        }
        Ok(len)
    }

    /// Flushes the trailing (possibly partial) unit as the final leaf and
    /// collapses the below-cap suffix of the stack into one tail node: the
    /// completed block nodes stay, and what follows them folds into a single
    /// node that keeps the depth of the deepest node it absorbed. An empty
    /// stream finalizes to an empty block list. A second finalize is
    /// rejected and leaves the builder untouched.
    pub fn finalize(&mut self) -> (r: Result<(), MerkleError>)
        requires
            old(self).wf(),
        ensures
            final(self).wf(),
            old(self).finalized ==> r == Err::<(), MerkleError>(MerkleError::InvalidState)
                && *final(self) == *old(self),
            !old(self).finalized ==> r == Ok::<(), MerkleError>(())
                && final(self).finalized
                && final(self).bytes == old(self).bytes
                && stack_view(final(self).li@) == final_list(old(self).bytes@)
                && root_of_list(digests_of(stack_view(final(self).li@))) == ref_root(
                old(self).bytes@,
            ),
    {
        if self.finalized {
            return Err(MerkleError::InvalidState);
        }
        proof {
            crate::laws::lemma_root_matches_reference(self.bytes@);
        }
        if self.pos == 0 {
            proof {
                assert(stack_view(self.li@).len() == self.li@.len());
                assert(final_list(self.bytes@) =~= stack_view(self.li@));
            }
            self.finalized = true;
            return Ok(());
        }
        let ghost s = self.bytes@;
        let ghost k = self.n as nat;
        let ghost mid = stream_stack(s, k);
        proof {
            assert(chunk_data(self.state) =~= unit_bytes(s, k));
            assert((k * spec_unit_len() + (self.pos - 1)) as int / spec_unit_len() as int
                == k as int) by (nonlinear_arith)
                requires
                    0 <= self.pos - 1 < spec_unit_len(),
                    spec_unit_len() == 1024,
            ;
            assert(num_units(s.len()) == k + 1);
            assert(stack_view(self.li@).len() == self.li@.len());
            assert((self.li@.len() == 0) == (mid.len() == 0));
            if mid.len() == 0 {
                lemma_stream_stack_units(s, k);
                assert(k == 0);
            }
            lemma_stream_stack_wf(s, k);
        }
        self.push(true);
        let ghost sv = stack_view(self.li@);
        proof {
            lemma_merge_step_len(mid, chunk_cv(k, unit_bytes(s, k), mid.len() == 0), 0, true);
            lemma_merge_step_wf(mid, chunk_cv(k, unit_bytes(s, k), mid.len() == 0), 0, true);
            assert(sv.len() == self.li@.len());
        }
        let mut len: usize = self.li.len() - 1;
        let mut hash: Digest = self.li[len].hash;
        proof {
            assert(self.li@[len as int]@ == sv[len as int]);
        }
        loop
            invariant_except_break
                len < sv.len(),
                hash@ == collapse_hash(sv, len as int),
                forall|j: int| len < j < sv.len() ==> (#[trigger] sv[j].depth)
                    != spec_block_depth(),
                len < sv.len() - 1 ==> sv[len as int].depth != spec_block_depth(),
            invariant
                stack_view(self.li@) == sv,
                sv.len() == self.li@.len(),
                stack_wf(sv),
                self.finalized == false,
                self.bytes@ == s,
            ensures
                len < sv.len(),
                hash@ == collapse_hash(sv, len as int),
                forall|j: int| len < j < sv.len() ==> (#[trigger] sv[j].depth)
                    != spec_block_depth(),
                len < sv.len() - 1 ==> sv[len as int].depth != spec_block_depth(),
                len == 0 || sv[len - 1].depth == spec_block_depth(),
                stack_view(self.li@) == sv,
                sv.len() == self.li@.len(),
                self.finalized == false,
                self.bytes@ == s,
            decreases len,
        {
            if len == 0 {
                break;
            }
            if self.li[len - 1].depth == BLOCK_CHUNK {
                proof {
                    assert(self.li@[len - 1]@ == sv[len - 1]);
                }
                break;
            }
            proof {
                assert(self.li@[len - 1]@ == sv[len - 1]);
            }
            len = len - 1;
            proof {
                assert forall|j: int| len < j < sv.len() implies (#[trigger] sv[j].depth)
                    != spec_block_depth() by {
                    assert(sv[len as int].depth == spec_block_depth() || sv[len as int].depth
                        > sv[j].depth);
                    assert(sv[len as int].depth <= spec_block_depth());
                }
            }
            hash = crate::hashes::combine(&self.li[len].hash, &hash, len == 0);
        }
        let d = self.li[len].depth;
        proof {
            assert(self.li@[len as int]@ == sv[len as int]);
        }
        let tail = HashDepth { hash, depth: d };
        self.li.truncate(len);
        self.li.push(tail);
        self.finalized = true;
        proof {
            if sv[len as int].depth != spec_block_depth() {
                assert forall|i: int| 0 <= i < len implies (#[trigger] sv[i].depth)
                    == spec_block_depth() by {
                    if i < len - 1 {
                        assert(sv[i].depth == spec_block_depth() || sv[i].depth
                            > sv[len - 1].depth);
                    }
                }
                lemma_leading_blocks_index(sv, len as nat);
                assert(stack_view(self.li@) =~= collapse(sv));
            } else {
                assert(len == sv.len() - 1);
                assert(hash@ == sv[len as int].cv);
                assert forall|i: int| 0 <= i < sv.len() implies (#[trigger] sv[i].depth)
                    == spec_block_depth() by {
                    if i < sv.len() - 1 {
                        assert(sv[i].depth == spec_block_depth() || sv[i].depth
                            > sv[len as int].depth);
                    }
                }
                lemma_leading_blocks_index(sv, sv.len() as nat);
                assert(stack_view(self.li@) =~= collapse(sv));
            }
            assert(stack_view(self.li@) == final_list(s));
        }
        Ok(())
    }

    /// The pure root reduction over the current node list: the empty list
    /// yields the designated empty-input digest, one node is the root
    /// verbatim, and longer lists are pairing-folded left to right — an
    /// unpaired trailing node carried forward — until the final root-flagged
    /// combine. Reads the builder without changing it; meaningful to callers
    /// after finalize, and computable mid-stream for diagnostics.
    pub fn blake3(&self) -> (d: Digest)
        ensures
            d@ == root_of_list(digests_of(stack_view(self.li@))),
    {
        let ghost target = root_of_list(digests_of(stack_view(self.li@)));
        let len = self.li.len();
        proof {
            assert(digests_of(stack_view(self.li@)).len() == len);
        }
        if len == 0 {
            let cs = chunk_state_new(0);
            return chunk_state_finalize(&cs, true);
        }
        if len == 1 {
            proof {
                assert(digests_of(stack_view(self.li@))[0] == self.li@[0]@.cv);
            }
            return self.li[0].hash;
        }
        let mut cur: Vec<Digest> = Vec::new();
        let mut i: usize = 0;
        while i < len
            invariant
                i <= len,
                len == self.li@.len(),
                cur@.len() == i,
                forall|j: int| 0 <= j < i ==> cur@[j] == self.li@[j].hash,
            decreases len - i,
        {
            cur.push(self.li[i].hash);
            i = i + 1;
        }
        proof {
            assert(digest_views(cur@) =~= digests_of(stack_view(self.li@)));
        }
        while cur.len() > 2
            invariant
                cur@.len() >= 2,
                root_of_list(digest_views(cur@)) == target,
            decreases cur@.len(),
        {
            let m = cur.len();
            let ghost pv = digest_views(cur@);
            let mut next: Vec<Digest> = Vec::new();
            let half = m / 2;
            let mut k: usize = 0;
            while k < half
                invariant
                    k <= half,
                    half == m / 2,
                    m == cur@.len(),
                    m >= 3,
                    pv == digest_views(cur@),
                    next@.len() == k,
                    forall|j: int| 0 <= j < k ==> (#[trigger] next@[j])@ == pair_up(pv)[j],
                decreases half - k,
            {
                proof {
                    assert(2 * k + 1 < m);
                }
                let d = crate::hashes::combine(&cur[2 * k], &cur[2 * k + 1], false);
                next.push(d);
                k = k + 1;
            }
            if m % 2 == 1 {
                let last = cur[m - 1];
                next.push(last);
            }
            proof {
                assert(digest_views(next@) =~= pair_up(pv));
            }
            cur = next;
        }
        let d = crate::hashes::combine(&cur[0], &cur[1], true);
        proof {
            assert(digest_views(cur@)[0] == cur@[0]@);
            assert(digest_views(cur@)[1] == cur@[1]@);
        }
        d
    }
}

} // verus!
