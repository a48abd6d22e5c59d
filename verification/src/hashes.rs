//! The trusted boundary around the BLAKE3 primitives.
//!
//! The two primitives of the underlying tree-hash scheme — the per-unit leaf
//! accumulator and the two-input parent combination — are supplied by the
//! `blake3` crate and are not verified here. Their results are given
//! uninterpreted names (`chunk_cv`, `parent_cv_spec`): both are pure
//! functions of their arguments, and every contract in this crate speaks of
//! the names exactly.

use vstd::prelude::*;

verus! {

/// A fixed-width hash value, held as plain bytes so that contracts can
/// speak of it as a `Seq<u8>`.
#[derive(Clone, Copy, Debug)]
pub struct Digest {
    pub bytes: [u8; 32],
}

impl View for Digest {
    type V = Seq<u8>;

    open spec fn view(&self) -> Seq<u8> {
        self.bytes@
    }
}

#[verifier::external_type_specification]
#[verifier::external_body]
pub struct ExChunkState(blake3::guts::ChunkState);

/// The chunk index a `blake3::guts::ChunkState` was created with.
pub uninterp spec fn chunk_index(cs: blake3::guts::ChunkState) -> nat;

/// The bytes fed into a `blake3::guts::ChunkState` so far.
pub uninterp spec fn chunk_data(cs: blake3::guts::ChunkState) -> Seq<u8>;

/// The digest that `blake3::guts::ChunkState::finalize` returns for a chunk
/// with the given index and contents: a pure function of its arguments.
pub uninterp spec fn chunk_cv(index: nat, data: Seq<u8>, is_root: bool) -> Seq<u8>;

/// The digest that `blake3::guts::parent_cv` returns for a pair of child
/// digests: a pure function of its arguments.
pub uninterp spec fn parent_cv_spec(left: Seq<u8>, right: Seq<u8>, is_root: bool) -> Seq<u8>;

/// Relies on `blake3::guts::ChunkState::new`: a fresh accumulator for the
/// chunk with the given index, holding no bytes.
#[verifier::external_body]
pub fn chunk_state_new(index: u64) -> (cs: blake3::guts::ChunkState)
    ensures
        chunk_index(cs) == index as nat,
        chunk_data(cs) == Seq::<u8>::empty(),
{
    blake3::guts::ChunkState::new(index)
}

/// Relies on `blake3::guts::ChunkState::update`: appends the bytes to the
/// chunk accumulator. The chunk holds at most `blake3::guts::CHUNK_LEN`
/// (1024) bytes; beyond that the accumulator's behaviour is unspecified, so
/// that bound is required here.
#[verifier::external_body]
pub fn chunk_state_update(cs: &mut blake3::guts::ChunkState, data: &[u8])
    requires
        chunk_data(*old(cs)).len() + data@.len() <= 1024,
    ensures
        chunk_index(*final(cs)) == chunk_index(*old(cs)),
        chunk_data(*final(cs)) == chunk_data(*old(cs)) + data@,
{
    cs.update(data);
}

/// Relies on `blake3::guts::ChunkState::finalize`: the leaf digest of the
/// accumulated chunk, domain-separated by the root flag. It reads the
/// accumulator without consuming it. A root hash exists only for the very
/// first chunk: on a nonzero chunk counter the root path asserts, so the
/// root flag is admitted only at index 0.
#[verifier::external_body]
pub fn chunk_state_finalize(cs: &blake3::guts::ChunkState, is_root: bool) -> (d: Digest)
    requires
        is_root ==> chunk_index(*cs) == 0,
    ensures
        d@ == chunk_cv(chunk_index(*cs), chunk_data(*cs), is_root),
{
    Digest { bytes: *cs.finalize(is_root).as_bytes() }
}

/// Relies on `blake3::guts::parent_cv`: the digest of a parent node over two
/// child digests, domain-separated by the root flag.
#[verifier::external_body]
pub fn combine(left: &Digest, right: &Digest, is_root: bool) -> (d: Digest)
    ensures
        d@ == parent_cv_spec(left@, right@, is_root),
{
    let l = blake3::Hash::from_bytes(left.bytes);
    let r = blake3::Hash::from_bytes(right.bytes);
    Digest { bytes: *blake3::guts::parent_cv(&l, &r, is_root).as_bytes() }
}

} // verus!
