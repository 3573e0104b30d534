//! Recursive resolution of index trees.
//!
//! A read context holds one chunk accessor for a whole call tree and an
//! owned output buffer. Resolving `(digest, index_level)` at level 0
//! delivers (or, without output, merely touches) the leaf; at a higher
//! level it reads the chunk as index content, re-chunks it into digest
//! records, and resolves each record one level down, in record order —
//! so the output stream is byte-identical, in original order, to the
//! object as it was indexed.

use vstd::prelude::*;

use crate::accessor::{
    chunk_outcome, same_outcomes, store_after, ChunkOutcome, DefaultChunkAccessor,
    GenerationUpdateChunkAccessor, RecordingChunkAccessor, VerifyingChunkAccessor, gen_lookup,
    outcome_error,
};
use crate::codec::{Compression, DataType, Decrypter, ReadPolicy};
use crate::errors::Error;
use crate::hashing::digest_of;
use crate::store::Store;
use crate::translator::{complete_records, record_rem, IndexTranslator};

verus! {

/// Names a chunk: its digest, and how to interpret its plaintext.
/// Level 0 is a leaf; level `N > 0` is an index whose plaintext lists
/// digests at level `N - 1`.
pub struct DataAddress {
    pub digest: Vec<u8>,
    pub index_level: u32,
}

/// One resolution request: what to resolve, under which decode policy
/// branch, and whether resolved leaf bytes are wanted at all.
pub struct ReadRequest {
    pub data_address: DataAddress,
    pub data_type: DataType,
    pub with_output: bool,
}

impl ReadRequest {
    pub fn new(data_type: DataType, data_address: DataAddress, with_output: bool) -> (r:
        ReadRequest)
        ensures
            r.data_type == data_type,
            r.data_address == data_address,
            r.with_output == with_output,
    {
        ReadRequest { data_address, data_type, with_output }
    }
}

/// One of the four read strategies, chosen per walk.
pub enum ChunkAccessor<S: Store, D: Decrypter, C: Compression> {
    Default(DefaultChunkAccessor<S, D, C>),
    Recording(RecordingChunkAccessor<S, D, C>),
    Verifying(VerifyingChunkAccessor<S, D, C>),
    GenerationUpdate(GenerationUpdateChunkAccessor<S, D, C>),
}

impl<S: Store, D: Decrypter, C: Compression> ChunkAccessor<S, D, C> {
    /// The canonical accessor each variant reads through.
    pub open spec fn raw(&self) -> DefaultChunkAccessor<S, D, C> {
        match self {
            ChunkAccessor::Default(a) => *a,
            ChunkAccessor::Recording(a) => a.raw_spec(),
            ChunkAccessor::Verifying(a) => a.raw_spec(),
            ChunkAccessor::GenerationUpdate(a) => a.raw_spec(),
        }
    }

    pub open spec fn wf(&self) -> bool {
        match self {
            ChunkAccessor::Verifying(a) => a.wf(),
            _ => self.raw().wf(),
        }
    }

    /// Whether failures are absorbed per chunk instead of propagated.
    pub open spec fn is_verifying(&self) -> bool {
        self is Verifying
    }

    /// The digests a Recording variant has collected.
    pub open spec fn recorded(&self) -> Set<Seq<u8>> {
        match self {
            ChunkAccessor::Recording(a) => a.recorded(),
            _ => Set::empty(),
        }
    }

    /// The digests a Verifying variant has checked.
    pub open spec fn scanned(&self) -> Set<Seq<u8>> {
        match self {
            ChunkAccessor::Verifying(a) => a.scanned(),
            _ => Set::empty(),
        }
    }

    /// The failures a Verifying variant has noted.
    pub open spec fn errors_spec(&self) -> Seq<(Vec<u8>, Error)> {
        match self {
            ChunkAccessor::Verifying(a) => a.errors_spec(),
            _ => Seq::empty(),
        }
    }

    /// Same strategy, same configuration; only store contents and
    /// accumulated state may differ.
    pub open spec fn same_setup(a: Self, b: Self) -> bool {
        &&& a is Default <==> b is Default
        &&& a is Recording <==> b is Recording
        &&& a is Verifying <==> b is Verifying
        &&& a is GenerationUpdate <==> b is GenerationUpdate
        &&& DefaultChunkAccessor::same_setup(a.raw(), b.raw())
    }

    /// Whether leaves are probed for existence rather than noted.
    pub open spec fn probes_leaves(&self) -> bool {
        self is GenerationUpdate
    }

    /// The first failure a walk of this request would meet, over the
    /// accessor's current store contents.
    pub open spec fn walk_failure_of(&self, req: ReadRequest) -> Option<WalkFailure> {
        walk_failure(
            self.raw().store_view(),
            self.raw().gens(),
            req.data_address.digest@,
            req.data_address.index_level as nat,
            req.data_type,
            self.raw().policy_spec(),
            self.raw().decrypter_spec(),
            self.raw().compression_spec(),
            req.with_output,
            self.probes_leaves(),
        )
    }

    /// The bytes a successful walk of this request delivers.
    pub open spec fn walk_output_of(&self, req: ReadRequest) -> Seq<u8> {
        walk_output(
            self.raw().store_view(),
            self.raw().gens(),
            req.data_address.digest@,
            req.data_address.index_level as nat,
            req.data_type,
            self.raw().policy_spec(),
            self.raw().decrypter_spec(),
            self.raw().compression_spec(),
        )
    }

    /// The bytes delivered before a walk of this request stops.
    pub open spec fn walk_partial_of(&self, req: ReadRequest) -> Seq<u8> {
        walk_partial_output(
            self.raw().store_view(),
            self.raw().gens(),
            req.data_address.digest@,
            req.data_address.index_level as nat,
            req.data_type,
            self.raw().policy_spec(),
            self.raw().decrypter_spec(),
            self.raw().compression_spec(),
            req.with_output,
            self.probes_leaves(),
        )
    }

    /// Whether a Verifying walk of this request completes.
    pub open spec fn verify_ok_of(&self, req: ReadRequest) -> bool {
        verify_ok(
            self.raw().store_view(),
            self.raw().gens(),
            req.data_address.digest@,
            req.data_address.index_level as nat,
            self.raw().policy_spec(),
            self.raw().decrypter_spec(),
            self.raw().compression_spec(),
        )
    }

    /// The store changed only by promotions: every chunk's outcome is
    /// as it was, and nothing leaves the current generation.
    pub open spec fn outcomes_preserved_to(&self, post: Self) -> bool {
        &&& same_outcomes(
            self.raw().store_view(),
            post.raw().store_view(),
            self.raw().gens(),
            self.raw().policy_spec(),
            self.raw().decrypter_spec(),
            self.raw().compression_spec(),
        )
        &&& crate::accessor::cur_preserved(
            self.raw().store_view(),
            post.raw().store_view(),
            self.raw().gens().last(),
        )
    }

    /// Deliver the chunk by the variant's strategy.
    fn read_chunk_into(&mut self, digest: &[u8], data_type: DataType, out: &mut Vec<u8>) -> (r:
        Result<(), Error>)
        requires
            old(self).wf(),
        ensures
            final(self).wf(),
            Self::same_setup(*old(self), *final(self)),
            !old(self).is_verifying() ==> {
                &&& final(self).raw().store_view() == store_after(
                    old(self).raw().store_view(),
                    old(self).raw().gens(),
                    digest@,
                )
                &&& match old(self).raw().outcome_now(digest@, data_type) {
                    ChunkOutcome::Delivered(p) => r is Ok && final(out)@ == old(out)@ + p,
                    o => {
                        &&& final(out)@ == old(out)@
                        &&& r matches Err(e) && outcome_error(o, e, digest@)
                    },
                }
                &&& final(self).recorded() == if *old(self) is Recording {
                    old(self).recorded().insert(digest@)
                } else {
                    old(self).recorded()
                }
            },
            old(self).is_verifying() ==> {
                &&& r is Ok
                &&& old(self).scanned().contains(digest@) ==> {
                    &&& *final(self) == *old(self)
                    &&& final(out)@ == old(out)@
                }
                &&& !old(self).scanned().contains(digest@) ==> {
                    &&& final(self).scanned() == old(self).scanned().insert(digest@)
                    &&& final(self).raw().store_view() == store_after(
                        old(self).raw().store_view(),
                        old(self).raw().gens(),
                        digest@,
                    )
                    &&& match old(self).raw().outcome_now(digest@, data_type) {
                        ChunkOutcome::Delivered(p) => final(out)@ == old(out)@ + p
                            && final(self).errors_spec() == old(self).errors_spec(),
                        o => {
                            &&& final(out)@ == old(out)@
                            &&& final(self).errors_spec().len() == old(self).errors_spec().len()
                                + 1
                            &&& final(self).errors_spec().drop_last() == old(self).errors_spec()
                            &&& final(self).errors_spec().last().0@ == digest@
                            &&& outcome_error(o, final(self).errors_spec().last().1, digest@)
                        },
                    }
                }
            },
    {
        match self {
            ChunkAccessor::Default(a) => a.read_chunk_into(digest, data_type, out),
            ChunkAccessor::Recording(a) => a.read_chunk_into(digest, data_type, out),
            ChunkAccessor::Verifying(a) => a.read_chunk_into(digest, data_type, out),
            ChunkAccessor::GenerationUpdate(a) => a.read_chunk_into(digest, data_type, out),
        }
    }

    /// Note the digest by the variant's strategy, reading nothing.
    fn touch(&mut self, digest: &[u8]) -> (r: Result<(), Error>)
        requires
            old(self).wf(),
        ensures
            final(self).wf(),
            Self::same_setup(*old(self), *final(self)),
            *old(self) is Default ==> *final(self) == *old(self) && r is Ok,
            *old(self) is Verifying ==> *final(self) == *old(self) && r is Ok,
            *old(self) is Recording ==> {
                &&& final(self).raw() == old(self).raw()
                &&& final(self).recorded() == old(self).recorded().insert(digest@)
                &&& r is Ok
            },
            *old(self) is GenerationUpdate ==> match gen_lookup(
                old(self).raw().store_view(),
                old(self).raw().gens(),
                digest@,
            ) {
                None => {
                    &&& r matches Err(e) && outcome_error(ChunkOutcome::NoChunk, e, digest@)
                    &&& final(self).raw().store_view() == old(self).raw().store_view()
                },
                Some(_) => {
                    &&& r is Ok
                    &&& final(self).raw().store_view() == store_after(
                        old(self).raw().store_view(),
                        old(self).raw().gens(),
                        digest@,
                    )
                },
            },
    {
        match self {
            ChunkAccessor::Default(a) => a.touch(digest),
            ChunkAccessor::Recording(a) => a.touch(digest),
            ChunkAccessor::Verifying(a) => a.touch(digest),
            ChunkAccessor::GenerationUpdate(a) => a.touch(digest),
        }
    }
}

/// `content` is a possible resolution of `d` at `level`: at level 0 it
/// is the chunk itself (it hashes to `d`); above, some index chunk
/// hashing to `d` divides into digest records whose resolutions one
/// level down concatenate, in record order, to `content`.
pub open spec fn resolves_to(d: Seq<u8>, level: nat, content: Seq<u8>) -> bool
    decreases level,
{
    if level == 0 {
        digest_of(content) == d
    } else {
        exists|c: Seq<u8>, parts: Seq<Seq<u8>>|
            {
                &&& #[trigger] digest_of(c) == d
                &&& c.len() % 32 == 0
                &&& #[trigger] parts.len() == complete_records(c).len()
                &&& (forall|i: int|
                    0 <= i < parts.len() ==> resolves_to(
                        complete_records(c)[i],
                        (level - 1) as nat,
                        parts[i],
                    ))
                &&& content == parts.flatten()
            }
    }
}

/// The index skeleton above `d` exists down to the leaves, without any
/// claim on leaf content: what a walk without output must still verify.
pub open spec fn index_resolvable(d: Seq<u8>, level: nat) -> bool
    decreases level,
{
    if level == 0 {
        true
    } else {
        exists|c: Seq<u8>|
            {
                &&& #[trigger] digest_of(c) == d
                &&& c.len() % 32 == 0
                &&& (forall|i: int|
                    0 <= i < complete_records(c).len() ==> index_resolvable(
                        complete_records(c)[i],
                        (level - 1) as nat,
                    ))
            }
    }
}

/// The union of a sequence of digest sets.
pub open spec fn union_all(vs: Seq<Set<Seq<u8>>>) -> Set<Seq<u8>>
    decreases vs.len(),
{
    if vs.len() == 0 {
        Set::empty()
    } else {
        union_all(vs.drop_last()).union(vs.last())
    }
}

/// `v` is the set of digests one walk of `(d, level)` visits: the chunk
/// itself and, above level 0, everything the walks of its records
/// visit. A digest referenced twice contributes once — `v` is a set.
pub open spec fn walk_visits(d: Seq<u8>, level: nat, v: Set<Seq<u8>>) -> bool
    decreases level,
{
    if level == 0 {
        v == Set::empty().insert(d)
    } else {
        exists|c: Seq<u8>, vs: Seq<Set<Seq<u8>>>|
            {
                &&& #[trigger] digest_of(c) == d
                &&& c.len() % 32 == 0
                &&& #[trigger] vs.len() == complete_records(c).len()
                &&& (forall|i: int|
                    0 <= i < vs.len() ==> walk_visits(
                        complete_records(c)[i],
                        (level - 1) as nat,
                        vs[i],
                    ))
                &&& v == union_all(vs).insert(d)
            }
    }
}

/// The bytes a `Delivered` outcome carries.
pub open spec fn delivered_bytes(o: ChunkOutcome) -> Seq<u8> {
    match o {
        ChunkOutcome::Delivered(p) => p,
        _ => Seq::empty(),
    }
}

/// What stops a walk, when something does.
pub enum WalkFailure {
    /// This chunk's read or probe fails, with the given outcome.
    Chunk(Seq<u8>, ChunkOutcome),
    /// This index chunk's content does not divide into whole records.
    Truncated(Seq<u8>),
}

/// The first failure a depth-first walk of `(d, level)` meets over the
/// given store contents, or `None` when the walk goes through. Index
/// content is read as index data; a leaf is read as `data_type` when
/// output is wanted, probed for existence when `probe` (a generation
/// update pass without output), and merely noted otherwise. Children of
/// an index are tried in record order, all whole records before the
/// truncation check, mirroring the walk itself.
pub open spec fn walk_failure<D: Decrypter, C: Compression>(
    v: Map<(int, Seq<u8>), Seq<u8>>,
    gens: Seq<u64>,
    d: Seq<u8>,
    level: nat,
    data_type: DataType,
    policy: ReadPolicy,
    decrypter: Option<D>,
    compression: C,
    deliver: bool,
    probe: bool,
) -> Option<WalkFailure>
    decreases level, 0int, 0int,
{
    if level == 0 {
        if deliver {
            match chunk_outcome(v, gens, d, data_type, policy, decrypter, compression) {
                ChunkOutcome::Delivered(_) => None,
                o => Some(WalkFailure::Chunk(d, o)),
            }
        } else if probe {
            if gen_lookup(v, gens, d) is Some {
                None
            } else {
                Some(WalkFailure::Chunk(d, ChunkOutcome::NoChunk))
            }
        } else {
            None
        }
    } else {
        match chunk_outcome(v, gens, d, DataType::Index, policy, decrypter, compression) {
            ChunkOutcome::Delivered(c) => {
                match walk_children_failure(
                    v,
                    gens,
                    complete_records(c),
                    (level - 1) as nat,
                    data_type,
                    policy,
                    decrypter,
                    compression,
                    deliver,
                    probe,
                ) {
                    Some(f) => Some(f),
                    None => if c.len() % 32 == 0 {
                        None
                    } else {
                        Some(WalkFailure::Truncated(d))
                    },
                }
            },
            o => Some(WalkFailure::Chunk(d, o)),
        }
    }
}

/// The first failure among the records' walks, in record order.
pub open spec fn walk_children_failure<D: Decrypter, C: Compression>(
    v: Map<(int, Seq<u8>), Seq<u8>>,
    gens: Seq<u64>,
    records: Seq<Seq<u8>>,
    level: nat,
    data_type: DataType,
    policy: ReadPolicy,
    decrypter: Option<D>,
    compression: C,
    deliver: bool,
    probe: bool,
) -> Option<WalkFailure>
    decreases level, 1int, records.len(),
{
    if records.len() == 0 {
        None
    } else {
        match walk_failure(
            v,
            gens,
            records.first(),
            level,
            data_type,
            policy,
            decrypter,
            compression,
            deliver,
            probe,
        ) {
            Some(f) => Some(f),
            None => walk_children_failure(
                v,
                gens,
                records.drop_first(),
                level,
                data_type,
                policy,
                decrypter,
                compression,
                deliver,
                probe,
            ),
        }
    }
}

/// The bytes a successful walk of `(d, level)` delivers: the stored
/// leaves' verified plaintext, concatenated depth-first in record
/// order. Deterministic over the store contents.
pub open spec fn walk_output<D: Decrypter, C: Compression>(
    v: Map<(int, Seq<u8>), Seq<u8>>,
    gens: Seq<u64>,
    d: Seq<u8>,
    level: nat,
    data_type: DataType,
    policy: ReadPolicy,
    decrypter: Option<D>,
    compression: C,
) -> Seq<u8>
    decreases level, 0int, 0int,
{
    if level == 0 {
        delivered_bytes(chunk_outcome(v, gens, d, data_type, policy, decrypter, compression))
    } else {
        match chunk_outcome(v, gens, d, DataType::Index, policy, decrypter, compression) {
            ChunkOutcome::Delivered(c) => walk_children_output(
                v,
                gens,
                complete_records(c),
                (level - 1) as nat,
                data_type,
                policy,
                decrypter,
                compression,
            ),
            _ => Seq::empty(),
        }
    }
}

/// The concatenation of the records' walk outputs, in record order.
pub open spec fn walk_children_output<D: Decrypter, C: Compression>(
    v: Map<(int, Seq<u8>), Seq<u8>>,
    gens: Seq<u64>,
    records: Seq<Seq<u8>>,
    level: nat,
    data_type: DataType,
    policy: ReadPolicy,
    decrypter: Option<D>,
    compression: C,
) -> Seq<u8>
    decreases level, 1int, records.len(),
{
    if records.len() == 0 {
        Seq::empty()
    } else {
        walk_output(v, gens, records.first(), level, data_type, policy, decrypter, compression)
            + walk_children_output(
            v,
            gens,
            records.drop_first(),
            level,
            data_type,
            policy,
            decrypter,
            compression,
        )
    }
}

/// The bytes delivered before a walk stops (and all of them when it
/// does not): the outputs of the children that went through, in record
/// order, then whatever the failing child itself delivered. A failing
/// chunk delivers nothing of its own — verification precedes delivery.
pub open spec fn walk_partial_output<D: Decrypter, C: Compression>(
    v: Map<(int, Seq<u8>), Seq<u8>>,
    gens: Seq<u64>,
    d: Seq<u8>,
    level: nat,
    data_type: DataType,
    policy: ReadPolicy,
    decrypter: Option<D>,
    compression: C,
    deliver: bool,
    probe: bool,
) -> Seq<u8>
    decreases level, 0int, 0int,
{
    if level == 0 {
        if deliver {
            delivered_bytes(chunk_outcome(v, gens, d, data_type, policy, decrypter, compression))
        } else {
            Seq::empty()
        }
    } else {
        match chunk_outcome(v, gens, d, DataType::Index, policy, decrypter, compression) {
            ChunkOutcome::Delivered(c) => walk_children_partial(
                v,
                gens,
                complete_records(c),
                (level - 1) as nat,
                data_type,
                policy,
                decrypter,
                compression,
                deliver,
                probe,
            ),
            _ => Seq::empty(),
        }
    }
}

/// The records' outputs up to and including the first failing one.
pub open spec fn walk_children_partial<D: Decrypter, C: Compression>(
    v: Map<(int, Seq<u8>), Seq<u8>>,
    gens: Seq<u64>,
    records: Seq<Seq<u8>>,
    level: nat,
    data_type: DataType,
    policy: ReadPolicy,
    decrypter: Option<D>,
    compression: C,
    deliver: bool,
    probe: bool,
) -> Seq<u8>
    decreases level, 1int, records.len(),
{
    if records.len() == 0 {
        Seq::empty()
    } else {
        match walk_failure(
            v,
            gens,
            records.first(),
            level,
            data_type,
            policy,
            decrypter,
            compression,
            deliver,
            probe,
        ) {
            None => walk_output(
                v,
                gens,
                records.first(),
                level,
                data_type,
                policy,
                decrypter,
                compression,
            ) + walk_children_partial(
                v,
                gens,
                records.drop_first(),
                level,
                data_type,
                policy,
                decrypter,
                compression,
                deliver,
                probe,
            ),
            Some(_) => walk_partial_output(
                v,
                gens,
                records.first(),
                level,
                data_type,
                policy,
                decrypter,
                compression,
                deliver,
                probe,
            ),
        }
    }
}

/// What a Verifying walk needs to complete: every index chunk of the
/// tree either fails its own read (the failure is absorbed and its
/// subtree skipped) or delivers content dividing into whole records
/// whose subtrees can in turn be completed. Leaves never stop it.
pub open spec fn verify_ok<D: Decrypter, C: Compression>(
    v: Map<(int, Seq<u8>), Seq<u8>>,
    gens: Seq<u64>,
    d: Seq<u8>,
    level: nat,
    policy: ReadPolicy,
    decrypter: Option<D>,
    compression: C,
) -> bool
    decreases level,
{
    if level == 0 {
        true
    } else {
        match chunk_outcome(v, gens, d, DataType::Index, policy, decrypter, compression) {
            ChunkOutcome::Delivered(c) => c.len() % 32 == 0 && (forall|i: int|
                0 <= i < complete_records(c).len() ==> verify_ok(
                    v,
                    gens,
                    complete_records(c)[i],
                    (level - 1) as nat,
                    policy,
                    decrypter,
                    compression,
                )),
            _ => true,
        }
    }
}

/// Stores with the same outcomes walk the same: failure, output and
/// verify-completion are functions of the chunk outcomes alone.
pub proof fn lemma_walk_frame<D: Decrypter, C: Compression>(
    v0: Map<(int, Seq<u8>), Seq<u8>>,
    v1: Map<(int, Seq<u8>), Seq<u8>>,
    gens: Seq<u64>,
    d: Seq<u8>,
    level: nat,
    data_type: DataType,
    policy: ReadPolicy,
    decrypter: Option<D>,
    compression: C,
    deliver: bool,
    probe: bool,
)
    requires
        same_outcomes(v0, v1, gens, policy, decrypter, compression),
    ensures
        walk_failure(v1, gens, d, level, data_type, policy, decrypter, compression, deliver, probe)
            == walk_failure(
            v0,
            gens,
            d,
            level,
            data_type,
            policy,
            decrypter,
            compression,
            deliver,
            probe,
        ),
        walk_output(v1, gens, d, level, data_type, policy, decrypter, compression) == walk_output(
            v0,
            gens,
            d,
            level,
            data_type,
            policy,
            decrypter,
            compression,
        ),
        verify_ok(v1, gens, d, level, policy, decrypter, compression) == verify_ok(
            v0,
            gens,
            d,
            level,
            policy,
            decrypter,
            compression,
        ),
        walk_partial_output(
            v1,
            gens,
            d,
            level,
            data_type,
            policy,
            decrypter,
            compression,
            deliver,
            probe,
        ) == walk_partial_output(
            v0,
            gens,
            d,
            level,
            data_type,
            policy,
            decrypter,
            compression,
            deliver,
            probe,
        ),
    decreases level, 0int, 0int,
{
    crate::accessor::lemma_outcome_no_chunk(v0, gens, d, data_type, policy, decrypter, compression);
    crate::accessor::lemma_outcome_no_chunk(v1, gens, d, data_type, policy, decrypter, compression);
    if level > 0 {
        match chunk_outcome(v0, gens, d, DataType::Index, policy, decrypter, compression) {
            ChunkOutcome::Delivered(c) => {
                lemma_walk_children_frame(
                    v0,
                    v1,
                    gens,
                    complete_records(c),
                    (level - 1) as nat,
                    data_type,
                    policy,
                    decrypter,
                    compression,
                    deliver,
                    probe,
                );
            },
            _ => {},
        }
    }
}

proof fn lemma_walk_children_frame<D: Decrypter, C: Compression>(
    v0: Map<(int, Seq<u8>), Seq<u8>>,
    v1: Map<(int, Seq<u8>), Seq<u8>>,
    gens: Seq<u64>,
    records: Seq<Seq<u8>>,
    level: nat,
    data_type: DataType,
    policy: ReadPolicy,
    decrypter: Option<D>,
    compression: C,
    deliver: bool,
    probe: bool,
)
    requires
        same_outcomes(v0, v1, gens, policy, decrypter, compression),
    ensures
        walk_children_failure(
            v1,
            gens,
            records,
            level,
            data_type,
            policy,
            decrypter,
            compression,
            deliver,
            probe,
        ) == walk_children_failure(
            v0,
            gens,
            records,
            level,
            data_type,
            policy,
            decrypter,
            compression,
            deliver,
            probe,
        ),
        walk_children_output(v1, gens, records, level, data_type, policy, decrypter, compression)
            == walk_children_output(
            v0,
            gens,
            records,
            level,
            data_type,
            policy,
            decrypter,
            compression,
        ),
        walk_children_partial(
            v1,
            gens,
            records,
            level,
            data_type,
            policy,
            decrypter,
            compression,
            deliver,
            probe,
        ) == walk_children_partial(
            v0,
            gens,
            records,
            level,
            data_type,
            policy,
            decrypter,
            compression,
            deliver,
            probe,
        ),
        (forall|i: int|
            0 <= i < records.len() ==> verify_ok(
                v1,
                gens,
                #[trigger] records[i],
                level,
                policy,
                decrypter,
                compression,
            ) == verify_ok(v0, gens, records[i], level, policy, decrypter, compression)),
    decreases level, 1int, records.len(),
{
    if records.len() > 0 {
        lemma_walk_frame(
            v0,
            v1,
            gens,
            records.first(),
            level,
            data_type,
            policy,
            decrypter,
            compression,
            deliver,
            probe,
        );
        lemma_walk_children_frame(
            v0,
            v1,
            gens,
            records.drop_first(),
            level,
            data_type,
            policy,
            decrypter,
            compression,
            deliver,
            probe,
        );
        assert forall|i: int|
            0 <= i < records.len() implies verify_ok(
            v1,
            gens,
            #[trigger] records[i],
            level,
            policy,
            decrypter,
            compression,
        ) == verify_ok(v0, gens, records[i], level, policy, decrypter, compression) by {
            if i > 0 {
                assert(records.drop_first()[i - 1] == records[i]);
            }
        }
    }
}

proof fn lemma_children_failure_none<D: Decrypter, C: Compression>(
    v: Map<(int, Seq<u8>), Seq<u8>>,
    gens: Seq<u64>,
    records: Seq<Seq<u8>>,
    level: nat,
    data_type: DataType,
    policy: ReadPolicy,
    decrypter: Option<D>,
    compression: C,
    deliver: bool,
    probe: bool,
)
    requires
        forall|j: int|
            0 <= j < records.len() ==> walk_failure(
                v,
                gens,
                #[trigger] records[j],
                level,
                data_type,
                policy,
                decrypter,
                compression,
                deliver,
                probe,
            ) is None,
    ensures
        walk_children_failure(
            v,
            gens,
            records,
            level,
            data_type,
            policy,
            decrypter,
            compression,
            deliver,
            probe,
        ) is None,
    decreases records.len(),
{
    if records.len() > 0 {
        assert(records[0] == records.first());
        assert forall|j: int|
            0 <= j < records.drop_first().len() implies walk_failure(
            v,
            gens,
            #[trigger] records.drop_first()[j],
            level,
            data_type,
            policy,
            decrypter,
            compression,
            deliver,
            probe,
        ) is None by {
            assert(records.drop_first()[j] == records[j + 1]);
        }
        lemma_children_failure_none(
            v,
            gens,
            records.drop_first(),
            level,
            data_type,
            policy,
            decrypter,
            compression,
            deliver,
            probe,
        );
    }
}

proof fn lemma_children_failure_at<D: Decrypter, C: Compression>(
    v: Map<(int, Seq<u8>), Seq<u8>>,
    gens: Seq<u64>,
    records: Seq<Seq<u8>>,
    level: nat,
    data_type: DataType,
    policy: ReadPolicy,
    decrypter: Option<D>,
    compression: C,
    deliver: bool,
    probe: bool,
    k: int,
)
    requires
        0 <= k < records.len(),
        forall|j: int|
            0 <= j < k ==> walk_failure(
                v,
                gens,
                #[trigger] records[j],
                level,
                data_type,
                policy,
                decrypter,
                compression,
                deliver,
                probe,
            ) is None,
        walk_failure(
            v,
            gens,
            records[k],
            level,
            data_type,
            policy,
            decrypter,
            compression,
            deliver,
            probe,
        ) is Some,
    ensures
        walk_children_failure(
            v,
            gens,
            records,
            level,
            data_type,
            policy,
            decrypter,
            compression,
            deliver,
            probe,
        ) == walk_failure(
            v,
            gens,
            records[k],
            level,
            data_type,
            policy,
            decrypter,
            compression,
            deliver,
            probe,
        ),
    decreases records.len(),
{
    assert(records[0] == records.first());
    if k > 0 {
        assert forall|j: int|
            0 <= j < k - 1 implies walk_failure(
            v,
            gens,
            #[trigger] records.drop_first()[j],
            level,
            data_type,
            policy,
            decrypter,
            compression,
            deliver,
            probe,
        ) is None by {
            assert(records.drop_first()[j] == records[j + 1]);
        }
        assert(records.drop_first()[k - 1] == records[k]);
        lemma_children_failure_at(
            v,
            gens,
            records.drop_first(),
            level,
            data_type,
            policy,
            decrypter,
            compression,
            deliver,
            probe,
            k - 1,
        );
    }
}

proof fn lemma_children_output_concat<D: Decrypter, C: Compression>(
    v: Map<(int, Seq<u8>), Seq<u8>>,
    gens: Seq<u64>,
    records: Seq<Seq<u8>>,
    parts: Seq<Seq<u8>>,
    level: nat,
    data_type: DataType,
    policy: ReadPolicy,
    decrypter: Option<D>,
    compression: C,
)
    requires
        parts.len() == records.len(),
        forall|j: int|
            0 <= j < records.len() ==> #[trigger] parts[j] == walk_output(
                v,
                gens,
                records[j],
                level,
                data_type,
                policy,
                decrypter,
                compression,
            ),
    ensures
        parts.flatten() == walk_children_output(
            v,
            gens,
            records,
            level,
            data_type,
            policy,
            decrypter,
            compression,
        ),
    decreases records.len(),
{
    if records.len() == 0 {
        assert(parts =~= Seq::<Seq<u8>>::empty());
    } else {
        assert(records[0] == records.first());
        assert(parts.first() == parts[0]);
        assert forall|j: int|
            0 <= j < records.drop_first().len() implies #[trigger] parts.drop_first()[j]
            == walk_output(
            v,
            gens,
            records.drop_first()[j],
            level,
            data_type,
            policy,
            decrypter,
            compression,
        ) by {
            assert(records.drop_first()[j] == records[j + 1]);
            assert(parts.drop_first()[j] == parts[j + 1]);
        }
        lemma_children_output_concat(
            v,
            gens,
            records.drop_first(),
            parts.drop_first(),
            level,
            data_type,
            policy,
            decrypter,
            compression,
        );
        assert(parts.flatten() == parts.first() + parts.drop_first().flatten());
    }
}

proof fn lemma_children_partial_none<D: Decrypter, C: Compression>(
    v: Map<(int, Seq<u8>), Seq<u8>>,
    gens: Seq<u64>,
    records: Seq<Seq<u8>>,
    level: nat,
    data_type: DataType,
    policy: ReadPolicy,
    decrypter: Option<D>,
    compression: C,
    deliver: bool,
    probe: bool,
)
    requires
        forall|j: int|
            0 <= j < records.len() ==> walk_failure(
                v,
                gens,
                #[trigger] records[j],
                level,
                data_type,
                policy,
                decrypter,
                compression,
                deliver,
                probe,
            ) is None,
    ensures
        walk_children_partial(
            v,
            gens,
            records,
            level,
            data_type,
            policy,
            decrypter,
            compression,
            deliver,
            probe,
        ) == walk_children_output(
            v,
            gens,
            records,
            level,
            data_type,
            policy,
            decrypter,
            compression,
        ),
    decreases records.len(),
{
    if records.len() > 0 {
        assert(records[0] == records.first());
        assert forall|j: int|
            0 <= j < records.drop_first().len() implies walk_failure(
            v,
            gens,
            #[trigger] records.drop_first()[j],
            level,
            data_type,
            policy,
            decrypter,
            compression,
            deliver,
            probe,
        ) is None by {
            assert(records.drop_first()[j] == records[j + 1]);
        }
        lemma_children_partial_none(
            v,
            gens,
            records.drop_first(),
            level,
            data_type,
            policy,
            decrypter,
            compression,
            deliver,
            probe,
        );
    }
}

proof fn lemma_children_partial_at<D: Decrypter, C: Compression>(
    v: Map<(int, Seq<u8>), Seq<u8>>,
    gens: Seq<u64>,
    records: Seq<Seq<u8>>,
    level: nat,
    data_type: DataType,
    policy: ReadPolicy,
    decrypter: Option<D>,
    compression: C,
    deliver: bool,
    probe: bool,
    k: int,
)
    requires
        0 <= k < records.len(),
        forall|j: int|
            0 <= j < k ==> walk_failure(
                v,
                gens,
                #[trigger] records[j],
                level,
                data_type,
                policy,
                decrypter,
                compression,
                deliver,
                probe,
            ) is None,
        walk_failure(
            v,
            gens,
            records[k],
            level,
            data_type,
            policy,
            decrypter,
            compression,
            deliver,
            probe,
        ) is Some,
    ensures
        walk_children_partial(
            v,
            gens,
            records,
            level,
            data_type,
            policy,
            decrypter,
            compression,
            deliver,
            probe,
        ) == walk_children_output(
            v,
            gens,
            records.take(k),
            level,
            data_type,
            policy,
            decrypter,
            compression,
        ) + walk_partial_output(
            v,
            gens,
            records[k],
            level,
            data_type,
            policy,
            decrypter,
            compression,
            deliver,
            probe,
        ),
    decreases records.len(),
{
    assert(records[0] == records.first());
    if k == 0 {
        assert(records.take(0) =~= Seq::<Seq<u8>>::empty());
        assert(Seq::<u8>::empty() + walk_partial_output(
            v,
            gens,
            records[0],
            level,
            data_type,
            policy,
            decrypter,
            compression,
            deliver,
            probe,
        ) =~= walk_partial_output(
            v,
            gens,
            records[0],
            level,
            data_type,
            policy,
            decrypter,
            compression,
            deliver,
            probe,
        ));
    } else {
        assert forall|j: int|
            0 <= j < k - 1 implies walk_failure(
            v,
            gens,
            #[trigger] records.drop_first()[j],
            level,
            data_type,
            policy,
            decrypter,
            compression,
            deliver,
            probe,
        ) is None by {
            assert(records.drop_first()[j] == records[j + 1]);
        }
        assert(records.drop_first()[k - 1] == records[k]);
        lemma_children_partial_at(
            v,
            gens,
            records.drop_first(),
            level,
            data_type,
            policy,
            decrypter,
            compression,
            deliver,
            probe,
            k - 1,
        );
        assert(records.take(k).first() == records[0]);
        assert(records.take(k).drop_first() =~= records.drop_first().take(k - 1));
        let h = walk_output(v, gens, records[0], level, data_type, policy, decrypter, compression);
        let mid = walk_children_output(
            v,
            gens,
            records.drop_first().take(k - 1),
            level,
            data_type,
            policy,
            decrypter,
            compression,
        );
        let tail = walk_partial_output(
            v,
            gens,
            records[k],
            level,
            data_type,
            policy,
            decrypter,
            compression,
            deliver,
            probe,
        );
        assert(h + (mid + tail) =~= (h + mid) + tail);
    }
}

/// What every walk entry point guarantees, relating the context before
/// and after to the request and the result. For the strict strategies
/// (all but Verifying) this pins the walk down completely: it succeeds
/// exactly when [`walk_failure`] over the initial store finds nothing;
/// on success the output grows by exactly [`walk_output`], and on
/// failure by exactly [`walk_partial_output`] — the records before the
/// failure point, already resolved — with the error identified by the
/// first failure met. The store changes only by promotions: every
/// chunk's outcome is preserved and the walked chunk stands under the
/// current generation afterwards. A Verifying walk always completes on
/// trees whose index chunks are well shaped ([`verify_ok`]), never
/// propagates a chunk failure, and treats each leaf exactly as its
/// accessor contract says.
pub open spec fn walk_post<S: Store, D: Decrypter, C: Compression>(
    pre: ReadContext<S, D, C>,
    post: ReadContext<S, D, C>,
    req: ReadRequest,
    r: Result<(), Error>,
) -> bool {
    &&& post.wf()
    &&& ChunkAccessor::same_setup(pre.accessor_spec(), post.accessor_spec())
    &&& pre.out().is_prefix_of(post.out())
    &&& (!req.with_output ==> post.out() == pre.out())
    &&& pre.accessor_spec().outcomes_preserved_to(post.accessor_spec())
    &&& (!pre.accessor_spec().is_verifying() ==> {
        let f = pre.accessor_spec().walk_failure_of(req);
        &&& (r is Ok <==> f is None)
        &&& (r matches Err(e) ==> match f {
            Some(WalkFailure::Chunk(xd, o)) => outcome_error(o, e, xd),
            Some(WalkFailure::Truncated(_)) => e == Error::TruncatedIndex,
            None => false,
        })
        &&& (r is Ok && req.with_output ==> post.out() == pre.out()
            + pre.accessor_spec().walk_output_of(req))
        &&& (r is Err && req.with_output ==> post.out() == pre.out()
            + pre.accessor_spec().walk_partial_of(req))
        &&& (r is Ok && (req.with_output || req.data_address.index_level > 0
            || pre.accessor_spec() is GenerationUpdate)
            ==> post.accessor_spec().raw().store_view().contains_key(
            (pre.accessor_spec().raw().gens().last() as int, req.data_address.digest@),
        ))
    })
    &&& (pre.accessor_spec().is_verifying() && pre.accessor_spec().verify_ok_of(req) ==> r is Ok)
    &&& (pre.accessor_spec() is Verifying && req.data_address.index_level == 0
        && req.with_output ==> {
        &&& r is Ok
        &&& (pre.accessor_spec().scanned().contains(req.data_address.digest@) ==> {
            &&& post.accessor_spec() == pre.accessor_spec()
            &&& post.out() == pre.out()
        })
        &&& (!pre.accessor_spec().scanned().contains(req.data_address.digest@) ==> {
            &&& post.accessor_spec().scanned() == pre.accessor_spec().scanned().insert(
                req.data_address.digest@,
            )
            &&& post.accessor_spec().raw().store_view() == store_after(
                pre.accessor_spec().raw().store_view(),
                pre.accessor_spec().raw().gens(),
                req.data_address.digest@,
            )
            &&& match pre.accessor_spec().raw().outcome_now(
                req.data_address.digest@,
                req.data_type,
            ) {
                ChunkOutcome::Delivered(p) => post.out() == pre.out() + p
                    && post.accessor_spec().errors_spec() == pre.accessor_spec().errors_spec(),
                o => {
                    &&& post.out() == pre.out()
                    &&& post.accessor_spec().errors_spec().len() == pre.accessor_spec(
                    ).errors_spec().len() + 1
                    &&& post.accessor_spec().errors_spec().drop_last() == pre.accessor_spec(
                    ).errors_spec()
                    &&& post.accessor_spec().errors_spec().last().0@ == req.data_address.digest@
                    &&& outcome_error(
                        o,
                        post.accessor_spec().errors_spec().last().1,
                        req.data_address.digest@,
                    )
                },
            }
        })
    })
    &&& (!pre.accessor_spec().is_verifying() && r is Ok ==> {
        &&& (req.with_output ==> resolves_to(
            req.data_address.digest@,
            req.data_address.index_level as nat,
            post.out().skip(pre.out().len() as int),
        ))
        &&& (!req.with_output ==> index_resolvable(
            req.data_address.digest@,
            req.data_address.index_level as nat,
        ))
    })
    &&& (pre.accessor_spec().is_verifying() ==> {
        &&& (r matches Err(e) ==> e == Error::TruncatedIndex)
        &&& pre.accessor_spec().errors_spec().is_prefix_of(post.accessor_spec().errors_spec())
        &&& pre.accessor_spec().scanned().subset_of(post.accessor_spec().scanned())
    })
    &&& (pre.accessor_spec() is Recording ==> {
        &&& pre.accessor_spec().recorded().subset_of(post.accessor_spec().recorded())
        &&& (r is Ok ==> post.accessor_spec().recorded().contains(req.data_address.digest@))
        &&& (r is Ok ==> exists|v: Set<Seq<u8>>|
            {
                &&& #[trigger] walk_visits(
                    req.data_address.digest@,
                    req.data_address.index_level as nat,
                    v,
                )
                &&& post.accessor_spec().recorded() == pre.accessor_spec().recorded().union(v)
            })
    })
    &&& (req.data_address.index_level == 0 && req.with_output
        && !pre.accessor_spec().is_verifying() ==> {
        &&& post.accessor_spec().raw().store_view() == store_after(
            pre.accessor_spec().raw().store_view(),
            pre.accessor_spec().raw().gens(),
            req.data_address.digest@,
        )
        &&& match pre.accessor_spec().raw().outcome_now(req.data_address.digest@, req.data_type) {
            ChunkOutcome::Delivered(p) => r is Ok && post.out() == pre.out() + p,
            o => {
                &&& post.out() == pre.out()
                &&& r matches Err(e) && outcome_error(o, e, req.data_address.digest@)
            },
        }
    })
    &&& (req.data_address.index_level == 0 && !req.with_output ==> {
        &&& (pre.accessor_spec() is Default || pre.accessor_spec() is Verifying
            ==> r is Ok && post.accessor_spec() == pre.accessor_spec())
        &&& (pre.accessor_spec() is Recording ==> r is Ok && post.accessor_spec().raw()
            == pre.accessor_spec().raw() && post.accessor_spec().recorded()
            == pre.accessor_spec().recorded().insert(req.data_address.digest@))
        &&& (pre.accessor_spec() is GenerationUpdate ==> match gen_lookup(
            pre.accessor_spec().raw().store_view(),
            pre.accessor_spec().raw().gens(),
            req.data_address.digest@,
        ) {
            None => {
                &&& r matches Err(e) && outcome_error(
                    ChunkOutcome::NoChunk,
                    e,
                    req.data_address.digest@,
                )
                &&& post.accessor_spec().raw().store_view()
                    == pre.accessor_spec().raw().store_view()
            },
            Some(_) => {
                &&& r is Ok
                &&& post.accessor_spec().raw().store_view() == store_after(
                    pre.accessor_spec().raw().store_view(),
                    pre.accessor_spec().raw().gens(),
                    req.data_address.digest@,
                )
            },
        })
    })
}

/// Orchestrates one recursive resolution: one accessor for the whole
/// call tree, and one owned output buffer that leaf bytes append to.
pub struct ReadContext<S: Store, D: Decrypter, C: Compression> {
    accessor: ChunkAccessor<S, D, C>,
    output: Vec<u8>,
}

impl<S: Store, D: Decrypter, C: Compression> ReadContext<S, D, C> {
    pub closed spec fn accessor_spec(&self) -> ChunkAccessor<S, D, C> {
        self.accessor
    }

    /// Everything resolved into the output buffer so far.
    pub closed spec fn out(&self) -> Seq<u8> {
        self.output@
    }

    pub open spec fn wf(&self) -> bool {
        self.accessor_spec().wf()
    }

    pub fn new(accessor: ChunkAccessor<S, D, C>) -> (r: Self)
        requires
            accessor.wf(),
        ensures
            r.wf(),
            r.accessor_spec() == accessor,
            r.out() == Seq::<u8>::empty(),
    {
        let r = ReadContext { accessor, output: Vec::new() };
        proof {
            assert(r.out() =~= Seq::<u8>::empty());
        }
        r
    }

    /// The resolved output gathered so far.
    pub fn output(&self) -> (r: &Vec<u8>)
        ensures
            r@ == self.out(),
    {
        &self.output
    }

    /// Tear down the context: the accessor (with whatever it collected)
    /// and the resolved output.
    pub fn into_parts(self) -> (r: (ChunkAccessor<S, D, C>, Vec<u8>))
        ensures
            r.0 == self.accessor_spec(),
            r.1@ == self.out(),
    {
        (self.accessor, self.output)
    }

    /// Resolve a leaf: deliver its verified bytes, or, without output,
    /// only touch it — no content is read or verified then.
    fn on_data(&mut self, req: &ReadRequest) -> (r: Result<(), Error>)
        requires
            old(self).wf(),
            req.data_address.index_level == 0,
        ensures
            walk_post(*old(self), *final(self), *req, r),
        decreases req.data_address.index_level, 0int,
    {
        if req.with_output {
            let r = self.accessor.read_chunk_into(
                req.data_address.digest.as_slice(),
                req.data_type,
                &mut self.output,
            );
            proof {
                let d = req.data_address.digest@;
                let acc0 = old(self).accessor_spec();
                let v0 = acc0.raw().store_view();
                let gens = acc0.raw().gens();
                let policy = acc0.raw().policy_spec();
                let dec = acc0.raw().decrypter_spec();
                let comp = acc0.raw().compression_spec();
                let o = acc0.raw().outcome_now(d, req.data_type);
                if !acc0.is_verifying() {
                    crate::accessor::lemma_store_after_preserves(
                        v0,
                        self.accessor_spec().raw().store_view(),
                        gens,
                        d,
                        policy,
                        dec,
                        comp,
                    );
                    if r is Ok {
                        crate::accessor::lemma_outcome_no_chunk(
                            v0,
                            gens,
                            d,
                            req.data_type,
                            policy,
                            dec,
                            comp,
                        );
                        crate::accessor::lemma_promotion(v0, gens, d);
                    }
                    match o {
                        ChunkOutcome::Delivered(p) => {
                            assert(self.out().skip(old(self).out().len() as int) =~= p);
                        },
                        _ => {},
                    }
                } else {
                    if !acc0.scanned().contains(d) {
                        crate::accessor::lemma_store_after_preserves(
                            v0,
                            self.accessor_spec().raw().store_view(),
                            gens,
                            d,
                            policy,
                            dec,
                            comp,
                        );
                    }
                }
                assert(old(self).out().is_prefix_of(self.out())) by {
                    assert(self.out().take(old(self).out().len() as int) =~= old(self).out());
                }
                self.lemma_leaf_visit(*old(self), *req, r);
            }
            r
        } else {
            let r = self.accessor.touch(req.data_address.digest.as_slice());
            proof {
                let d = req.data_address.digest@;
                let acc0 = old(self).accessor_spec();
                if acc0 is GenerationUpdate {
                    let v0 = acc0.raw().store_view();
                    let gens = acc0.raw().gens();
                    if gen_lookup(v0, gens, d) is Some {
                        crate::accessor::lemma_store_after_preserves(
                            v0,
                            self.accessor_spec().raw().store_view(),
                            gens,
                            d,
                            acc0.raw().policy_spec(),
                            acc0.raw().decrypter_spec(),
                            acc0.raw().compression_spec(),
                        );
                        crate::accessor::lemma_promotion(v0, gens, d);
                    }
                }
                self.lemma_leaf_visit(*old(self), *req, r);
            }
            r
        }
    }

    /// A leaf visit by a Recording walk adds exactly the leaf's digest.
    proof fn lemma_leaf_visit(&self, pre: Self, req: ReadRequest, r: Result<(), Error>)
        requires
            req.data_address.index_level == 0,
            pre.accessor_spec() is Recording ==> self.accessor_spec().recorded()
                == pre.accessor_spec().recorded().insert(req.data_address.digest@),
        ensures
            pre.accessor_spec() is Recording && r is Ok ==> exists|v: Set<Seq<u8>>|
                {
                    &&& #[trigger] walk_visits(
                        req.data_address.digest@,
                        req.data_address.index_level as nat,
                        v,
                    )
                    &&& self.accessor_spec().recorded() == pre.accessor_spec().recorded().union(v)
                },
    {
        if pre.accessor_spec() is Recording && r is Ok {
            let d = req.data_address.digest@;
            let v = Set::<Seq<u8>>::empty().insert(d);
            assert(walk_visits(d, 0, v));
            assert(self.accessor_spec().recorded() =~= pre.accessor_spec().recorded().union(v));
        }
    }

    /// Resolve an index chunk: read its content (as index data), divide
    /// it into digest records, and resolve each record one level down,
    /// in record order. Content that does not divide into whole records
    /// is truncated or malformed, a hard error.
    fn on_index(&mut self, req: &ReadRequest) -> (r: Result<(), Error>)
        requires
            old(self).wf(),
            req.data_address.index_level > 0,
        ensures
            walk_post(*old(self), *final(self), *req, r),
        decreases req.data_address.index_level, 0int,
    {
        let ghost d = req.data_address.digest@;
        let ghost level = req.data_address.index_level as nat;
        let ghost lvl1: nat = (level - 1) as nat;
        let ghost acc0 = old(self).accessor_spec();
        let ghost v0 = acc0.raw().store_view();
        let ghost gens0 = acc0.raw().gens();
        let ghost pol = acc0.raw().policy_spec();
        let ghost dcr = acc0.raw().decrypter_spec();
        let ghost cmp = acc0.raw().compression_spec();
        let ghost probe = acc0.probes_leaves();

        let mut content: Vec<u8> = Vec::new();
        let r0 = self.accessor.read_chunk_into(
            req.data_address.digest.as_slice(),
            DataType::Index,
            &mut content,
        );
        match r0 {
            Err(e) => {
                proof {
                    assert(old(self).out().is_prefix_of(self.out())) by {
                        assert(self.out().take(old(self).out().len() as int) =~= old(self).out());
                    }
                    if !acc0.is_verifying() {
                        crate::accessor::lemma_store_after_preserves(
                            v0,
                            self.accessor_spec().raw().store_view(),
                            gens0,
                            d,
                            pol,
                            dcr,
                            cmp,
                        );
                        assert(acc0.walk_failure_of(*req) matches Some(WalkFailure::Chunk(xd, o))
                            && xd == d && o == chunk_outcome(
                            v0,
                            gens0,
                            d,
                            DataType::Index,
                            pol,
                            dcr,
                            cmp,
                        ));
                    }
                }
                return Err(e);
            },
            Ok(()) => {},
        }
        let ghost c = content@;
        proof {
            crate::accessor::lemma_outcome_no_chunk(v0, gens0, d, DataType::Index, pol, dcr, cmp);
            if !acc0.is_verifying() {
                assert(digest_of(c) == d);
                assert(chunk_outcome(v0, gens0, d, DataType::Index, pol, dcr, cmp)
                    == ChunkOutcome::Delivered(c));
                crate::accessor::lemma_store_after_preserves(
                    v0,
                    self.accessor_spec().raw().store_view(),
                    gens0,
                    d,
                    pol,
                    dcr,
                    cmp,
                );
                crate::accessor::lemma_promotion(v0, gens0, d);
            } else {
                assert(c == Seq::<u8>::empty() || (chunk_outcome(
                    v0,
                    gens0,
                    d,
                    DataType::Index,
                    pol,
                    dcr,
                    cmp,
                ) matches ChunkOutcome::Delivered(p) && c == p));
                if !acc0.scanned().contains(d) {
                    crate::accessor::lemma_store_after_preserves(
                        v0,
                        self.accessor_spec().raw().store_view(),
                        gens0,
                        d,
                        pol,
                        dcr,
                        cmp,
                    );
                }
            }
        }

        let mut translator = IndexTranslator::new();
        let records: Vec<Vec<u8>> = if content.len() > 0 {
            translator.write(content.as_slice())
        } else {
            Vec::new()
        };
        let ghost rec_views = records@.map_values(|v: Vec<u8>| v@);
        proof {
            if content@.len() > 0 {
                assert(Seq::<u8>::empty() + content@ =~= content@);
            } else {
                assert(rec_views =~= complete_records(c));
                assert(translator.buffered() =~= record_rem(c));
            }
        }

        let ghost out0 = self.out();
        let ghost rec1 = self.accessor_spec().recorded();
        let ghost mut parts: Seq<Seq<u8>> = Seq::empty();
        let ghost mut vsets: Seq<Set<Seq<u8>>> = Seq::empty();
        let mut k: usize = 0;
        proof {
            if old(self).accessor_spec() is Recording {
                assert(rec1 =~= old(self).accessor_spec().recorded().insert(d).union(
                    union_all(vsets),
                ));
            }
        }
        while k < records.len()
            invariant
                self.wf(),
                old(self).wf(),
                req.data_address.index_level > 0,
                d == req.data_address.digest@,
                level == req.data_address.index_level as nat,
                lvl1 == (level - 1) as nat,
                acc0 == old(self).accessor_spec(),
                v0 == acc0.raw().store_view(),
                gens0 == acc0.raw().gens(),
                pol == acc0.raw().policy_spec(),
                dcr == acc0.raw().decrypter_spec(),
                cmp == acc0.raw().compression_spec(),
                probe == acc0.probes_leaves(),
                same_outcomes(v0, self.accessor_spec().raw().store_view(), gens0, pol, dcr, cmp),
                crate::accessor::cur_preserved(
                    v0,
                    self.accessor_spec().raw().store_view(),
                    gens0.last(),
                ),
                !acc0.is_verifying() ==> {
                    &&& chunk_outcome(v0, gens0, d, DataType::Index, pol, dcr, cmp)
                        == ChunkOutcome::Delivered(c)
                    &&& self.accessor_spec().raw().store_view().contains_key(
                        (gens0.last() as int, d),
                    )
                    &&& (forall|j: int|
                        0 <= j < k ==> walk_failure(
                            v0,
                            gens0,
                            #[trigger] rec_views[j],
                            lvl1,
                            req.data_type,
                            pol,
                            dcr,
                            cmp,
                            req.with_output,
                            probe,
                        ) is None)
                    &&& (req.with_output ==> forall|j: int|
                        0 <= j < k ==> parts[j] == walk_output(
                            v0,
                            gens0,
                            #[trigger] rec_views[j],
                            lvl1,
                            req.data_type,
                            pol,
                            dcr,
                            cmp,
                        ))
                },
                acc0.is_verifying() ==> (c == Seq::<u8>::empty() || (chunk_outcome(
                    v0,
                    gens0,
                    d,
                    DataType::Index,
                    pol,
                    dcr,
                    cmp,
                ) matches ChunkOutcome::Delivered(p) && c == p)),
                ChunkAccessor::same_setup(old(self).accessor_spec(), self.accessor_spec()),
                rec_views == records@.map_values(|v: Vec<u8>| v@),
                rec_views == complete_records(c),
                0 <= k <= records@.len(),
                parts.len() == k,
                req.with_output ==> self.out() == out0 + parts.flatten(),
                !req.with_output ==> self.out() == out0,
                out0.is_prefix_of(self.out()),
                out0 == old(self).out(),
                !old(self).accessor_spec().is_verifying() ==> forall|j: int|
                    0 <= j < k ==> {
                        &&& (req.with_output ==> resolves_to(
                            #[trigger] rec_views[j],
                            (req.data_address.index_level - 1) as nat,
                            parts[j],
                        ))
                        &&& (!req.with_output ==> index_resolvable(
                            rec_views[j],
                            (req.data_address.index_level - 1) as nat,
                        ))
                    },
                old(self).accessor_spec().is_verifying() ==> {
                    &&& old(self).accessor_spec().errors_spec().is_prefix_of(
                        self.accessor_spec().errors_spec(),
                    )
                    &&& old(self).accessor_spec().scanned().subset_of(
                        self.accessor_spec().scanned(),
                    )
                },
                old(self).accessor_spec() is Recording ==> {
                    &&& old(self).accessor_spec().recorded().subset_of(
                        self.accessor_spec().recorded(),
                    )
                    &&& self.accessor_spec().recorded().contains(d)
                },
                vsets.len() == k,
                old(self).accessor_spec() is Recording ==> {
                    &&& (forall|j: int|
                        0 <= j < k ==> walk_visits(
                            #[trigger] rec_views[j],
                            (req.data_address.index_level - 1) as nat,
                            vsets[j],
                        ))
                    &&& self.accessor_spec().recorded() == old(
                        self,
                    ).accessor_spec().recorded().insert(d).union(union_all(vsets))
                },
            decreases records@.len() - k,
        {
            let child = &records[k];
            let child_digest = crate::hashing::copy_bytes(child.as_slice());
            let child_req = ReadRequest {
                data_type: req.data_type,
                data_address: DataAddress {
                    digest: child_digest,
                    index_level: req.data_address.index_level - 1,
                },
                with_output: req.with_output,
            };
            let ghost snap = *self;
            let res = self.read_recursively(&child_req);
            match res {
                Err(e) => {
                    proof {
                        assert(old(self).out().is_prefix_of(self.out())) by {
                            assert(self.out().take(old(self).out().len() as int) =~= old(
                                self,
                            ).out());
                        }
                        let vs = snap.accessor_spec().raw().store_view();
                        let vn = self.accessor_spec().raw().store_view();
                        assert(snap.accessor_spec().walk_failure_of(child_req) == walk_failure(
                            vs,
                            gens0,
                            rec_views[k as int],
                            lvl1,
                            req.data_type,
                            pol,
                            dcr,
                            cmp,
                            req.with_output,
                            probe,
                        ));
                        lemma_walk_frame(
                            v0,
                            vs,
                            gens0,
                            rec_views[k as int],
                            lvl1,
                            req.data_type,
                            pol,
                            dcr,
                            cmp,
                            req.with_output,
                            probe,
                        );
                        assert forall|x: Seq<u8>, t: DataType| #[trigger] chunk_outcome(
                            vn,
                            gens0,
                            x,
                            t,
                            pol,
                            dcr,
                            cmp,
                        ) == chunk_outcome(v0, gens0, x, t, pol, dcr, cmp) by {
                            assert(chunk_outcome(vn, gens0, x, t, pol, dcr, cmp)
                                == chunk_outcome(vs, gens0, x, t, pol, dcr, cmp));
                            assert(chunk_outcome(vs, gens0, x, t, pol, dcr, cmp)
                                == chunk_outcome(v0, gens0, x, t, pol, dcr, cmp));
                        }
                        assert forall|x: Seq<u8>|
                            v0.contains_key((gens0.last() as int, x)) implies #[trigger]
                            vn.contains_key((gens0.last() as int, x)) by {
                            assert(vs.contains_key((gens0.last() as int, x)));
                        }
                        if !acc0.is_verifying() {
                            lemma_children_failure_at(
                                v0,
                                gens0,
                                rec_views,
                                lvl1,
                                req.data_type,
                                pol,
                                dcr,
                                cmp,
                                req.with_output,
                                probe,
                                k as int,
                            );
                            if req.with_output {
                                assert(snap.accessor_spec().walk_partial_of(child_req)
                                    == walk_partial_output(
                                    vs,
                                    gens0,
                                    rec_views[k as int],
                                    lvl1,
                                    req.data_type,
                                    pol,
                                    dcr,
                                    cmp,
                                    req.with_output,
                                    probe,
                                ));
                                lemma_children_partial_at(
                                    v0,
                                    gens0,
                                    rec_views,
                                    lvl1,
                                    req.data_type,
                                    pol,
                                    dcr,
                                    cmp,
                                    req.with_output,
                                    probe,
                                    k as int,
                                );
                                assert forall|j: int|
                                    0 <= j < k implies #[trigger] parts[j] == walk_output(
                                    v0,
                                    gens0,
                                    rec_views.take(k as int)[j],
                                    lvl1,
                                    req.data_type,
                                    pol,
                                    dcr,
                                    cmp,
                                ) by {
                                    assert(rec_views.take(k as int)[j] == rec_views[j]);
                                }
                                lemma_children_output_concat(
                                    v0,
                                    gens0,
                                    rec_views.take(k as int),
                                    parts,
                                    lvl1,
                                    req.data_type,
                                    pol,
                                    dcr,
                                    cmp,
                                );
                                let partk = walk_partial_output(
                                    v0,
                                    gens0,
                                    rec_views[k as int],
                                    lvl1,
                                    req.data_type,
                                    pol,
                                    dcr,
                                    cmp,
                                    req.with_output,
                                    probe,
                                );
                                assert(self.out() =~= snap.out() + partk) by {
                                    assert(self.out().take(snap.out().len() as int)
                                        =~= snap.out());
                                }
                                assert(self.out() =~= old(self).out()
                                    + acc0.walk_partial_of(*req)) by {
                                    assert(snap.out() == out0 + parts.flatten());
                                    assert(acc0.walk_partial_of(*req) == parts.flatten() + partk);
                                    assert((out0 + parts.flatten()) + partk =~= out0
                                        + (parts.flatten() + partk));
                                }
                            }
                            assert(acc0.walk_failure_of(*req) == walk_failure(
                                v0,
                                gens0,
                                rec_views[k as int],
                                lvl1,
                                req.data_type,
                                pol,
                                dcr,
                                cmp,
                                req.with_output,
                                probe,
                            ));
                        }
                        if acc0.is_verifying() && acc0.verify_ok_of(*req) {
                            assert(c.len() >= 32) by {
                                assert(complete_records(c).len() > 0);
                            }
                            assert(chunk_outcome(v0, gens0, d, DataType::Index, pol, dcr, cmp)
                                matches ChunkOutcome::Delivered(p) && c == p);
                            assert(verify_ok(v0, gens0, rec_views[k as int], lvl1, pol, dcr, cmp));
                            assert(verify_ok(vs, gens0, rec_views[k as int], lvl1, pol, dcr, cmp));
                            assert(snap.accessor_spec().verify_ok_of(child_req));
                            assert(false);
                        }
                        if old(self).accessor_spec().is_verifying() {
                            assert(old(self).accessor_spec().errors_spec().is_prefix_of(
                                self.accessor_spec().errors_spec(),
                            )) by {
                                let e0 = old(self).accessor_spec().errors_spec();
                                let e2 = self.accessor_spec().errors_spec();
                                assert(e2.take(e0.len() as int) =~= e0);
                            }
                        }
                    }
                    return Err(e);
                },
                Ok(()) => {},
            }
            proof {
                let delta = self.out().skip(snap.out().len() as int);
                let vs = snap.accessor_spec().raw().store_view();
                let vn = self.accessor_spec().raw().store_view();
                assert(snap.accessor_spec().walk_failure_of(child_req) == walk_failure(
                    vs,
                    gens0,
                    rec_views[k as int],
                    lvl1,
                    req.data_type,
                    pol,
                    dcr,
                    cmp,
                    req.with_output,
                    probe,
                ));
                assert(snap.accessor_spec().walk_output_of(child_req) == walk_output(
                    vs,
                    gens0,
                    rec_views[k as int],
                    lvl1,
                    req.data_type,
                    pol,
                    dcr,
                    cmp,
                ));
                lemma_walk_frame(
                    v0,
                    vs,
                    gens0,
                    rec_views[k as int],
                    lvl1,
                    req.data_type,
                    pol,
                    dcr,
                    cmp,
                    req.with_output,
                    probe,
                );
                assert forall|x: Seq<u8>, t: DataType| #[trigger] chunk_outcome(
                    vn,
                    gens0,
                    x,
                    t,
                    pol,
                    dcr,
                    cmp,
                ) == chunk_outcome(v0, gens0, x, t, pol, dcr, cmp) by {
                    assert(chunk_outcome(vn, gens0, x, t, pol, dcr, cmp) == chunk_outcome(
                        vs,
                        gens0,
                        x,
                        t,
                        pol,
                        dcr,
                        cmp,
                    ));
                    assert(chunk_outcome(vs, gens0, x, t, pol, dcr, cmp) == chunk_outcome(
                        v0,
                        gens0,
                        x,
                        t,
                        pol,
                        dcr,
                        cmp,
                    ));
                }
                assert forall|x: Seq<u8>|
                    v0.contains_key((gens0.last() as int, x)) implies #[trigger] vn.contains_key(
                    (gens0.last() as int, x),
                ) by {
                    assert(vs.contains_key((gens0.last() as int, x)));
                }
                if !acc0.is_verifying() {
                    assert(self.accessor_spec().raw().store_view().contains_key(
                        (gens0.last() as int, d),
                    )) by {
                        assert(vs.contains_key((gens0.last() as int, d)));
                    }
                }
                let parts_before = parts;
                parts = parts.push(delta);
                let vsets_before = vsets;
                if old(self).accessor_spec() is Recording {
                    let child_level = (req.data_address.index_level - 1) as nat;
                    let vk = choose|v: Set<Seq<u8>>|
                        {
                            &&& #[trigger] walk_visits(rec_views[k as int], child_level, v)
                            &&& self.accessor_spec().recorded()
                                == snap.accessor_spec().recorded().union(v)
                        };
                    vsets = vsets.push(vk);
                    assert(vsets.drop_last() =~= vsets_before);
                    assert(union_all(vsets) == union_all(vsets_before).union(vk));
                    assert(self.accessor_spec().recorded() =~= old(
                        self,
                    ).accessor_spec().recorded().insert(d).union(union_all(vsets)));
                } else {
                    vsets = vsets.push(Set::empty());
                    assert(vsets.drop_last() =~= vsets_before);
                }
                if req.with_output {
                    assert(self.out() =~= out0 + parts.flatten()) by {
                        assert(snap.out() == out0 + parts_before.flatten());
                        assert(self.out() =~= snap.out() + delta) by {
                            assert(self.out().take(snap.out().len() as int) =~= snap.out());
                        }
                        parts_before.lemma_flatten_push(delta);
                        assert(parts_before.push(delta).flatten() == parts_before.flatten()
                            + delta);
                    }
                }
                assert(out0.is_prefix_of(self.out())) by {
                    assert(self.out().take(out0.len() as int) =~= out0);
                }
                if old(self).accessor_spec().is_verifying() {
                    assert(old(self).accessor_spec().errors_spec().is_prefix_of(
                        self.accessor_spec().errors_spec(),
                    )) by {
                        let e0 = old(self).accessor_spec().errors_spec();
                        assert(self.accessor_spec().errors_spec().take(e0.len() as int) =~= e0);
                    }
                }
            }
            k += 1;
        }

        if translator.buffered_len() > 0 {
            proof {
                assert(old(self).out().is_prefix_of(self.out())) by {
                    assert(self.out().take(old(self).out().len() as int) =~= old(self).out());
                }
                assert(c.len() % 32 != 0) by {
                    assert(record_rem(c).len() == c.len() - 32 * (c.len() as int / 32));
                }
                assert(c.len() > 0);
                if !acc0.is_verifying() {
                    lemma_children_failure_none(
                        v0,
                        gens0,
                        rec_views,
                        lvl1,
                        req.data_type,
                        pol,
                        dcr,
                        cmp,
                        req.with_output,
                        probe,
                    );
                    assert(acc0.walk_failure_of(*req) == Some(WalkFailure::Truncated(d)));
                    if req.with_output {
                        lemma_children_partial_none(
                            v0,
                            gens0,
                            rec_views,
                            lvl1,
                            req.data_type,
                            pol,
                            dcr,
                            cmp,
                            req.with_output,
                            probe,
                        );
                        lemma_children_output_concat(
                            v0,
                            gens0,
                            rec_views,
                            parts,
                            lvl1,
                            req.data_type,
                            pol,
                            dcr,
                            cmp,
                        );
                        assert(self.out() == old(self).out() + acc0.walk_partial_of(*req));
                    }
                }
                if acc0.is_verifying() && acc0.verify_ok_of(*req) {
                    assert(chunk_outcome(v0, gens0, d, DataType::Index, pol, dcr, cmp)
                        matches ChunkOutcome::Delivered(p) && c == p);
                    assert(false);
                }
            }
            return Err(Error::TruncatedIndex);
        }

        proof {
            if !old(self).accessor_spec().is_verifying() {
                assert(c.len() % 32 == 0) by {
                    assert(record_rem(c).len() == 0);
                }
                assert(parts.len() == complete_records(c).len());
                if req.with_output {
                    assert(resolves_to(d, level, parts.flatten())) by {
                        assert(forall|i: int|
                            0 <= i < parts.len() ==> resolves_to(
                                complete_records(c)[i],
                                (level - 1) as nat,
                                parts[i],
                            ));
                        assert(digest_of(c) == d && c.len() % 32 == 0 && parts.len()
                            == complete_records(c).len());
                    }
                    assert(self.out().skip(old(self).out().len() as int) =~= parts.flatten()) by {
                        assert(out0 == old(self).out());
                        assert(self.out() == out0 + parts.flatten());
                    }
                } else {
                    assert(index_resolvable(d, level)) by {
                        assert(forall|i: int|
                            0 <= i < complete_records(c).len() ==> index_resolvable(
                                complete_records(c)[i],
                                (level - 1) as nat,
                            ));
                        assert(digest_of(c) == d && c.len() % 32 == 0);
                    }
                }
            }
            assert(old(self).out().is_prefix_of(self.out())) by {
                assert(self.out().take(old(self).out().len() as int) =~= old(self).out());
            }
            if !acc0.is_verifying() {
                assert(c.len() % 32 == 0) by {
                    assert(record_rem(c).len() == 0);
                    assert(record_rem(c).len() == c.len() - 32 * (c.len() as int / 32));
                }
                lemma_children_failure_none(
                    v0,
                    gens0,
                    rec_views,
                    lvl1,
                    req.data_type,
                    pol,
                    dcr,
                    cmp,
                    req.with_output,
                    probe,
                );
                assert(acc0.walk_failure_of(*req) is None);
                if req.with_output {
                    lemma_children_output_concat(
                        v0,
                        gens0,
                        rec_views,
                        parts,
                        lvl1,
                        req.data_type,
                        pol,
                        dcr,
                        cmp,
                    );
                    assert(acc0.walk_output_of(*req) == walk_children_output(
                        v0,
                        gens0,
                        rec_views,
                        lvl1,
                        req.data_type,
                        pol,
                        dcr,
                        cmp,
                    ));
                    assert(self.out() == old(self).out() + acc0.walk_output_of(*req));
                }
            }
            if old(self).accessor_spec() is Recording {
                assert(c.len() % 32 == 0) by {
                    assert(record_rem(c).len() == 0);
                }
                let v = union_all(vsets).insert(d);
                assert(walk_visits(d, level, v)) by {
                    assert(digest_of(c) == d && c.len() % 32 == 0 && vsets.len()
                        == complete_records(c).len());
                    assert(forall|i: int|
                        0 <= i < vsets.len() ==> walk_visits(
                            complete_records(c)[i],
                            (level - 1) as nat,
                            vsets[i],
                        ));
                }
                assert(self.accessor_spec().recorded() =~= old(
                    self,
                ).accessor_spec().recorded().union(v));
            }
        }
        Ok(())
    }

    /// Resolve one request, recursing through index levels down to the
    /// leaves: the heart of the read engine.
    pub fn read_recursively(&mut self, req: &ReadRequest) -> (r: Result<(), Error>)
        requires
            old(self).wf(),
        ensures
            walk_post(*old(self), *final(self), *req, r),
        decreases req.data_address.index_level, 1int,
    {
        if req.data_address.index_level == 0 {
            self.on_data(req)
        } else {
            self.on_index(req)
        }
    }
}

/// A leaf chunk resolves to exactly the bytes it was written with:
/// writing one chunk and resolving its digest at level 0 is the
/// identity on content.
pub proof fn lemma_leaf_round_trip(content: Seq<u8>)
    ensures
        resolves_to(digest_of(content), 0, content),
{
}

/// An index chunk that references the same leaf digest twice is walked
/// to a visit set holding that digest exactly once: together with the
/// Recording guarantee of [`ReadContext::read_recursively`], the
/// reachable set a Recording walk accumulates holds each digest once,
/// however often the tree references it.
pub proof fn lemma_duplicate_reference_visited_once(x: Seq<u8>, c: Seq<u8>)
    requires
        c == x + x,
        x.len() == 32,
    ensures
        walk_visits(digest_of(c), 1, Set::empty().insert(x).insert(digest_of(c))),
{
    let d = digest_of(c);
    let vs = seq![Set::<Seq<u8>>::empty().insert(x), Set::<Seq<u8>>::empty().insert(x)];
    assert(c.len() == 64);
    assert(complete_records(c).len() == 2);
    assert(complete_records(c)[0] =~= x);
    assert(complete_records(c)[1] =~= x);
    assert(forall|i: int| 0 <= i < vs.len() ==> walk_visits(complete_records(c)[i], 0, vs[i]));
    let v1 = vs.drop_last();
    assert(v1.drop_last() =~= Seq::<Set<Seq<u8>>>::empty());
    assert(union_all(v1.drop_last()) =~= Set::<Seq<u8>>::empty());
    assert(union_all(v1) =~= Set::<Seq<u8>>::empty().insert(x));
    assert(union_all(vs) =~= Set::empty().insert(x));
    assert(union_all(vs).insert(d) =~= Set::empty().insert(x).insert(d));
    assert(digest_of(c) == d && c.len() % 32 == 0 && vs.len() == complete_records(c).len());
}

/// An index chunk whose records each resolve one level down resolves
/// to the concatenation of those resolutions, in record order — for any
/// record count and any level above 0.
pub proof fn lemma_index_concatenation(c: Seq<u8>, parts: Seq<Seq<u8>>, level: nat)
    requires
        level > 0,
        c.len() % 32 == 0,
        parts.len() == complete_records(c).len(),
        forall|i: int|
            0 <= i < parts.len() ==> resolves_to(
                complete_records(c)[i],
                (level - 1) as nat,
                parts[i],
            ),
    ensures
        resolves_to(digest_of(c), level, parts.flatten()),
{
}

} // verus!
