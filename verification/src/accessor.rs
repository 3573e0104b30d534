//! The four chunk-access strategies of the read engine.
//!
//! [`DefaultChunkAccessor`] is the canonical reader: find the chunk in
//! the newest generation that holds it, promote it lazily to the current
//! generation, decode by policy, and verify its digest before a byte is
//! delivered. The other three wrap it: [`RecordingChunkAccessor`]
//! collects every visited digest for a GC mark phase,
//! [`VerifyingChunkAccessor`] checks each distinct digest once and
//! accumulates failures instead of aborting, and
//! [`GenerationUpdateChunkAccessor`] promotes chunks on touch from a
//! metadata probe alone, without materializing their bytes.

use vstd::prelude::*;

use crate::codec::{spec_decode, Compression, DataType, Decrypter, ReadPolicy};
use crate::digest_set::DigestSet;
use crate::errors::{Error, StoreError};
use crate::hashing::{bytes_eq, calculate_digest, copy_bytes, digest_of};
use crate::store::Store;

verus! {

/// The generation whose copy of `d` a search from newest to oldest finds.
pub open spec fn gen_lookup(
    v: Map<(int, Seq<u8>), Seq<u8>>,
    gens: Seq<u64>,
    d: Seq<u8>,
) -> Option<u64>
    decreases gens.len(),
{
    if gens.len() == 0 {
        None
    } else if v.contains_key((gens.last() as int, d)) {
        Some(gens.last())
    } else {
        gen_lookup(v, gens.drop_last(), d)
    }
}

/// The store after the lazy promotion a read or touch of `d` performs:
/// the first-found copy moves under the current (last) generation.
pub open spec fn store_after(
    v: Map<(int, Seq<u8>), Seq<u8>>,
    gens: Seq<u64>,
    d: Seq<u8>,
) -> Map<(int, Seq<u8>), Seq<u8>> {
    match gen_lookup(v, gens, d) {
        None => v,
        Some(g) => if g == gens.last() {
            v
        } else {
            v.remove((g as int, d)).insert((gens.last() as int, d), v[(g as int, d)])
        },
    }
}

/// What one attempt to read and verify the chunk `d` comes to.
pub enum ChunkOutcome {
    /// The verified plaintext, ready for the caller's writer.
    Delivered(Seq<u8>),
    /// No generation holds the digest.
    NoChunk,
    /// The policy asks for decryption and no decrypter is at hand.
    NoDecrypter,
    /// The decrypter rejected the stored bytes.
    BadDecrypt,
    /// The decompressor rejected the bytes.
    BadDecompress,
    /// The recovered bytes hash to the carried digest, not the requested.
    Mismatch(Seq<u8>),
}

/// The outcome of a Default read of `digest`, over the store contents,
/// the generation list and the decode configuration.
pub open spec fn chunk_outcome<D: Decrypter, C: Compression>(
    v: Map<(int, Seq<u8>), Seq<u8>>,
    gens: Seq<u64>,
    digest: Seq<u8>,
    data_type: DataType,
    policy: ReadPolicy,
    decrypter: Option<D>,
    compression: C,
) -> ChunkOutcome {
    match gen_lookup(v, gens, digest) {
        None => ChunkOutcome::NoChunk,
        Some(g) => match spec_decode(
            v[(g as int, digest)],
            digest,
            data_type,
            policy,
            decrypter,
            compression,
        ) {
            Err(Error::MissingDecrypter) => ChunkOutcome::NoDecrypter,
            Err(Error::DecryptFailed) => ChunkOutcome::BadDecrypt,
            Err(_) => ChunkOutcome::BadDecompress,
            Ok(p) => if digest_of(p) == digest {
                ChunkOutcome::Delivered(p)
            } else {
                ChunkOutcome::Mismatch(digest_of(p))
            },
        },
    }
}

/// Whether `e` is the error a failing outcome is reported as.
pub open spec fn outcome_error(o: ChunkOutcome, e: Error, requested: Seq<u8>) -> bool {
    match o {
        ChunkOutcome::Delivered(_) => false,
        ChunkOutcome::NoChunk => e matches Error::NotFound { digest } && digest@ == requested,
        ChunkOutcome::NoDecrypter => e == Error::MissingDecrypter,
        ChunkOutcome::BadDecrypt => e == Error::DecryptFailed,
        ChunkOutcome::BadDecompress => e == Error::DecompressFailed,
        ChunkOutcome::Mismatch(a) => e matches Error::Corrupted { expected, actual }
            && expected@ == requested && actual@ == a,
    }
}

proof fn lemma_gen_lookup_found(
    v: Map<(int, Seq<u8>), Seq<u8>>,
    gens: Seq<u64>,
    d: Seq<u8>,
    i: int,
)
    requires
        0 <= i < gens.len(),
        v.contains_key((gens[i] as int, d)),
        forall|j: int| i < j < gens.len() ==> !v.contains_key((gens[j] as int, d)),
    ensures
        gen_lookup(v, gens, d) == Some(gens[i]),
    decreases gens.len(),
{
    if i == gens.len() - 1 {
    } else {
        assert(!v.contains_key((gens.last() as int, d)));
        assert(gens.drop_last()[i] == gens[i]);
        assert forall|j: int| i < j < gens.drop_last().len() implies !v.contains_key(
            (gens.drop_last()[j] as int, d),
        ) by {
            assert(gens.drop_last()[j] == gens[j]);
        }
        lemma_gen_lookup_found(v, gens.drop_last(), d, i);
    }
}

proof fn lemma_gen_lookup_none(v: Map<(int, Seq<u8>), Seq<u8>>, gens: Seq<u64>, d: Seq<u8>)
    requires
        forall|j: int| 0 <= j < gens.len() ==> !v.contains_key((gens[j] as int, d)),
    ensures
        gen_lookup(v, gens, d) is None,
    decreases gens.len(),
{
    if gens.len() > 0 {
        assert(!v.contains_key((gens.last() as int, d)));
        assert forall|j: int| 0 <= j < gens.drop_last().len() implies !v.contains_key(
            (gens.drop_last()[j] as int, d),
        ) by {
            assert(gens.drop_last()[j] == gens[j]);
        }
        lemma_gen_lookup_none(v, gens.drop_last(), d);
    }
}

/// The chunk whose outcome the search determines is never changed by a
/// promotion: moving any chunk's first-found copy under the current
/// generation leaves every digest's read outcome as it was.
pub open spec fn same_outcomes<D: Decrypter, C: Compression>(
    v0: Map<(int, Seq<u8>), Seq<u8>>,
    v1: Map<(int, Seq<u8>), Seq<u8>>,
    gens: Seq<u64>,
    policy: ReadPolicy,
    decrypter: Option<D>,
    compression: C,
) -> bool {
    forall|x: Seq<u8>, t: DataType|
        #[trigger] chunk_outcome(v1, gens, x, t, policy, decrypter, compression) == chunk_outcome(
            v0,
            gens,
            x,
            t,
            policy,
            decrypter,
            compression,
        )
}

/// A chunk standing under `cur` keeps standing there.
pub open spec fn cur_preserved(
    v0: Map<(int, Seq<u8>), Seq<u8>>,
    v1: Map<(int, Seq<u8>), Seq<u8>>,
    cur: u64,
) -> bool {
    forall|x: Seq<u8>|
        v0.contains_key((cur as int, x)) ==> #[trigger] v1.contains_key((cur as int, x))
}

/// The outcome is `NoChunk` exactly when no generation holds the digest.
pub proof fn lemma_outcome_no_chunk<D: Decrypter, C: Compression>(
    v: Map<(int, Seq<u8>), Seq<u8>>,
    gens: Seq<u64>,
    d: Seq<u8>,
    data_type: DataType,
    policy: ReadPolicy,
    decrypter: Option<D>,
    compression: C,
)
    ensures
        chunk_outcome(v, gens, d, data_type, policy, decrypter, compression)
            is NoChunk <==> gen_lookup(v, gens, d) is None,
{
}

proof fn lemma_gen_lookup_agree(
    v0: Map<(int, Seq<u8>), Seq<u8>>,
    v1: Map<(int, Seq<u8>), Seq<u8>>,
    gens: Seq<u64>,
    x: Seq<u8>,
)
    requires
        forall|j: int|
            0 <= j < gens.len() ==> (v0.contains_key((#[trigger] gens[j] as int, x))
                <==> v1.contains_key((gens[j] as int, x))),
        forall|j: int|
            0 <= j < gens.len() && v0.contains_key((#[trigger] gens[j] as int, x)) ==> v1[(
                gens[j] as int,
                x,
            )] == v0[(gens[j] as int, x)],
    ensures
        gen_lookup(v1, gens, x) == gen_lookup(v0, gens, x),
        gen_lookup(v0, gens, x) matches Some(g) ==> v1[(g as int, x)] == v0[(g as int, x)],
    decreases gens.len(),
{
    if gens.len() > 0 {
        assert(gens[gens.len() - 1] == gens.last());
        if !v0.contains_key((gens.last() as int, x)) {
            assert forall|j: int|
                0 <= j < gens.drop_last().len() implies (v0.contains_key(
                (#[trigger] gens.drop_last()[j] as int, x),
            ) <==> v1.contains_key((gens.drop_last()[j] as int, x))) by {
                assert(gens.drop_last()[j] == gens[j]);
            }
            assert forall|j: int|
                0 <= j < gens.drop_last().len() && v0.contains_key(
                    (#[trigger] gens.drop_last()[j] as int, x),
                ) implies v1[(gens.drop_last()[j] as int, x)] == v0[(
                gens.drop_last()[j] as int,
                x,
            )] by {
                assert(gens.drop_last()[j] == gens[j]);
            }
            lemma_gen_lookup_agree(v0, v1, gens.drop_last(), x);
        }
    }
}

/// Lazy promotion of any digest's first-found copy preserves the
/// outcome of every read, and every chunk already under the current
/// generation stays there.
pub proof fn lemma_store_after_preserves<D: Decrypter, C: Compression>(
    v: Map<(int, Seq<u8>), Seq<u8>>,
    v1: Map<(int, Seq<u8>), Seq<u8>>,
    gens: Seq<u64>,
    d0: Seq<u8>,
    policy: ReadPolicy,
    decrypter: Option<D>,
    compression: C,
)
    requires
        gens.len() > 0,
        v1 == store_after(v, gens, d0),
    ensures
        same_outcomes(v, v1, gens, policy, decrypter, compression),
        cur_preserved(v, v1, gens.last()),
{
    match gen_lookup(v, gens, d0) {
        None => {},
        Some(g) => {
            if g == gens.last() {
            } else {
                assert forall|x: Seq<u8>, t: DataType|
                    #[trigger] chunk_outcome(v1, gens, x, t, policy, decrypter, compression)
                        == chunk_outcome(v, gens, x, t, policy, decrypter, compression) by {
                    if x != d0 {
                        lemma_gen_lookup_agree(v, v1, gens, x);
                    } else {
                        lemma_gen_lookup_some_contains(v, gens, d0);
                        assert(v1.contains_key((gens.last() as int, d0)));
                        assert(gen_lookup(v1, gens, d0) == Some(gens.last()));
                        assert(v1[(gens.last() as int, d0)] == v[(g as int, d0)]);
                    }
                }
                assert forall|x: Seq<u8>|
                    v.contains_key((gens.last() as int, x)) implies #[trigger] v1.contains_key(
                    (gens.last() as int, x),
                ) by {
                    assert((gens.last() as int, x) != (g as int, d0));
                }
            }
        },
    }
}

proof fn lemma_gen_lookup_some_contains(v: Map<(int, Seq<u8>), Seq<u8>>, gens: Seq<u64>, d: Seq<u8>)
    requires
        gen_lookup(v, gens, d) is Some,
    ensures
        v.contains_key((gen_lookup(v, gens, d)->0 as int, d)),
    decreases gens.len(),
{
    if gens.len() > 0 && !v.contains_key((gens.last() as int, d)) {
        lemma_gen_lookup_some_contains(v, gens.drop_last(), d);
    }
}

/// Lazy generation promotion: once a read or touch has found the
/// digest anywhere, the chunk stands under the current generation, with
/// exactly the bytes found — this is how live chunks migrate forward so
/// that stale generations become disposable.
pub proof fn lemma_promotion(v: Map<(int, Seq<u8>), Seq<u8>>, gens: Seq<u64>, d: Seq<u8>)
    requires
        gens.len() > 0,
        gen_lookup(v, gens, d) is Some,
    ensures
        store_after(v, gens, d).contains_key((gens.last() as int, d)),
        store_after(v, gens, d)[(gens.last() as int, d)] == v[(
            gen_lookup(v, gens, d)->0 as int,
            d,
        )],
{
    lemma_gen_lookup_some_contains(v, gens, d);
}

/// Writing a chunk under any generation and reading it back with no
/// transform in the policy delivers exactly the written bytes: the
/// outcome of a Default read is `Delivered(content)` whenever some
/// generation holds `content` under its own digest.
pub proof fn lemma_plain_read_delivers<D: Decrypter, C: Compression>(
    v: Map<(int, Seq<u8>), Seq<u8>>,
    gens: Seq<u64>,
    content: Seq<u8>,
    data_type: DataType,
    policy: ReadPolicy,
    decrypter: Option<D>,
    compression: C,
)
    requires
        gen_lookup(v, gens, digest_of(content)) is Some,
        v[(gen_lookup(v, gens, digest_of(content))->0 as int, digest_of(content))] == content,
        !policy.spec_should_encrypt(data_type),
        !policy.spec_should_compress(data_type),
    ensures
        chunk_outcome(v, gens, digest_of(content), data_type, policy, decrypter, compression)
            == ChunkOutcome::Delivered(content),
{
}

/// The canonical accessor: reads, lazily promotes, decodes and verifies.
pub struct DefaultChunkAccessor<S: Store, D: Decrypter, C: Compression> {
    store: S,
    decrypter: Option<D>,
    compression: C,
    generations: Vec<u64>,
    policy: ReadPolicy,
}

impl<S: Store, D: Decrypter, C: Compression> DefaultChunkAccessor<S, D, C> {
    /// Well-formed: at least one generation is known; the last is current.
    pub open spec fn wf(&self) -> bool {
        self.gens().len() > 0
    }

    /// The contents of the backing store.
    pub closed spec fn store_view(&self) -> Map<(int, Seq<u8>), Seq<u8>> {
        self.store.view()
    }

    /// The known generations, oldest first, current last.
    pub closed spec fn gens(&self) -> Seq<u64> {
        self.generations@
    }

    pub closed spec fn policy_spec(&self) -> ReadPolicy {
        self.policy
    }

    pub closed spec fn decrypter_spec(&self) -> Option<D> {
        self.decrypter
    }

    pub closed spec fn compression_spec(&self) -> C {
        self.compression
    }

    /// Same configuration: only the store contents may differ.
    pub open spec fn same_setup(a: Self, b: Self) -> bool {
        &&& b.gens() == a.gens()
        &&& b.policy_spec() == a.policy_spec()
        &&& b.decrypter_spec() == a.decrypter_spec()
        &&& b.compression_spec() == a.compression_spec()
    }

    /// The outcome a read of `digest` as `data_type` has now.
    pub open spec fn outcome_now(&self, digest: Seq<u8>, data_type: DataType) -> ChunkOutcome {
        chunk_outcome(
            self.store_view(),
            self.gens(),
            digest,
            data_type,
            self.policy_spec(),
            self.decrypter_spec(),
            self.compression_spec(),
        )
    }

    pub fn new(store: S, decrypter: Option<D>, compression: C, generations: Vec<u64>, policy: ReadPolicy) -> (r:
        Self)
        requires
            generations@.len() > 0,
        ensures
            r.wf(),
            r.store_view() == store.view(),
            r.gens() == generations@,
            r.policy_spec() == policy,
            r.decrypter_spec() == decrypter,
            r.compression_spec() == compression,
    {
        DefaultChunkAccessor { store, decrypter, compression, generations, policy }
    }

    /// Tear down the accessor and hand the store back.
    pub fn into_store(self) -> (r: S)
        ensures
            r.view() == self.store_view(),
    {
        self.store
    }

    /// Search the generations from newest to oldest; the first holding
    /// the digest wins.
    fn find_chunk(&mut self, digest: &[u8]) -> (r: Option<(u64, Vec<u8>)>)
        requires
            old(self).wf(),
        ensures
            final(self).wf(),
            Self::same_setup(*old(self), *final(self)),
            final(self).store_view() == old(self).store_view(),
            match r {
                None => gen_lookup(old(self).store_view(), old(self).gens(), digest@) is None,
                Some((g, data)) => {
                    &&& gen_lookup(old(self).store_view(), old(self).gens(), digest@) == Some(g)
                    &&& old(self).store_view().contains_key((g as int, digest@))
                    &&& data@ == old(self).store_view()[(g as int, digest@)]
                },
            },
    {
        let mut i: usize = self.generations.len();
        while i > 0
            invariant
                self.wf(),
                Self::same_setup(*old(self), *self),
                self.store_view() == old(self).store_view(),
                0 <= i <= self.gens().len(),
                forall|j: int| i <= j < self.gens().len() ==> !old(self).store_view().contains_key(
                    (#[trigger] self.gens()[j] as int, digest@),
                ),
            decreases i,
        {
            i -= 1;
            let g = self.generations[i];
            match self.store.read(g, digest) {
                Ok(data) => {
                    proof {
                        lemma_gen_lookup_found(
                            old(self).store_view(),
                            old(self).gens(),
                            digest@,
                            i as int,
                        );
                    }
                    return Some((g, data));
                },
                Err(_) => {},
            }
        }
        proof {
            lemma_gen_lookup_none(old(self).store_view(), old(self).gens(), digest@);
        }
        None
    }

    /// Deliver the verified plaintext of the addressed chunk into `out`,
    /// or fail; a chunk found outside the current generation is first
    /// moved under it.
    pub fn read_chunk_into(&mut self, digest: &[u8], data_type: DataType, out: &mut Vec<u8>) -> (r:
        Result<(), Error>)
        requires
            old(self).wf(),
        ensures
            final(self).wf(),
            Self::same_setup(*old(self), *final(self)),
            final(self).store_view() == store_after(
                old(self).store_view(),
                old(self).gens(),
                digest@,
            ),
            ({
                let o = old(self).outcome_now(digest@, data_type);
                match o {
                    ChunkOutcome::Delivered(p) => r is Ok && final(out)@ == old(out)@ + p,
                    _ => {
                        &&& final(out)@ == old(out)@
                        &&& r matches Err(e) && outcome_error(o, e, digest@)
                    },
                }
            }),
    {
        let found = self.find_chunk(digest);
        match found {
            None => Err(Error::NotFound { digest: copy_bytes(digest) }),
            Some((g, data)) => {
                let cur = self.generations[self.generations.len() - 1];
                if g != cur {
                    // Promotion: best effort against a concurrent mover;
                    // a lost race is swallowed, anything else is fatal.
                    match self.store.rename(g, cur, digest) {
                        Ok(()) => {},
                        Err(StoreError::NotFound) => {},
                        Err(e) => {
                            return Err(Error::Store(e));
                        },
                    }
                }
                let decoded = crate::codec::decode_chunk(
                    data,
                    digest,
                    data_type,
                    &self.policy,
                    &self.decrypter,
                    &self.compression,
                );
                match decoded {
                    Err(e) => Err(e),
                    Ok(mut p) => {
                        let dg = calculate_digest(p.as_slice());
                        if bytes_eq(dg.as_slice(), digest) {
                            out.append(&mut p);
                            Ok(())
                        } else {
                            Err(Error::Corrupted { expected: copy_bytes(digest), actual: dg })
                        }
                    },
                }
            },
        }
    }

    /// Visiting a digest means nothing to the canonical accessor.
    pub fn touch(&mut self, _digest: &[u8]) -> (r: Result<(), Error>)
        requires
            old(self).wf(),
        ensures
            *final(self) == *old(self),
            r is Ok,
    {
        Ok(())
    }
}

/// Results of a Verifying walk: how many distinct chunks were scanned,
/// and which of them failed, with what.
pub struct VerifyResults {
    pub scanned: usize,
    pub errors: Vec<(Vec<u8>, Error)>,
}

/// Wraps the canonical accessor and records every digest it is asked
/// for into an owned set, handed back to the caller after the walk: the
/// reachable set for a GC mark phase.
pub struct RecordingChunkAccessor<S: Store, D: Decrypter, C: Compression> {
    raw: DefaultChunkAccessor<S, D, C>,
    accessed: DigestSet,
}

impl<S: Store, D: Decrypter, C: Compression> RecordingChunkAccessor<S, D, C> {
    pub open spec fn wf(&self) -> bool {
        self.raw_spec().wf()
    }

    /// The wrapped canonical accessor.
    pub closed spec fn raw_spec(&self) -> DefaultChunkAccessor<S, D, C> {
        self.raw
    }

    /// The digests recorded so far.
    pub closed spec fn recorded(&self) -> Set<Seq<u8>> {
        self.accessed@
    }

    pub fn new(
        store: S,
        decrypter: Option<D>,
        compression: C,
        generations: Vec<u64>,
        policy: ReadPolicy,
    ) -> (r: Self)
        requires
            generations@.len() > 0,
        ensures
            r.wf(),
            r.recorded() == Set::<Seq<u8>>::empty(),
            r.raw_spec().store_view() == store.view(),
            r.raw_spec().gens() == generations@,
            r.raw_spec().policy_spec() == policy,
            r.raw_spec().decrypter_spec() == decrypter,
            r.raw_spec().compression_spec() == compression,
    {
        RecordingChunkAccessor {
            raw: DefaultChunkAccessor::new(store, decrypter, compression, generations, policy),
            accessed: DigestSet::new(),
        }
    }

    /// The set of digests visited by the walk, for the caller to keep.
    pub fn into_recorded(self) -> (r: DigestSet)
        ensures
            r@ == self.recorded(),
    {
        self.accessed
    }

    /// Record the digest, then read as the canonical accessor does.
    pub fn read_chunk_into(&mut self, digest: &[u8], data_type: DataType, out: &mut Vec<u8>) -> (r:
        Result<(), Error>)
        requires
            old(self).wf(),
        ensures
            final(self).wf(),
            DefaultChunkAccessor::same_setup(old(self).raw_spec(), final(self).raw_spec()),
            final(self).recorded() == old(self).recorded().insert(digest@),
            final(self).raw_spec().store_view() == store_after(
                old(self).raw_spec().store_view(),
                old(self).raw_spec().gens(),
                digest@,
            ),
            ({
                let o = old(self).raw_spec().outcome_now(digest@, data_type);
                match o {
                    ChunkOutcome::Delivered(p) => r is Ok && final(out)@ == old(out)@ + p,
                    _ => {
                        &&& final(out)@ == old(out)@
                        &&& r matches Err(e) && outcome_error(o, e, digest@)
                    },
                }
            }),
    {
        self.accessed.insert(digest);
        self.raw.read_chunk_into(digest, data_type, out)
    }

    /// Record the digest without reading anything.
    pub fn touch(&mut self, digest: &[u8]) -> (r: Result<(), Error>)
        requires
            old(self).wf(),
        ensures
            final(self).wf(),
            final(self).raw_spec() == old(self).raw_spec(),
            final(self).recorded() == old(self).recorded().insert(digest@),
            r is Ok,
    {
        self.accessed.insert(digest);
        Ok(())
    }
}

/// Wraps the canonical accessor for a full-tree check: each distinct
/// digest is verified exactly once, and a chunk's failure is noted and
/// stepped over, never propagated — the walk always completes.
pub struct VerifyingChunkAccessor<S: Store, D: Decrypter, C: Compression> {
    raw: DefaultChunkAccessor<S, D, C>,
    accessed: DigestSet,
    errors: Vec<(Vec<u8>, Error)>,
}

impl<S: Store, D: Decrypter, C: Compression> VerifyingChunkAccessor<S, D, C> {
    /// Well-formed: besides the canonical accessor's own shape, every
    /// digest with a noted failure has been scanned, and no digest is
    /// noted twice — a corrupt chunk yields exactly one entry, however
    /// often the tree references it.
    pub open spec fn wf(&self) -> bool {
        &&& self.raw_spec().wf()
        &&& (forall|i: int|
            0 <= i < self.errors_spec().len() ==> self.scanned().contains(
                #[trigger] self.errors_spec()[i].0@,
            ))
        &&& (forall|i: int, j: int|
            0 <= i < j < self.errors_spec().len() ==> self.errors_spec()[i].0@
                != self.errors_spec()[j].0@)
    }

    pub closed spec fn raw_spec(&self) -> DefaultChunkAccessor<S, D, C> {
        self.raw
    }

    /// The digests already checked.
    pub closed spec fn scanned(&self) -> Set<Seq<u8>> {
        self.accessed@
    }

    /// The failures noted so far, in visiting order.
    pub closed spec fn errors_spec(&self) -> Seq<(Vec<u8>, Error)> {
        self.errors@
    }

    pub fn new(
        store: S,
        decrypter: Option<D>,
        compression: C,
        generations: Vec<u64>,
        policy: ReadPolicy,
    ) -> (r: Self)
        requires
            generations@.len() > 0,
        ensures
            r.wf(),
            r.scanned() == Set::<Seq<u8>>::empty(),
            r.errors_spec() == Seq::<(Vec<u8>, Error)>::empty(),
            r.raw_spec().store_view() == store.view(),
            r.raw_spec().gens() == generations@,
            r.raw_spec().policy_spec() == policy,
            r.raw_spec().decrypter_spec() == decrypter,
            r.raw_spec().compression_spec() == compression,
    {
        VerifyingChunkAccessor {
            raw: DefaultChunkAccessor::new(store, decrypter, compression, generations, policy),
            accessed: DigestSet::new(),
            errors: Vec::new(),
        }
    }

    /// Verify the chunk if it has not been seen yet; a failure is noted
    /// against its digest and the walk goes on.
    pub fn read_chunk_into(&mut self, digest: &[u8], data_type: DataType, out: &mut Vec<u8>) -> (r:
        Result<(), Error>)
        requires
            old(self).wf(),
        ensures
            final(self).wf(),
            DefaultChunkAccessor::same_setup(old(self).raw_spec(), final(self).raw_spec()),
            r is Ok,
            old(self).scanned().contains(digest@) ==> {
                &&& *final(self) == *old(self)
                &&& final(out)@ == old(out)@
            },
            !old(self).scanned().contains(digest@) ==> {
                &&& final(self).scanned() == old(self).scanned().insert(digest@)
                &&& final(self).raw_spec().store_view() == store_after(
                    old(self).raw_spec().store_view(),
                    old(self).raw_spec().gens(),
                    digest@,
                )
                &&& ({
                    let o = old(self).raw_spec().outcome_now(digest@, data_type);
                    match o {
                        ChunkOutcome::Delivered(p) => final(out)@ == old(out)@ + p
                            && final(self).errors_spec() == old(self).errors_spec(),
                        _ => {
                            &&& final(out)@ == old(out)@
                            &&& final(self).errors_spec().len() == old(self).errors_spec().len()
                                + 1
                            &&& final(self).errors_spec().drop_last() == old(self).errors_spec()
                            &&& final(self).errors_spec().last().0@ == digest@
                            &&& outcome_error(o, final(self).errors_spec().last().1, digest@)
                        },
                    }
                })
            },
    {
        if self.accessed.contains(digest) {
            return Ok(());
        }
        self.accessed.insert(digest);
        let res = self.raw.read_chunk_into(digest, data_type, out);
        match res {
            Ok(()) => {
                proof {
                    assert forall|i: int|
                        0 <= i < self.errors@.len() implies self.accessed@.contains(
                        #[trigger] self.errors@[i].0@,
                    ) by {
                        assert(old(self).errors_spec()[i] == self.errors@[i]);
                        assert(old(self).scanned().contains(old(self).errors_spec()[i].0@));
                    }
                }
            },
            Err(e) => {
                let ghost before = self.errors@;
                self.errors.push((copy_bytes(digest), e));
                proof {
                    assert(before == old(self).errors_spec());
                    assert(self.errors@.drop_last() =~= before);
                    assert forall|i: int|
                        0 <= i < self.errors@.len() implies self.accessed@.contains(
                        #[trigger] self.errors@[i].0@,
                    ) by {
                        if i < before.len() {
                            assert(self.errors@[i] == old(self).errors_spec()[i]);
                            assert(old(self).scanned().contains(old(self).errors_spec()[i].0@));
                        } else {
                            assert(self.errors@[i].0@ == digest@);
                        }
                    }
                    assert forall|i: int, j: int|
                        0 <= i < j < self.errors@.len() implies self.errors@[i].0@
                        != self.errors@[j].0@ by {
                        if j < before.len() {
                            assert(self.errors@[i] == old(self).errors_spec()[i]);
                            assert(self.errors@[j] == old(self).errors_spec()[j]);
                        } else {
                            assert(self.errors@[i] == old(self).errors_spec()[i]);
                            assert(old(self).scanned().contains(old(self).errors_spec()[i].0@));
                            assert(!old(self).scanned().contains(digest@));
                        }
                    }
                }
            },
        }
        Ok(())
    }

    /// Touch passes through to the canonical no-op.
    pub fn touch(&mut self, digest: &[u8]) -> (r: Result<(), Error>)
        requires
            old(self).wf(),
        ensures
            *final(self) == *old(self),
            r is Ok,
    {
        self.raw.touch(digest)
    }

    /// The terminal, consuming summary of the walk: how many distinct
    /// digests were scanned, and every failure among them — one entry
    /// per failing digest.
    pub fn get_results(self) -> (r: VerifyResults)
        requires
            self.wf(),
        ensures
            r.scanned == self.scanned().len(),
            r.errors@ == self.errors_spec(),
            forall|i: int, j: int|
                0 <= i < j < r.errors@.len() ==> r.errors@[i].0@ != r.errors@[j].0@,
    {
        let scanned = self.accessed.len();
        VerifyResults { scanned, errors: self.errors }
    }
}

/// Wraps the canonical accessor for a maintenance pass that forwards
/// reachable chunks across a generation boundary: reads stay real (the
/// walk must recurse through index content), but touching a leaf only
/// probes metadata and promotes, without decoding any bytes.
pub struct GenerationUpdateChunkAccessor<S: Store, D: Decrypter, C: Compression> {
    raw: DefaultChunkAccessor<S, D, C>,
}

impl<S: Store, D: Decrypter, C: Compression> GenerationUpdateChunkAccessor<S, D, C> {
    pub open spec fn wf(&self) -> bool {
        self.raw_spec().wf()
    }

    pub closed spec fn raw_spec(&self) -> DefaultChunkAccessor<S, D, C> {
        self.raw
    }

    pub fn new(store: S, compression: C, generations: Vec<u64>, policy: ReadPolicy) -> (r: Self)
        requires
            generations@.len() > 0,
        ensures
            r.wf(),
            r.raw_spec().store_view() == store.view(),
            r.raw_spec().gens() == generations@,
            r.raw_spec().policy_spec() == policy,
            r.raw_spec().decrypter_spec() is None,
            r.raw_spec().compression_spec() == compression,
    {
        GenerationUpdateChunkAccessor {
            raw: DefaultChunkAccessor::new(store, None, compression, generations, policy),
        }
    }

    /// Tear down the accessor and hand the canonical one back.
    pub fn into_raw(self) -> (r: DefaultChunkAccessor<S, D, C>)
        ensures
            r == self.raw_spec(),
    {
        self.raw
    }

    /// Read as the canonical accessor does.
    pub fn read_chunk_into(&mut self, digest: &[u8], data_type: DataType, out: &mut Vec<u8>) -> (r:
        Result<(), Error>)
        requires
            old(self).wf(),
        ensures
            final(self).wf(),
            DefaultChunkAccessor::same_setup(old(self).raw_spec(), final(self).raw_spec()),
            final(self).raw_spec().store_view() == store_after(
                old(self).raw_spec().store_view(),
                old(self).raw_spec().gens(),
                digest@,
            ),
            ({
                let o = old(self).raw_spec().outcome_now(digest@, data_type);
                match o {
                    ChunkOutcome::Delivered(p) => r is Ok && final(out)@ == old(out)@ + p,
                    _ => {
                        &&& final(out)@ == old(out)@
                        &&& r matches Err(e) && outcome_error(o, e, digest@)
                    },
                }
            }),
    {
        self.raw.read_chunk_into(digest, data_type, out)
    }

    /// Probe for the digest across generations, newest first, and
    /// promote the first copy found to the current generation — without
    /// ever materializing the chunk's bytes.
    pub fn touch(&mut self, digest: &[u8]) -> (r: Result<(), Error>)
        requires
            old(self).wf(),
        ensures
            final(self).wf(),
            DefaultChunkAccessor::same_setup(old(self).raw_spec(), final(self).raw_spec()),
            match gen_lookup(old(self).raw_spec().store_view(), old(self).raw_spec().gens(), digest@) {
                None => {
                    &&& r matches Err(e) && outcome_error(ChunkOutcome::NoChunk, e, digest@)
                    &&& final(self).raw_spec().store_view() == old(self).raw_spec().store_view()
                },
                Some(_) => {
                    &&& r is Ok
                    &&& final(self).raw_spec().store_view() == store_after(
                        old(self).raw_spec().store_view(),
                        old(self).raw_spec().gens(),
                        digest@,
                    )
                },
            },
    {
        let mut i: usize = self.raw.generations.len();
        let mut found: Option<u64> = None;
        while i > 0 && found.is_none()
            invariant
                self.wf(),
                DefaultChunkAccessor::same_setup(old(self).raw_spec(), self.raw_spec()),
                self.raw_spec().store_view() == old(self).raw_spec().store_view(),
                0 <= i <= self.raw_spec().gens().len(),
                found is None ==> forall|j: int|
                    i <= j < self.raw_spec().gens().len()
                        ==> !old(self).raw_spec().store_view().contains_key(
                        (#[trigger] self.raw_spec().gens()[j] as int, digest@),
                    ),
                found matches Some(g) ==> gen_lookup(
                    old(self).raw_spec().store_view(),
                    old(self).raw_spec().gens(),
                    digest@,
                ) == Some(g) && old(self).raw_spec().store_view().contains_key(
                    (g as int, digest@),
                ),
            decreases i,
        {
            i -= 1;
            let g = self.raw.generations[i];
            match self.raw.store.read_metadata(g, digest) {
                Ok(_metadata) => {
                    proof {
                        lemma_gen_lookup_found(
                            old(self).raw_spec().store_view(),
                            old(self).raw_spec().gens(),
                            digest@,
                            i as int,
                        );
                    }
                    found = Some(g);
                },
                Err(_) => {},
            }
        }
        match found {
            None => {
                proof {
                    lemma_gen_lookup_none(
                        old(self).raw_spec().store_view(),
                        old(self).raw_spec().gens(),
                        digest@,
                    );
                }
                Err(Error::NotFound { digest: copy_bytes(digest) })
            },
            Some(g) => {
                let cur = self.raw.generations[self.raw.generations.len() - 1];
                if g != cur {
                    // Promotion is best effort, as on the read path.
                    match self.raw.store.rename(g, cur, digest) {
                        Ok(()) => {},
                        Err(StoreError::NotFound) => {},
                        Err(e) => {
                            return Err(Error::Store(e));
                        },
                    }
                }
                Ok(())
            },
        }
    }
}

} // verus!
