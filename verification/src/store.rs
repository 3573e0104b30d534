//! The blob-store collaborator: chunks addressed by generation and digest.
//!
//! The repository tracks an ordered list of generations (storage epochs);
//! a chunk may physically reside under any of them. The backend owns the
//! path layout, so this interface is keyed directly by
//! `(generation, digest)`. The engine consumes the interface and never
//! implements the transport; [`InMemoryStore`] is the verified reference
//! implementation used to exercise it.

use vstd::prelude::*;

use crate::errors::StoreError;
use crate::hashing::bytes_eq;

verus! {

/// Existence-only information about a stored chunk.
#[derive(Debug, Clone, Copy, PartialEq, Eq, Structural)]
pub struct ChunkMetadata {
    pub len: u64,
    pub is_file: bool,
}

/// The answer to a listing request against a store.
#[derive(Debug, Clone, PartialEq, Eq)]
pub struct ListResponse {
    pub paths: Vec<String>,
}

/// A blob store holding chunk bytes under `(generation, digest)` keys.
///
/// Implementations must answer by their current contents alone: a read
/// or metadata probe succeeds precisely when the key is stored, and a
/// rename succeeds precisely when its source is stored. A remote
/// implementation is expected to resolve transient transport failures
/// itself rather than let them surface as absence.
pub trait Store: Sized {
    /// The stored bytes, by generation and digest.
    spec fn view(&self) -> Map<(int, Seq<u8>), Seq<u8>>;

    /// Fetch the bytes stored for `digest` under `generation`.
    fn read(&mut self, generation: u64, digest: &[u8]) -> (r: Result<Vec<u8>, StoreError>)
        ensures
            final(self).view() == old(self).view(),
            r is Ok <==> old(self).view().contains_key((generation as int, digest@)),
            r matches Ok(data) ==> data@ == old(self).view()[(generation as int, digest@)],
    ;

    /// Probe for `digest` under `generation` without fetching content.
    fn read_metadata(&mut self, generation: u64, digest: &[u8]) -> (r: Result<
        ChunkMetadata,
        StoreError,
    >)
        ensures
            final(self).view() == old(self).view(),
            r is Ok <==> old(self).view().contains_key((generation as int, digest@)),
            r matches Ok(m) ==> m.len == old(self).view()[(generation as int, digest@)].len(),
    ;

    /// Move the chunk stored for `digest` from one generation to another.
    fn rename(&mut self, src_generation: u64, dst_generation: u64, digest: &[u8]) -> (r: Result<
        (),
        StoreError,
    >)
        ensures
            r is Ok <==> old(self).view().contains_key((src_generation as int, digest@)),
            r is Ok ==> final(self).view() == old(self).view().remove(
                (src_generation as int, digest@),
            ).insert(
                (dst_generation as int, digest@),
                old(self).view()[(src_generation as int, digest@)],
            ),
            r is Err ==> final(self).view() == old(self).view(),
            r matches Err(e) ==> e == StoreError::NotFound,
    ;

    /// Store `data` for `digest` under `generation`, replacing any
    /// previous bytes under that key.
    fn write(&mut self, generation: u64, digest: &[u8], data: Vec<u8>) -> (r: Result<
        (),
        StoreError,
    >)
        ensures
            r is Ok,
            final(self).view() == old(self).view().insert((generation as int, digest@), data@),
    ;
}

struct StoreEntry {
    generation: u64,
    digest: Vec<u8>,
    data: Vec<u8>,
}

impl StoreEntry {
    spec fn key(&self) -> (int, Seq<u8>) {
        (self.generation as int, self.digest@)
    }
}

/// The map a sequence of entries denotes.
spec fn entries_view(s: Seq<StoreEntry>) -> Map<(int, Seq<u8>), Seq<u8>>
    decreases s.len(),
{
    if s.len() == 0 {
        Map::empty()
    } else {
        entries_view(s.drop_last()).insert(s.last().key(), s.last().data@)
    }
}

/// Key uniqueness across the entries.
spec fn entries_unique(s: Seq<StoreEntry>) -> bool {
    forall|i: int, j: int| 0 <= i < j < s.len() ==> s[i].key() != s[j].key()
}

proof fn lemma_entries_view_contains(s: Seq<StoreEntry>, k: (int, Seq<u8>))
    ensures
        entries_view(s).contains_key(k) <==> exists|i: int| 0 <= i < s.len() && s[i].key() == k,
    decreases s.len(),
{
    if s.len() > 0 {
        lemma_entries_view_contains(s.drop_last(), k);
        if s.last().key() == k {
            assert(s[s.len() - 1].key() == k);
        } else if entries_view(s).contains_key(k) {
            let i = choose|i: int| 0 <= i < s.drop_last().len() && s.drop_last()[i].key() == k;
            assert(s[i].key() == k);
        } else {
            assert forall|i: int| 0 <= i < s.len() implies s[i].key() != k by {
                if i < s.len() - 1 {
                    assert(s.drop_last()[i] == s[i]);
                }
            }
        }
    }
}

proof fn lemma_entries_unique_drop_last(s: Seq<StoreEntry>)
    requires
        entries_unique(s),
        s.len() > 0,
    ensures
        entries_unique(s.drop_last()),
{
    assert forall|x: int, y: int|
        0 <= x < y < s.drop_last().len() implies s.drop_last()[x].key()
        != s.drop_last()[y].key() by {
        assert(s.drop_last()[x] == s[x]);
        assert(s.drop_last()[y] == s[y]);
    }
}

proof fn lemma_entries_view_index(s: Seq<StoreEntry>, i: int)
    requires
        entries_unique(s),
        0 <= i < s.len(),
    ensures
        entries_view(s).contains_key(s[i].key()),
        entries_view(s)[s[i].key()] == s[i].data@,
    decreases s.len(),
{
    if i == s.len() - 1 {
    } else {
        assert(s.drop_last()[i] == s[i]);
        lemma_entries_unique_drop_last(s);
        lemma_entries_view_index(s.drop_last(), i);
        assert(s[i].key() != s.last().key());
    }
}

/// Removing the entry at `i` removes exactly its key from the view.
proof fn lemma_entries_view_remove(s: Seq<StoreEntry>, i: int)
    requires
        entries_unique(s),
        0 <= i < s.len(),
    ensures
        entries_view(s.remove(i)) == entries_view(s).remove(s[i].key()),
        entries_unique(s.remove(i)),
    decreases s.len(),
{
    lemma_entries_unique_drop_last(s);
    assert forall|x: int, y: int|
        0 <= x < y < s.remove(i).len() implies s.remove(i)[x].key() != s.remove(i)[y].key() by {
        let x0: int = if x < i { x } else { x + 1 };
        let y0: int = if y < i { y } else { y + 1 };
        assert(s.remove(i)[x] == s[x0]);
        assert(s.remove(i)[y] == s[y0]);
    }
    if i == s.len() - 1 {
        assert(s.remove(i) =~= s.drop_last());
        assert forall|k: (int, Seq<u8>)| #[trigger] entries_view(s.drop_last()).contains_key(k)
            implies k != s[i].key() by {
            lemma_entries_view_contains(s.drop_last(), k);
            let j = choose|j: int| 0 <= j < s.drop_last().len() && s.drop_last()[j].key() == k;
            assert(s[j].key() == k);
        }
        assert(entries_view(s.drop_last()) =~= entries_view(s).remove(s[i].key()));
    } else {
        lemma_entries_view_remove(s.drop_last(), i);
        assert(s.remove(i).drop_last() =~= s.drop_last().remove(i));
        assert(s.remove(i).last() == s.last());
        assert(s.drop_last()[i] == s[i]);
        assert(s[i].key() != s.last().key());
        assert(entries_view(s.remove(i)) =~= entries_view(s).remove(s[i].key()));
    }
}

/// Appending an entry inserts exactly its key into the view.
proof fn lemma_entries_view_push(s: Seq<StoreEntry>, e: StoreEntry)
    requires
        entries_unique(s),
        forall|i: int| 0 <= i < s.len() ==> s[i].key() != e.key(),
    ensures
        entries_view(s.push(e)) == entries_view(s).insert(e.key(), e.data@),
        entries_unique(s.push(e)),
{
    assert(s.push(e).drop_last() =~= s);
    assert(s.push(e).last() == e);
    assert forall|x: int, y: int|
        0 <= x < y < s.push(e).len() implies s.push(e)[x].key() != s.push(e)[y].key() by {
        if y < s.len() {
            assert(s.push(e)[x] == s[x]);
            assert(s.push(e)[y] == s[y]);
        } else {
            assert(s.push(e)[x] == s[x]);
            assert(s.push(e)[y] == e);
        }
    }
}

/// The position of the first (hence, with unique keys, only) entry
/// keyed `(generation, digest)`.
fn find_entry(entries: &Vec<StoreEntry>, generation: u64, digest: &[u8]) -> (r: Option<usize>)
    requires
        entries_unique(entries@),
    ensures
        match r {
            Some(i) => i < entries@.len() && entries@[i as int].key() == (
                generation as int,
                digest@,
            ) && entries_view(entries@).contains_key((generation as int, digest@))
                && entries_view(entries@)[(generation as int, digest@)] == entries@[i as int].data@,
            None => !entries_view(entries@).contains_key((generation as int, digest@)),
        },
{
    let mut i: usize = 0;
    while i < entries.len()
        invariant
            entries_unique(entries@),
            0 <= i <= entries@.len(),
            forall|j: int| 0 <= j < i ==> entries@[j].key() != (generation as int, digest@),
        decreases entries@.len() - i,
    {
        let e = &entries[i];
        if e.generation == generation && bytes_eq(e.digest.as_slice(), digest) {
            proof {
                lemma_entries_view_index(entries@, i as int);
            }
            return Some(i);
        }
        i += 1;
    }
    proof {
        lemma_entries_view_contains(entries@, (generation as int, digest@));
    }
    None
}

/// Replace whatever `entries` holds under `(generation, digest)`.
fn put_entry(entries: &mut Vec<StoreEntry>, generation: u64, digest: &[u8], data: Vec<u8>)
    requires
        entries_unique(old(entries)@),
    ensures
        entries_unique(final(entries)@),
        entries_view(final(entries)@) == entries_view(old(entries)@).insert(
            (generation as int, digest@),
            data@,
        ),
{
    let ghost k = (generation as int, digest@);
    match find_entry(entries, generation, digest) {
        Some(i) => {
            proof {
                lemma_entries_view_remove(entries@, i as int);
            }
            let _ = entries.remove(i);
        },
        None => {},
    }
    proof {
        lemma_entries_view_contains(entries@, k);
        assert(forall|j: int| 0 <= j < entries@.len() ==> entries@[j].key() != k);
    }
    let mut dv: Vec<u8> = Vec::new();
    let mut p: usize = 0;
    while p < digest.len()
        invariant
            0 <= p <= digest@.len(),
            dv@ == digest@.take(p as int),
        decreases digest@.len() - p,
    {
        dv.push(digest[p]);
        proof {
            assert(dv@ =~= digest@.take(p + 1));
        }
        p += 1;
    }
    proof {
        assert(dv@ =~= digest@);
    }
    let ghost before = entries@;
    let e = StoreEntry { generation, digest: dv, data };
    proof {
        lemma_entries_view_push(before, e);
    }
    entries.push(e);
}

/// The verified reference store: a flat list of uniquely keyed entries.
pub struct InMemoryStore {
    entries: Vec<StoreEntry>,
}

impl InMemoryStore {
    #[verifier::type_invariant]
    spec fn inv(&self) -> bool {
        entries_unique(self.entries@)
    }

    pub fn new() -> (r: InMemoryStore)
        ensures
            r.view() == Map::<(int, Seq<u8>), Seq<u8>>::empty(),
    {
        InMemoryStore { entries: Vec::new() }
    }
}

impl Store for InMemoryStore {
    closed spec fn view(&self) -> Map<(int, Seq<u8>), Seq<u8>> {
        entries_view(self.entries@)
    }

    fn read(&mut self, generation: u64, digest: &[u8]) -> (r: Result<Vec<u8>, StoreError>) {
        proof {
            use_type_invariant(&*self);
        }
        match find_entry(&self.entries, generation, digest) {
            Some(i) => {
                let data = self.entries[i].data.clone();
                proof {
                    assert(data@ == self.entries@[i as int].data@);
                }
                Ok(data)
            },
            None => Err(StoreError::NotFound),
        }
    }

    fn read_metadata(&mut self, generation: u64, digest: &[u8]) -> (r: Result<
        ChunkMetadata,
        StoreError,
    >) {
        proof {
            use_type_invariant(&*self);
        }
        match find_entry(&self.entries, generation, digest) {
            Some(i) => Ok(ChunkMetadata { len: self.entries[i].data.len() as u64, is_file: true }),
            None => Err(StoreError::NotFound),
        }
    }

    fn rename(&mut self, src_generation: u64, dst_generation: u64, digest: &[u8]) -> (r: Result<
        (),
        StoreError,
    >) {
        proof {
            use_type_invariant(&*self);
        }
        let mut entries: Vec<StoreEntry> = Vec::new();
        std::mem::swap(&mut entries, &mut self.entries);
        let r = match find_entry(&entries, src_generation, digest) {
            None => Err(StoreError::NotFound),
            Some(i) => {
                proof {
                    lemma_entries_view_remove(entries@, i as int);
                }
                let entry = entries.remove(i);
                put_entry(&mut entries, dst_generation, digest, entry.data);
                Ok(())
            },
        };
        self.entries = entries;
        r
    }

    fn write(&mut self, generation: u64, digest: &[u8], data: Vec<u8>) -> (r: Result<
        (),
        StoreError,
    >) {
        proof {
            use_type_invariant(&*self);
        }
        let mut entries: Vec<StoreEntry> = Vec::new();
        std::mem::swap(&mut entries, &mut self.entries);
        put_entry(&mut entries, generation, digest, data);
        self.entries = entries;
        Ok(())
    }
}

} // verus!
