use dedup_core::accessor::{
    DefaultChunkAccessor, GenerationUpdateChunkAccessor, RecordingChunkAccessor,
    VerifyingChunkAccessor,
};
use dedup_core::codec::{DataType, NoCompression, ReadPolicy, XorDecrypter};
use dedup_core::errors::Error;
use dedup_core::reading::{ChunkAccessor, DataAddress, ReadContext, ReadRequest};
use dedup_core::store::{InMemoryStore, Store};
use sha2::Digest;

fn sha(bytes: &[u8]) -> Vec<u8> {
    sha2::Sha256::digest(bytes).to_vec()
}

/// Store `content` under its own digest; hand the digest back.
fn put_chunk(store: &mut InMemoryStore, generation: u64, content: &[u8]) -> Vec<u8> {
    let digest = sha(content);
    store.write(generation, &digest, content.to_vec()).unwrap();
    digest
}

/// Store an index chunk listing the given child digests, in order.
fn put_index(store: &mut InMemoryStore, generation: u64, children: &[Vec<u8>]) -> Vec<u8> {
    let mut content = Vec::new();
    for child in children {
        content.extend_from_slice(child);
    }
    put_chunk(store, generation, &content)
}

type Ctx = ReadContext<InMemoryStore, XorDecrypter, NoCompression>;

fn default_ctx(store: InMemoryStore, generations: Vec<u64>) -> Ctx {
    ReadContext::new(ChunkAccessor::Default(DefaultChunkAccessor::new(
        store,
        None,
        NoCompression,
        generations,
        ReadPolicy::plain(),
    )))
}

fn request(digest: Vec<u8>, index_level: u32, with_output: bool) -> ReadRequest {
    ReadRequest::new(DataType::Data, DataAddress { digest, index_level }, with_output)
}

#[test]
fn single_chunk_round_trip() {
    let mut store = InMemoryStore::new();
    let digest = put_chunk(&mut store, 1, b"one small object");
    let mut ctx = default_ctx(store, vec![1]);
    ctx.read_recursively(&request(digest, 0, true)).unwrap();
    assert_eq!(ctx.output().as_slice(), b"one small object");
    let (_, out) = ctx.into_parts();
    assert_eq!(out, b"one small object".to_vec());
}

#[test]
fn multi_level_round_trip_small_counts() {
    for n in [0usize, 1, 2] {
        let mut store = InMemoryStore::new();
        let mut leaves = Vec::new();
        let mut expected = Vec::new();
        for i in 0..n {
            let content = format!("leaf number {i}").into_bytes();
            leaves.push(put_chunk(&mut store, 1, &content));
            expected.extend_from_slice(&content);
        }
        let root = put_index(&mut store, 1, &leaves);
        let mut ctx = default_ctx(store, vec![1]);
        ctx.read_recursively(&request(root, 1, true)).unwrap();
        let (_, out) = ctx.into_parts();
        assert_eq!(out, expected, "level-1 tree with {n} leaves");
    }
}

#[test]
fn multi_level_round_trip_hundred_leaves() {
    let mut store = InMemoryStore::new();
    let mut leaves = Vec::new();
    let mut expected = Vec::new();
    for i in 0..100u32 {
        let content: Vec<u8> = (0..(i % 7 + 1)).map(|j| (i + j) as u8).collect();
        leaves.push(put_chunk(&mut store, 1, &content));
        expected.extend_from_slice(&content);
    }
    let root = put_index(&mut store, 1, &leaves);
    let mut ctx = default_ctx(store, vec![1]);
    ctx.read_recursively(&request(root, 1, true)).unwrap();
    let (_, out) = ctx.into_parts();
    assert_eq!(out, expected);
}

#[test]
fn two_level_tree_resolves_in_order() {
    let mut store = InMemoryStore::new();
    let a = put_chunk(&mut store, 1, b"alpha ");
    let b = put_chunk(&mut store, 1, b"beta ");
    let c = put_chunk(&mut store, 1, b"gamma");
    let left = put_index(&mut store, 1, &[a, b]);
    let right = put_index(&mut store, 1, &[c]);
    let root = put_index(&mut store, 1, &[left, right]);
    let mut ctx = default_ctx(store, vec![1]);
    ctx.read_recursively(&request(root, 2, true)).unwrap();
    let (_, out) = ctx.into_parts();
    assert_eq!(out, b"alpha beta gamma".to_vec());
}

#[test]
fn missing_chunk_is_not_found() {
    let store = InMemoryStore::new();
    let mut ctx = default_ctx(store, vec![1]);
    let absent = vec![9u8; 32];
    let r = ctx.read_recursively(&request(absent.clone(), 0, true));
    match r {
        Err(Error::NotFound { digest }) => assert_eq!(digest, absent),
        other => panic!("expected not-found, got {other:?}"),
    }
}

#[test]
fn corruption_is_detected_with_both_digests() {
    let mut store = InMemoryStore::new();
    let digest = put_chunk(&mut store, 1, b"good bytes");
    // Flip a byte in the stored chunk, keeping its address.
    let mut bad = b"good bytes".to_vec();
    bad[0] ^= 0x40;
    store.write(1, &digest, bad.clone()).unwrap();

    let mut ctx = default_ctx(store, vec![1]);
    let r = ctx.read_recursively(&request(digest.clone(), 0, true));
    match r {
        Err(Error::Corrupted { expected, actual }) => {
            assert_eq!(expected, digest);
            assert_eq!(actual, sha(&bad));
        },
        other => panic!("expected corruption, got {other:?}"),
    }
    let (_, out) = ctx.into_parts();
    assert!(out.is_empty());
}

#[test]
fn verifying_walk_counts_distinct_and_records_one_error() {
    let mut store = InMemoryStore::new();
    let good = put_chunk(&mut store, 1, b"intact leaf");
    let bad_digest = put_chunk(&mut store, 1, b"doomed leaf");
    let mut corrupted = b"doomed leaf".to_vec();
    corrupted[3] ^= 0x01;
    store.write(1, &bad_digest, corrupted).unwrap();
    let root = put_index(&mut store, 1, &[good, bad_digest.clone()]);

    let acc = VerifyingChunkAccessor::new(
        store,
        None::<XorDecrypter>,
        NoCompression,
        vec![1],
        ReadPolicy::plain(),
    );
    let mut ctx = ReadContext::new(ChunkAccessor::Verifying(acc));
    // The walk itself reports success regardless of chunk failures.
    ctx.read_recursively(&request(root, 1, true)).unwrap();
    let (acc, _) = ctx.into_parts();
    let results = match acc {
        ChunkAccessor::Verifying(a) => a.get_results(),
        _ => unreachable!(),
    };
    assert_eq!(results.scanned, 3);
    assert_eq!(results.errors.len(), 1);
    assert_eq!(results.errors[0].0, bad_digest);
    assert!(matches!(results.errors[0].1, Error::Corrupted { .. }));
}

#[test]
fn verifying_walk_checks_each_digest_once() {
    let mut store = InMemoryStore::new();
    let leaf = put_chunk(&mut store, 1, b"shared");
    let root = put_index(&mut store, 1, &[leaf.clone(), leaf.clone(), leaf]);

    let acc = VerifyingChunkAccessor::new(
        store,
        None::<XorDecrypter>,
        NoCompression,
        vec![1],
        ReadPolicy::plain(),
    );
    let mut ctx = ReadContext::new(ChunkAccessor::Verifying(acc));
    ctx.read_recursively(&request(root, 1, true)).unwrap();
    let (acc, _) = ctx.into_parts();
    let results = match acc {
        ChunkAccessor::Verifying(a) => a.get_results(),
        _ => unreachable!(),
    };
    // Root and the one distinct leaf.
    assert_eq!(results.scanned, 2);
    assert!(results.errors.is_empty());
}

#[test]
fn default_read_promotes_to_current_generation() {
    let mut store = InMemoryStore::new();
    let digest = put_chunk(&mut store, 1, b"old resident");
    let mut ctx = default_ctx(store, vec![1, 2]);
    ctx.read_recursively(&request(digest.clone(), 0, true)).unwrap();
    let (acc, out) = ctx.into_parts();
    assert_eq!(out, b"old resident".to_vec());
    let mut store = match acc {
        ChunkAccessor::Default(a) => a.into_store(),
        _ => unreachable!(),
    };
    assert_eq!(store.read(2, &digest).unwrap(), b"old resident".to_vec());
}

#[test]
fn generation_update_touch_promotes_without_reading() {
    let mut store = InMemoryStore::new();
    let leaf = put_chunk(&mut store, 1, b"forward me");
    let root = put_index(&mut store, 2, &[leaf.clone()]);

    let acc: GenerationUpdateChunkAccessor<InMemoryStore, XorDecrypter, NoCompression> =
        GenerationUpdateChunkAccessor::new(store, NoCompression, vec![1, 2], ReadPolicy::plain());
    let mut ctx = ReadContext::new(ChunkAccessor::GenerationUpdate(acc));
    // No output writer: leaves are touched, not read.
    ctx.read_recursively(&request(root, 1, false)).unwrap();
    let (acc, out) = ctx.into_parts();
    assert!(out.is_empty());
    let mut store = match acc {
        ChunkAccessor::GenerationUpdate(a) => a.into_raw().into_store(),
        _ => unreachable!(),
    };
    assert_eq!(store.read(2, &leaf).unwrap(), b"forward me".to_vec());
}

#[test]
fn recording_walk_collects_each_digest_once() {
    let mut store = InMemoryStore::new();
    let leaf = put_chunk(&mut store, 1, b"twice referenced");
    let root = put_index(&mut store, 1, &[leaf.clone(), leaf.clone()]);

    let acc = RecordingChunkAccessor::new(
        store,
        None::<XorDecrypter>,
        NoCompression,
        vec![1],
        ReadPolicy::plain(),
    );
    let mut ctx = ReadContext::new(ChunkAccessor::Recording(acc));
    ctx.read_recursively(&request(root.clone(), 1, true)).unwrap();
    let (acc, out) = ctx.into_parts();
    // Both references still resolve into the output, in order.
    assert_eq!(out, b"twice referencedtwice referenced".to_vec());
    let recorded = match acc {
        ChunkAccessor::Recording(a) => a.into_recorded(),
        _ => unreachable!(),
    };
    assert!(recorded.contains(&leaf));
    assert!(recorded.contains(&root));
    // The reachable set holds the twice-referenced leaf exactly once.
    assert_eq!(recorded.len(), 2);
}

#[test]
fn discard_mode_skips_leaf_verification() {
    let mut store = InMemoryStore::new();
    // Leaves are absent entirely: existence of the index levels is all
    // a discard-mode walk needs.
    let ghost_a = vec![0x11u8; 32];
    let ghost_b = vec![0x22u8; 32];
    let inner = put_index(&mut store, 1, &[ghost_a, ghost_b]);
    let root = put_index(&mut store, 1, &[inner]);

    let mut ctx = default_ctx(store, vec![1]);
    ctx.read_recursively(&request(root.clone(), 2, false)).unwrap();
    let (_, out) = ctx.into_parts();
    assert!(out.is_empty());
}

#[test]
fn discard_mode_still_reads_index_levels() {
    let mut store = InMemoryStore::new();
    // The root index chunk itself is corrupted: discard mode must still
    // fail, because index content has to be read to recurse.
    let leaf = put_chunk(&mut store, 1, b"leaf");
    let root = put_index(&mut store, 1, &[leaf]);
    let mut bad = Vec::new();
    bad.extend_from_slice(&[0u8; 32]);
    store.write(1, &root, bad).unwrap();

    let mut ctx = default_ctx(store, vec![1]);
    let r = ctx.read_recursively(&request(root, 1, false));
    assert!(matches!(r, Err(Error::Corrupted { .. })));
}

#[test]
fn truncated_index_content_is_an_error() {
    let mut store = InMemoryStore::new();
    let leaf = put_chunk(&mut store, 1, b"whole leaf");
    let mut content = leaf.clone();
    content.push(0x07);
    let root = put_chunk(&mut store, 1, &content);

    let mut ctx = default_ctx(store, vec![1]);
    let r = ctx.read_recursively(&request(root, 1, true));
    assert!(matches!(r, Err(Error::TruncatedIndex)));
    // The whole records before the truncation point were still resolved.
    let (_, out) = ctx.into_parts();
    assert_eq!(out, b"whole leaf".to_vec());
}

#[test]
fn missing_decrypter_is_reported() {
    let mut store = InMemoryStore::new();
    let digest = put_chunk(&mut store, 1, b"sealed");
    let policy = ReadPolicy {
        encrypt_data: true,
        encrypt_index: false,
        compress_data: false,
        compress_index: false,
    };
    let acc: DefaultChunkAccessor<InMemoryStore, XorDecrypter, NoCompression> =
        DefaultChunkAccessor::new(store, None, NoCompression, vec![1], policy);
    let mut ctx = ReadContext::new(ChunkAccessor::Default(acc));
    let r = ctx.read_recursively(&request(digest, 0, true));
    assert!(matches!(r, Err(Error::MissingDecrypter)));
}

#[test]
fn encrypted_leaves_decrypt_before_digest_check() {
    let mut store = InMemoryStore::new();
    let key = 0x5a;
    let plain = b"secret payload".to_vec();
    let stored: Vec<u8> = plain.iter().map(|b| b ^ key).collect();
    // The digest addresses the plaintext; the stored bytes are sealed.
    let digest = sha(&plain);
    store.write(1, &digest, stored).unwrap();
    let index = put_index(&mut store, 1, &[digest]);

    let policy = ReadPolicy {
        encrypt_data: true,
        encrypt_index: false,
        compress_data: false,
        compress_index: false,
    };
    let acc = DefaultChunkAccessor::new(
        store,
        Some(XorDecrypter { key }),
        NoCompression,
        vec![1],
        policy,
    );
    let mut ctx = ReadContext::new(ChunkAccessor::Default(acc));
    ctx.read_recursively(&request(index, 1, true)).unwrap();
    let (_, out) = ctx.into_parts();
    assert_eq!(out, plain);
}

#[test]
fn generation_update_touch_missing_leaf_aborts() {
    let mut store = InMemoryStore::new();
    let ghost_leaf = vec![0x33u8; 32];
    let root = put_index(&mut store, 1, &[ghost_leaf]);

    let acc: GenerationUpdateChunkAccessor<InMemoryStore, XorDecrypter, NoCompression> =
        GenerationUpdateChunkAccessor::new(store, NoCompression, vec![1], ReadPolicy::plain());
    let mut ctx = ReadContext::new(ChunkAccessor::GenerationUpdate(acc));
    let r = ctx.read_recursively(&request(root, 1, false));
    assert!(matches!(r, Err(Error::NotFound { .. })));
}

#[test]
fn newest_generation_wins_even_when_corrupt() {
    // First-found, not best-found: the newest generation's copy is the
    // one read, even if an older generation still holds a good copy.
    let mut store = InMemoryStore::new();
    let digest = put_chunk(&mut store, 1, b"pristine");
    let mut bad = b"pristine".to_vec();
    bad[0] ^= 0x01;
    store.write(2, &digest, bad).unwrap();

    let mut ctx = default_ctx(store, vec![1, 2]);
    let r = ctx.read_recursively(&request(digest, 0, true));
    assert!(matches!(r, Err(Error::Corrupted { .. })));
}

#[test]
fn older_corrupt_copy_is_shadowed_by_newer() {
    let mut store = InMemoryStore::new();
    let digest = put_chunk(&mut store, 2, b"fresh copy");
    let mut bad = b"fresh copy".to_vec();
    bad[1] ^= 0x02;
    store.write(1, &digest, bad).unwrap();

    let mut ctx = default_ctx(store, vec![1, 2]);
    ctx.read_recursively(&request(digest, 0, true)).unwrap();
    let (_, out) = ctx.into_parts();
    assert_eq!(out, b"fresh copy".to_vec());
}

#[test]
fn walk_promotes_index_chunks_too() {
    // A whole tree resident only in the old generation: one read pass
    // moves every chunk it reads under the current generation.
    let mut store = InMemoryStore::new();
    let leaf = put_chunk(&mut store, 1, b"body");
    let root = put_index(&mut store, 1, &[leaf.clone()]);

    let mut ctx = default_ctx(store, vec![1, 2]);
    ctx.read_recursively(&request(root.clone(), 1, true)).unwrap();
    let (acc, out) = ctx.into_parts();
    assert_eq!(out, b"body".to_vec());
    let mut store = match acc {
        ChunkAccessor::Default(a) => a.into_store(),
        _ => unreachable!(),
    };
    assert!(store.read(2, &root).is_ok());
    assert!(store.read(2, &leaf).is_ok());
}
