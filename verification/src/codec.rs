//! Chunk kinds, the read policy, and the decrypt/decompress collaborators.
//!
//! Whether a chunk's stored bytes are encrypted or compressed is decided
//! by an injectable [`ReadPolicy`], per chunk kind. The transforms
//! themselves are collaborators behind the [`Decrypter`] and
//! [`Compression`] traits; the engine only sequences them (decrypt first,
//! then decompress) and checks the digest of the result.

use vstd::prelude::*;

use crate::errors::Error;

verus! {

/// The kind of a chunk: leaf data, or index content (a flat list of
/// child digests).
#[derive(Debug, Clone, Copy, PartialEq, Eq, Structural)]
pub enum DataType {
    Data,
    Index,
}

/// Which chunk kinds are stored encrypted and which compressed.
#[derive(Debug, Clone, Copy, PartialEq, Eq, Structural)]
pub struct ReadPolicy {
    pub encrypt_data: bool,
    pub encrypt_index: bool,
    pub compress_data: bool,
    pub compress_index: bool,
}

impl ReadPolicy {
    /// Nothing encrypted, nothing compressed.
    pub fn plain() -> (r: ReadPolicy)
        ensures
            !r.encrypt_data && !r.encrypt_index && !r.compress_data && !r.compress_index,
    {
        ReadPolicy { encrypt_data: false, encrypt_index: false, compress_data: false, compress_index: false }
    }

    pub open spec fn spec_should_encrypt(self, data_type: DataType) -> bool {
        match data_type {
            DataType::Data => self.encrypt_data,
            DataType::Index => self.encrypt_index,
        }
    }

    pub open spec fn spec_should_compress(self, data_type: DataType) -> bool {
        match data_type {
            DataType::Data => self.compress_data,
            DataType::Index => self.compress_index,
        }
    }

    pub fn should_encrypt(&self, data_type: DataType) -> (r: bool)
        ensures
            r == self.spec_should_encrypt(data_type),
    {
        match data_type {
            DataType::Data => self.encrypt_data,
            DataType::Index => self.encrypt_index,
        }
    }

    pub fn should_compress(&self, data_type: DataType) -> (r: bool)
        ensures
            r == self.spec_should_compress(data_type),
    {
        match data_type {
            DataType::Data => self.compress_data,
            DataType::Index => self.compress_index,
        }
    }
}

/// Recovers a chunk's pre-encryption bytes. The requested digest is
/// passed as context, as the write path may bind the ciphertext to it.
/// Decryption must be a function of ciphertext and context alone.
pub trait Decrypter: Sized {
    /// Whether the ciphertext is acceptable at all.
    spec fn spec_can_decrypt(&self, cipher: Seq<u8>, digest: Seq<u8>) -> bool;

    /// The recovered bytes, when acceptable.
    spec fn spec_plaintext(&self, cipher: Seq<u8>, digest: Seq<u8>) -> Seq<u8>;

    fn decrypt(&self, cipher: Vec<u8>, digest: &[u8]) -> (r: Result<Vec<u8>, Error>)
        ensures
            r is Ok <==> self.spec_can_decrypt(cipher@, digest@),
            r matches Ok(p) ==> p@ == self.spec_plaintext(cipher@, digest@),
            r matches Err(e) ==> e == Error::DecryptFailed,
    ;
}

/// Undoes the write path's compression. Must be a function of the input
/// bytes alone.
pub trait Compression: Sized {
    /// Whether the bytes decompress at all.
    spec fn spec_can_decompress(&self, data: Seq<u8>) -> bool;

    /// The decompressed bytes, when acceptable.
    spec fn spec_decompressed(&self, data: Seq<u8>) -> Seq<u8>;

    fn decompress(&self, data: Vec<u8>) -> (r: Result<Vec<u8>, Error>)
        ensures
            r is Ok <==> self.spec_can_decompress(data@),
            r matches Ok(p) ==> p@ == self.spec_decompressed(data@),
            r matches Err(e) ==> e == Error::DecompressFailed,
    ;
}

/// A reversible single-byte-key transform, usable as a stand-in cipher
/// where the repository's real cipher is configured elsewhere.
#[derive(Debug, Clone, Copy, PartialEq, Eq, Structural)]
pub struct XorDecrypter {
    pub key: u8,
}

impl Decrypter for XorDecrypter {
    open spec fn spec_can_decrypt(&self, cipher: Seq<u8>, digest: Seq<u8>) -> bool {
        true
    }

    open spec fn spec_plaintext(&self, cipher: Seq<u8>, digest: Seq<u8>) -> Seq<u8> {
        cipher.map_values(|b: u8| b ^ self.key)
    }

    fn decrypt(&self, cipher: Vec<u8>, digest: &[u8]) -> (r: Result<Vec<u8>, Error>) {
        let mut out: Vec<u8> = Vec::new();
        let mut i: usize = 0;
        while i < cipher.len()
            invariant
                0 <= i <= cipher@.len(),
                out@ == cipher@.take(i as int).map_values(|b: u8| b ^ self.key),
            decreases cipher@.len() - i,
        {
            out.push(cipher[i] ^ self.key);
            proof {
                assert(cipher@.take(i + 1).drop_last() =~= cipher@.take(i as int));
                assert(out@ =~= cipher@.take(i + 1).map_values(|b: u8| b ^ self.key));
            }
            i += 1;
        }
        proof {
            assert(cipher@.take(cipher@.len() as int) =~= cipher@);
        }
        Ok(out)
    }
}

/// The identity compression: stored bytes are already the plaintext.
#[derive(Debug, Clone, Copy, PartialEq, Eq, Structural)]
pub struct NoCompression;

impl Compression for NoCompression {
    open spec fn spec_can_decompress(&self, data: Seq<u8>) -> bool {
        true
    }

    open spec fn spec_decompressed(&self, data: Seq<u8>) -> Seq<u8> {
        data
    }

    fn decompress(&self, data: Vec<u8>) -> (r: Result<Vec<u8>, Error>) {
        Ok(data)
    }
}

/// What decoding a chunk's stored bytes yields: decrypt if the policy
/// says so (failing when no decrypter is at hand), then decompress.
pub open spec fn spec_decode<D: Decrypter, C: Compression>(
    stored: Seq<u8>,
    digest: Seq<u8>,
    data_type: DataType,
    policy: ReadPolicy,
    decrypter: Option<D>,
    compression: C,
) -> Result<Seq<u8>, Error> {
    if policy.spec_should_encrypt(data_type) && decrypter is None {
        Err(Error::MissingDecrypter)
    } else {
        let step1 = if policy.spec_should_encrypt(data_type) {
            if decrypter->0.spec_can_decrypt(stored, digest) {
                Ok(decrypter->0.spec_plaintext(stored, digest))
            } else {
                Err(Error::DecryptFailed)
            }
        } else {
            Ok(stored)
        };
        match step1 {
            Err(e) => Err(e),
            Ok(mid) => if policy.spec_should_compress(data_type) {
                if compression.spec_can_decompress(mid) {
                    Ok(compression.spec_decompressed(mid))
                } else {
                    Err(Error::DecompressFailed)
                }
            } else {
                Ok(mid)
            },
        }
    }
}

/// Decrypt (if the policy asks it) and then decompress (likewise) a
/// chunk's stored bytes, recovering the plaintext whose digest is to be
/// checked by the caller.
pub fn decode_chunk<D: Decrypter, C: Compression>(
    stored: Vec<u8>,
    digest: &[u8],
    data_type: DataType,
    policy: &ReadPolicy,
    decrypter: &Option<D>,
    compression: &C,
) -> (r: Result<Vec<u8>, Error>)
    ensures
        ({
            let expected = spec_decode(stored@, digest@, data_type, *policy, *decrypter, *compression);
            &&& r is Ok <==> expected is Ok
            &&& r matches Ok(p) ==> p@ == expected->Ok_0
            &&& r matches Err(e) ==> e == expected->Err_0
        }),
{
    let step1 = if policy.should_encrypt(data_type) {
        match decrypter {
            None => {
                return Err(Error::MissingDecrypter);
            },
            Some(d) => {
                match d.decrypt(stored, digest) {
                    Ok(p) => p,
                    Err(e) => {
                        return Err(e);
                    },
                }
            },
        }
    } else {
        stored
    };
    if policy.should_compress(data_type) {
        compression.decompress(step1)
    } else {
        Ok(step1)
    }
}

} // verus!
