//! Re-chunking an index byte stream into whole digest records.
//!
//! Index chunk plaintext is a flat concatenation of 32-byte digests, but
//! it arrives as arbitrary, unaligned slices. The translator buffers up
//! to 31 bytes of a partial record and hands back every record completed
//! by each incoming slice, however the stream is split.

use vstd::prelude::*;

use crate::hashing::DIGEST_SIZE;

verus! {

/// The whole digest records at the front of a byte string.
pub open spec fn complete_records(s: Seq<u8>) -> Seq<Seq<u8>> {
    Seq::new((s.len() as int / 32) as nat, |i: int| s.subrange(32 * i, 32 * i + 32))
}

/// What is left of a byte string after its whole records.
pub open spec fn record_rem(s: Seq<u8>) -> Seq<u8> {
    s.subrange(32 * (s.len() as int / 32), s.len() as int)
}

/// Translates an index byte stream into digest records.
///
/// Holds the bytes of at most one partial record between writes. On
/// normal completion of an index chunk the buffer must come out empty;
/// a remainder means truncated or malformed index content, and the
/// walker turns it into a hard error.
pub struct IndexTranslator {
    buf: Vec<u8>,
}

impl IndexTranslator {
    /// The bytes of the partial record currently buffered.
    pub closed spec fn buffered(&self) -> Seq<u8> {
        self.buf@
    }

    #[verifier::type_invariant]
    spec fn inv(&self) -> bool {
        self.buf@.len() < 32
    }

    pub fn new() -> (r: IndexTranslator)
        ensures
            r.buffered() == Seq::<u8>::empty(),
    {
        let r = IndexTranslator { buf: Vec::new() };
        proof {
            assert(r.buffered() =~= Seq::<u8>::empty());
        }
        r
    }

    /// How many bytes of a partial record are buffered.
    pub fn buffered_len(&self) -> (r: usize)
        ensures
            r == self.buffered().len(),
    {
        self.buf.len()
    }

    /// Feed one slice of the index stream; hand back, in stream order,
    /// every digest record it completes.
    pub fn write(&mut self, bytes: &[u8]) -> (records: Vec<Vec<u8>>)
        requires
            bytes@.len() > 0,
        ensures
            records@.map_values(|v: Vec<u8>| v@) == complete_records(
                old(self).buffered() + bytes@,
            ),
            final(self).buffered() == record_rem(old(self).buffered() + bytes@),
    {
        proof {
            use_type_invariant(&*self);
        }
        let ghost total = self.buf@ + bytes@;
        let ghost b0 = self.buf@.len() as int;
        let ghost n = total.len() as int / 32;

        let mut buf: Vec<u8> = Vec::new();
        std::mem::swap(&mut buf, &mut self.buf);
        let mut records: Vec<Vec<u8>> = Vec::new();
        let mut pos: usize = 0;

        // Top up the partial record left by earlier writes.
        if buf.len() > 0 {
            while buf.len() < DIGEST_SIZE && pos < bytes.len()
                invariant
                    0 <= pos <= bytes@.len(),
                    buf@.len() == b0 + pos,
                    buf@.len() <= 32,
                    total == old(self).buffered() + bytes@,
                    b0 == old(self).buffered().len(),
                    buf@ == total.take(b0 + pos),
                decreases 32 - buf@.len(),
            {
                buf.push(bytes[pos]);
                proof {
                    assert(buf@ =~= total.take(b0 + pos + 1));
                }
                pos += 1;
            }
            if buf.len() == DIGEST_SIZE {
                proof {
                    assert(buf@ =~= total.subrange(0, 32));
                    assert(complete_records(total)[0] == total.subrange(0, 32));
                }
                records.push(buf);
                buf = Vec::new();
                proof {
                    assert(records@.map_values(|v: Vec<u8>| v@) =~= complete_records(total).take(
                        1,
                    ));
                }
            } else {
                // The slice ran out below a whole record.
                proof {
                    assert(pos == bytes@.len());
                    assert(total.len() < 32);
                    assert(complete_records(total) =~= Seq::<Seq<u8>>::empty());
                    assert(records@.map_values(|v: Vec<u8>| v@) =~= complete_records(total));
                    assert(buf@ =~= record_rem(total));
                }
                self.buf = buf;
                return records;
            }
        }

        // Whole records straight out of the incoming slice.
        while bytes.len() - pos >= DIGEST_SIZE
            invariant
                0 <= pos <= bytes@.len(),
                n == total.len() as int / 32,
                total == old(self).buffered() + bytes@,
                b0 == old(self).buffered().len(),
                total.len() == b0 + bytes@.len(),
                0 <= b0 < 32,
                b0 + pos == 32 * records@.len(),
                records@.map_values(|v: Vec<u8>| v@) == complete_records(total).take(
                    records@.len() as int,
                ),
                records@.len() <= n,
                buf@.len() == 0,
            decreases bytes@.len() - pos,
        {
            let ghost k = records@.len() as int;
            let mut rec: Vec<u8> = Vec::new();
            let mut q: usize = 0;
            let end: usize = pos + DIGEST_SIZE;
            while q < DIGEST_SIZE
                invariant
                    0 <= q <= 32,
                    end == pos + 32,
                    pos + 32 <= bytes@.len(),
                    rec@ == bytes@.subrange(pos as int, pos + q),
                decreases 32 - q,
            {
                rec.push(bytes[pos + q]);
                proof {
                    assert(rec@ =~= bytes@.subrange(pos as int, pos + q + 1));
                }
                q += 1;
            }
            proof {
                assert(rec@ =~= total.subrange(32 * k, 32 * k + 32));
                assert(32 * k + 32 <= total.len());
                assert(32 * (k + 1) <= total.len());
                assert(k + 1 <= n) by (nonlinear_arith)
                    requires
                        32 * (k + 1) <= total.len(),
                        n == total.len() as int / 32,
                {}
                assert(complete_records(total)[k] == total.subrange(32 * k, 32 * k + 32));
            }
            records.push(rec);
            proof {
                assert(records@.map_values(|v: Vec<u8>| v@) =~= complete_records(total).take(
                    records@.len() as int,
                ));
            }
            pos = end;
        }

        proof {
            let k = records@.len() as int;
            assert(32 * k <= total.len() < 32 * k + 32);
            assert(k == n) by (nonlinear_arith)
                requires
                    32 * k <= total.len() < 32 * k + 32,
                    n == total.len() as int / 32,
            {}
            assert(records@.map_values(|v: Vec<u8>| v@) =~= complete_records(total));
        }

        // The tail below a whole record stays buffered.
        while pos < bytes.len()
            invariant
                0 <= pos <= bytes@.len(),
                n == total.len() as int / 32,
                total == old(self).buffered() + bytes@,
                b0 == old(self).buffered().len(),
                total.len() == b0 + bytes@.len(),
                b0 + pos >= 32 * n,
                b0 + bytes@.len() < 32 * n + 32,
                buf@ == total.subrange(32 * n, b0 + pos),
            decreases bytes@.len() - pos,
        {
            buf.push(bytes[pos]);
            proof {
                assert(buf@ =~= total.subrange(32 * n, b0 + pos + 1));
            }
            pos += 1;
        }
        proof {
            assert(buf@ =~= record_rem(total));
        }
        self.buf = buf;
        records
    }
}

/// Feeding a stream in two pieces completes the same records, in the
/// same order, as feeding it whole: the records of `s + t` are those of
/// `s` followed by those completed once the remainder of `s` meets `t`,
/// and the final remainder agrees too. By induction over a partition,
/// the records recovered from an index stream do not depend on how the
/// writes were split.
pub proof fn lemma_records_split(s: Seq<u8>, t: Seq<u8>)
    ensures
        complete_records(s + t) == complete_records(s) + complete_records(record_rem(s) + t),
        record_rem(s + t) == record_rem(record_rem(s) + t),
{
    let ns = s.len() as int / 32;
    let rs = record_rem(s);
    let n = (s + t).len() as int / 32;
    let m = (rs + t).len() as int / 32;
    assert(32 * ns <= s.len() < 32 * ns + 32) by (nonlinear_arith)
        requires
            ns == s.len() as int / 32,
    {}
    assert(rs.len() == s.len() - 32 * ns);
    assert((rs + t).len() == s.len() + t.len() - 32 * ns);
    assert(n == ns + m) by (nonlinear_arith)
        requires
            n == (s.len() + t.len()) as int / 32,
            m == (s.len() + t.len() - 32 * ns) as int / 32,
            32 * ns <= s.len(),
    {}
    assert forall|i: int| 0 <= i < n implies complete_records(s + t)[i] == (complete_records(s)
        + complete_records(rs + t))[i] by {
        if i < ns {
            assert(32 * i + 32 <= 32 * ns) by (nonlinear_arith)
                requires
                    i + 1 <= ns,
            {}
            assert((s + t).subrange(32 * i, 32 * i + 32) =~= s.subrange(32 * i, 32 * i + 32));
        } else {
            let j = i - ns;
            assert((s + t).subrange(32 * i, 32 * i + 32) =~= (rs + t).subrange(
                32 * j,
                32 * j + 32,
            )) by {
                assert(32 * i == 32 * ns + 32 * j) by (nonlinear_arith)
                    requires
                        i == ns + j,
                {}
                assert(32 * j + 32 <= (rs + t).len()) by (nonlinear_arith)
                    requires
                        j + 1 <= m,
                        m == (rs + t).len() as int / 32,
                {}
                assert forall|p: int| 0 <= p < 32 implies #[trigger] (s + t)[32 * i + p] == (rs
                    + t)[32 * j + p] by {
                    if 32 * j + p < rs.len() {
                        assert(rs[32 * j + p] == s[32 * ns + 32 * j + p]);
                    }
                }
            }
        }
    }
    assert(complete_records(s + t) =~= complete_records(s) + complete_records(rs + t));
    assert(record_rem(s + t) =~= record_rem(rs + t)) by {
        assert(32 * n == 32 * ns + 32 * m) by (nonlinear_arith)
            requires
                n == ns + m,
        {}
        assert forall|p: int| 0 <= p < (s + t).len() - 32 * n implies #[trigger] (s + t)[32 * n
            + p] == (rs + t)[32 * m + p] by {
            if 32 * m + p < rs.len() {
                assert(rs[32 * m + p] == s[32 * ns + 32 * m + p]);
            }
        }
    }
}

} // verus!
