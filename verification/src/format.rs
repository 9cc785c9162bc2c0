//! The fixed-record codec: the contract a record type must satisfy to
//! take part in loading and conversion, and the raw encode and decode
//! of record sequences as back-to-back bytes without framing.

use vstd::prelude::*;
use vstd::bytes::{
    lemma_auto_spec_u16_to_from_le_bytes, lemma_auto_spec_u64_to_from_le_bytes,
    spec_u16_from_le_bytes, spec_u16_to_le_bytes, spec_u64_from_le_bytes, spec_u64_to_le_bytes,
    u16_from_le_bytes, u16_to_le_bytes, u64_from_le_bytes, u64_to_le_bytes,
};
use vstd::slice::slice_subrange;
use crate::ataxx::AtaxxBoard;

verus! {

/// A fixed-size binary training record.  The binary size is statically
/// declared, the encoding is byte-exact and lossless, and the accessors
/// expose what a trainer reads: score, result and feature-space bounds.
pub trait BulletFormat: Sized + Copy {
    /// The declared binary size of one record.
    spec fn spec_size() -> nat;

    /// The byte encoding of one record.
    spec fn enc(self) -> Seq<u8>;

    /// The record read back from one record's worth of bytes.
    spec fn dec(b: Seq<u8>) -> Self;

    /// The declared binary size, as a count of bytes.
    fn data_size() -> (n: usize)
        ensures
            n == Self::spec_size(),
            1 <= n,
    ;

    /// Writes the record's bytes.
    fn to_bytes(&self) -> (b: Vec<u8>)
        ensures
            b@ == self.enc(),
            b@.len() == Self::spec_size(),
    ;

    /// Reads a record back from its bytes.
    fn from_bytes(b: &[u8]) -> (r: Self)
        requires
            b@.len() == Self::spec_size(),
        ensures
            r == Self::dec(b@),
    ;

    /// The encoding is the declared size and decodes to the record it
    /// was written from.
    proof fn lemma_codec_roundtrip(self)
        ensures
            self.enc().len() == Self::spec_size(),
            Self::dec(self.enc()) == self,
    ;

    /// The evaluation score.
    fn score(&self) -> i16;

    /// The game result as an index in 0..=2.
    fn result_idx(&self) -> (r: usize)
        ensures
            r <= 2,
    ;

    /// The total addressable feature-index space.
    fn inputs() -> usize;

    /// The maximum number of simultaneously active sparse features.
    fn max_features() -> usize;

    /// The largest batch a converter asks the loader for.
    fn max_batch_size() -> (n: usize)
        ensures
            1 <= n,
    ;
}

/// The unsigned bit pattern of a signed 16-bit value.
pub open spec fn spec_i16_bits(x: i16) -> u16 {
    if x >= 0 {
        x as u16
    } else {
        (x + 65536) as u16
    }
}

/// The signed 16-bit value of an unsigned bit pattern.
pub open spec fn spec_bits_i16(v: u16) -> i16 {
    if v <= 32767 {
        v as i16
    } else {
        (v - 65536) as i16
    }
}

pub proof fn lemma_i16_bits_roundtrip(x: i16)
    ensures
        spec_bits_i16(spec_i16_bits(x)) == x,
{
}

/// The byte a flag is stored as.
pub open spec fn spec_bool_byte(b: bool) -> u8 {
    if b {
        1u8
    } else {
        0u8
    }
}

impl BulletFormat for AtaxxBoard {
    /// 32 bytes: three 8-byte planes, a 2-byte score, the result byte,
    /// the side flag, a 2-byte full-move counter, the half-move byte
    /// and one reserved byte.
    open spec fn spec_size() -> nat {
        32
    }

    open spec fn enc(self) -> Seq<u8> {
        spec_u64_to_le_bytes(self.bb0) + spec_u64_to_le_bytes(self.bb1) + spec_u64_to_le_bytes(
            self.bb2,
        ) + spec_u16_to_le_bytes(spec_i16_bits(self.score)) + seq![
            self.result,
            spec_bool_byte(self.stm),
        ] + spec_u16_to_le_bytes(self.fullm) + seq![self.halfm, self.extra]
    }

    open spec fn dec(b: Seq<u8>) -> Self {
        AtaxxBoard {
            bb0: spec_u64_from_le_bytes(b.subrange(0, 8)),
            bb1: spec_u64_from_le_bytes(b.subrange(8, 16)),
            bb2: spec_u64_from_le_bytes(b.subrange(16, 24)),
            score: spec_bits_i16(spec_u16_from_le_bytes(b.subrange(24, 26))),
            result: b[26],
            stm: b[27] != 0,
            fullm: spec_u16_from_le_bytes(b.subrange(28, 30)),
            halfm: b[30],
            extra: b[31],
        }
    }

    fn data_size() -> (n: usize) {
        32
    }

    fn to_bytes(&self) -> (b: Vec<u8>) {
        proof {
            lemma_auto_spec_u64_to_from_le_bytes();
            lemma_auto_spec_u16_to_from_le_bytes();
        }
        let mut out: Vec<u8> = Vec::new();
        let mut t = u64_to_le_bytes(self.bb0);
        out.append(&mut t);
        let mut t = u64_to_le_bytes(self.bb1);
        out.append(&mut t);
        let mut t = u64_to_le_bytes(self.bb2);
        out.append(&mut t);
        let score_bits: u16 = if self.score >= 0 {
            self.score as u16
        } else {
            ((self.score as i32) + 65536) as u16
        };
        let mut t = u16_to_le_bytes(score_bits);
        out.append(&mut t);
        out.push(self.result);
        out.push(if self.stm {
            1
        } else {
            0
        });
        let mut t = u16_to_le_bytes(self.fullm);
        out.append(&mut t);
        out.push(self.halfm);
        out.push(self.extra);
        proof {
            assert(out@ =~= self.enc());
        }
        out
    }

    fn from_bytes(b: &[u8]) -> (r: Self) {
        proof {
            lemma_auto_spec_u64_to_from_le_bytes();
            lemma_auto_spec_u16_to_from_le_bytes();
        }
        let bb0 = u64_from_le_bytes(slice_subrange(b, 0, 8));
        let bb1 = u64_from_le_bytes(slice_subrange(b, 8, 16));
        let bb2 = u64_from_le_bytes(slice_subrange(b, 16, 24));
        let score_bits = u16_from_le_bytes(slice_subrange(b, 24, 26));
        let score: i16 = if score_bits <= 32767 {
            score_bits as i16
        } else {
            ((score_bits as i32) - 65536) as i16
        };
        let result = b[26];
        let stm = b[27] != 0;
        let fullm = u16_from_le_bytes(slice_subrange(b, 28, 30));
        let halfm = b[30];
        let extra = b[31];
        AtaxxBoard { bb0, bb1, bb2, score, result, stm, fullm, halfm, extra }
    }

    proof fn lemma_codec_roundtrip(self) {
        lemma_auto_spec_u64_to_from_le_bytes();
        lemma_auto_spec_u16_to_from_le_bytes();
        let e = self.enc();
        assert(e.subrange(0, 8) =~= spec_u64_to_le_bytes(self.bb0));
        assert(e.subrange(8, 16) =~= spec_u64_to_le_bytes(self.bb1));
        assert(e.subrange(16, 24) =~= spec_u64_to_le_bytes(self.bb2));
        assert(e.subrange(24, 26) =~= spec_u16_to_le_bytes(spec_i16_bits(self.score)));
        assert(e[26] == self.result);
        assert(e[27] == spec_bool_byte(self.stm));
        assert(e.subrange(28, 30) =~= spec_u16_to_le_bytes(self.fullm));
        assert(e[30] == self.halfm);
        assert(e[31] == self.extra);
    }

    fn score(&self) -> i16 {
        self.score
    }

    fn result_idx(&self) -> (r: usize) {
        if self.result <= 2 {
            self.result as usize
        } else {
            2
        }
    }

    /// 147 feature indices: three planes of 49 cells.
    fn inputs() -> usize {
        147
    }

    /// At most 49 cells are occupied at once.
    fn max_features() -> usize {
        49
    }

    fn max_batch_size() -> usize {
        16384
    }
}

/// The byte encoding of a record sequence: each record's bytes in
/// sequence order, with no added framing.
pub open spec fn spec_encode_records<T: BulletFormat>(rs: Seq<T>) -> Seq<u8>
    decreases rs.len(),
{
    if rs.len() == 0 {
        Seq::<u8>::empty()
    } else {
        spec_encode_records(rs.drop_last()) + rs.last().enc()
    }
}

/// Encodes a record sequence to back-to-back bytes.
#[verifier::loop_isolation(false)]
pub fn encode_records<T: BulletFormat>(rs: &Vec<T>) -> (out: Vec<u8>)
    ensures
        out@ == spec_encode_records(rs@),
{
    let mut out: Vec<u8> = Vec::new();
    let mut i: usize = 0;
    proof {
        assert(rs@.take(0) =~= Seq::<T>::empty());
    }
    while i < rs.len()
        invariant
            0 <= i <= rs@.len(),
            out@ == spec_encode_records(rs@.take(i as int)),
        decreases rs@.len() - i,
    {
        let mut b = rs[i].to_bytes();
        out.append(&mut b);
        i = i + 1;
        proof {
            assert(rs@.take(i as int).drop_last() =~= rs@.take(i - 1));
            assert(rs@.take(i as int).last() == rs@[i - 1]);
        }
    }
    proof {
        assert(rs@.take(rs@.len() as int) =~= rs@);
    }
    out
}

/// The total encoded length is the record count times the record size.
pub proof fn lemma_encode_records_len<T: BulletFormat>(rs: Seq<T>)
    ensures
        spec_encode_records(rs).len() == rs.len() * T::spec_size(),
    decreases rs.len(),
{
    if rs.len() == 0 {
    } else {
        lemma_encode_records_len::<T>(rs.drop_last());
        rs.last().lemma_codec_roundtrip();
        assert((rs.len() - 1) * T::spec_size() + T::spec_size() == rs.len() * T::spec_size())
            by (nonlinear_arith);
    }
}

/// Reads back the records of a byte buffer: one record per whole
/// record-sized slice, a trailing partial record silently dropped.
#[verifier::loop_isolation(false)]
pub fn decode_records<T: BulletFormat>(bytes: &[u8]) -> (out: Vec<T>)
    ensures
        out@.len() == bytes@.len() as int / T::spec_size() as int,
        forall|i: int|
            0 <= i < out@.len() ==> out@[i] == T::dec(
                #[trigger] bytes@.subrange(i * T::spec_size(), (i + 1) * T::spec_size()),
            ),
{
    let size = T::data_size();
    let n = bytes.len() / size;
    let mut out: Vec<T> = Vec::new();
    let mut i: usize = 0;
    while i < n
        invariant
            0 <= i <= n,
            n == bytes@.len() as int / T::spec_size() as int,
            size == T::spec_size(),
            out@.len() == i,
            forall|k: int|
                0 <= k < i ==> out@[k] == T::dec(
                    #[trigger] bytes@.subrange(k * T::spec_size(), (k + 1) * T::spec_size()),
                ),
        decreases n - i,
    {
        proof {
            assert(i * size + size <= n * size <= bytes@.len()) by (nonlinear_arith)
                requires
                    i < n,
                    size >= 1,
                    n == bytes@.len() as int / size as int,
            ;
            assert((i + 1) * size == i * size + size) by (nonlinear_arith);
        }
        let piece = slice_subrange(bytes, i * size, i * size + size);
        let r = T::from_bytes(piece);
        out.push(r);
        i = i + 1;
    }
    out
}

} // verus!
