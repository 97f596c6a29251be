//! Big-endian integer encoding and a byte cursor that the page and
//! schema decoders read from.

use vstd::prelude::*;
use byteorder::{BigEndian, ByteOrder};
use crate::error::{DbError, DbResult, eof, eof_error};

verus! {

/// `256^n`.
pub open spec fn pow256(n: nat) -> nat
    decreases n,
{
    if n == 0 { 1 } else { 256 * pow256((n - 1) as nat) }
}

/// The unsigned number whose big-endian bytes are `s`.
pub open spec fn be_value(s: Seq<u8>) -> nat
    decreases s.len(),
{
    if s.len() == 0 {
        0
    } else {
        be_value(s.drop_last()) * 256 + (s.last() as nat)
    }
}

/// The `n` low-order bytes of `v`, most significant first.
pub open spec fn be_bytes(v: nat, n: nat) -> Seq<u8>
    decreases n,
{
    if n == 0 {
        Seq::empty()
    } else {
        be_bytes(v / 256, (n - 1) as nat).push((v % 256) as u8)
    }
}

/// The two's-complement bit pattern of `v`, read as an unsigned number.
pub open spec fn i64_bits(v: i64) -> nat {
    if v >= 0 { v as nat } else { (v + 0x1_0000_0000_0000_0000) as nat }
}

/// The signed number whose two's-complement bit pattern is `u`.
pub open spec fn i64_of_bits(u: nat) -> int {
    if u < 0x8000_0000_0000_0000 { u as int } else { u - 0x1_0000_0000_0000_0000 }
}

pub proof fn lemma_pow256_values()
    ensures
        pow256(1) == 256,
        pow256(2) == 0x1_0000,
        pow256(8) == 0x1_0000_0000_0000_0000,
{
    reveal_with_fuel(pow256, 9);
}

pub proof fn lemma_be_bytes_len(v: nat, n: nat)
    ensures
        be_bytes(v, n).len() == n,
    decreases n,
{
    if n > 0 {
        lemma_be_bytes_len(v / 256, (n - 1) as nat);
    }
}

pub proof fn lemma_be_value_bound(s: Seq<u8>)
    ensures
        be_value(s) < pow256(s.len()),
    decreases s.len(),
{
    if s.len() > 0 {
        let d = s.drop_last();
        lemma_be_value_bound(d);
        let a = be_value(d);
        let p = pow256(d.len());
        let l = s.last() as nat;
        assert(a * 256 + l < 256 * p) by (nonlinear_arith)
            requires
                a < p,
                l < 256,
        ;
    }
}

/// Decoding the encoding of a number that fits gives the number back.
pub proof fn lemma_be_value_of_bytes(v: nat, n: nat)
    requires
        v < pow256(n),
    ensures
        be_value(be_bytes(v, n)) == v,
    decreases n,
{
    if n > 0 {
        let q = v / 256;
        let p = pow256((n - 1) as nat);
        assert(q < p && v == q * 256 + v % 256) by (nonlinear_arith)
            requires
                v < 256 * p,
                q == v / 256,
        ;
        lemma_be_value_of_bytes(q, (n - 1) as nat);
        assert(be_bytes(v, n).drop_last() =~= be_bytes(q, (n - 1) as nat));
    }
}

/// Encoding the value of some bytes gives the same bytes back.
pub proof fn lemma_be_bytes_of_value(s: Seq<u8>)
    ensures
        be_bytes(be_value(s), s.len()) == s,
    decreases s.len(),
{
    if s.len() > 0 {
        let d = s.drop_last();
        let a = be_value(d);
        let l = s.last() as nat;
        assert((a * 256 + l) / 256 == a && (a * 256 + l) % 256 == l) by (nonlinear_arith)
            requires
                l < 256,
        ;
        lemma_be_bytes_of_value(d);
        assert(be_bytes(be_value(s), s.len()) =~= s);
    }
}

pub proof fn lemma_i64_bits(v: i64)
    ensures
        i64_bits(v) < 0x1_0000_0000_0000_0000,
        i64_of_bits(i64_bits(v)) == v,
{
}

/// Reads a big-endian `u16` from `buf` at `pos` (byteorder's `BigEndian::read_u16`):
/// the result is the number whose big-endian bytes are the two at `pos`.
#[verifier::external_body]
pub(crate) fn read_u16_at(buf: &[u8], pos: usize) -> (r: u16)
    requires
        pos + 2 <= buf@.len(),
    ensures
        r as nat == be_value(buf@.subrange(pos as int, pos + 2)),
{
    BigEndian::read_u16(&buf[pos..])
}

/// Reads a big-endian `u64` from `buf` at `pos` (byteorder's `BigEndian::read_u64`):
/// the result is the number whose big-endian bytes are the eight at `pos`.
#[verifier::external_body]
pub(crate) fn read_u64_at(buf: &[u8], pos: usize) -> (r: u64)
    requires
        pos + 8 <= buf@.len(),
    ensures
        r as nat == be_value(buf@.subrange(pos as int, pos + 8)),
{
    BigEndian::read_u64(&buf[pos..])
}

/// Reads a big-endian `i64` from `buf` at `pos` (byteorder's `BigEndian::read_i64`):
/// the result is the signed number whose two's-complement big-endian bytes are the
/// eight at `pos`.
#[verifier::external_body]
pub(crate) fn read_i64_at(buf: &[u8], pos: usize) -> (r: i64)
    requires
        pos + 8 <= buf@.len(),
    ensures
        r as int == i64_of_bits(be_value(buf@.subrange(pos as int, pos + 8))),
{
    BigEndian::read_i64(&buf[pos..])
}

/// Appends the two big-endian bytes of `n` to `out` (byteorder's `BigEndian::write_u16`).
#[verifier::external_body]
pub(crate) fn append_u16(out: &mut Vec<u8>, n: u16)
    ensures
        final(out)@ == old(out)@ + be_bytes(n as nat, 2),
{
    let mut b = [0u8; 2];
    BigEndian::write_u16(&mut b, n);
    out.extend_from_slice(&b);
}

/// Appends the eight big-endian bytes of `n` to `out` (byteorder's `BigEndian::write_u64`).
#[verifier::external_body]
pub(crate) fn append_u64(out: &mut Vec<u8>, n: u64)
    ensures
        final(out)@ == old(out)@ + be_bytes(n as nat, 8),
{
    let mut b = [0u8; 8];
    BigEndian::write_u64(&mut b, n);
    out.extend_from_slice(&b);
}

/// Appends the eight big-endian two's-complement bytes of `n` to `out`
/// (byteorder's `BigEndian::write_i64`).
#[verifier::external_body]
pub(crate) fn append_i64(out: &mut Vec<u8>, n: i64)
    ensures
        final(out)@ == old(out)@ + be_bytes(i64_bits(n), 8),
{
    let mut b = [0u8; 8];
    BigEndian::write_i64(&mut b, n);
    out.extend_from_slice(&b);
}

/// Appends one byte.
pub fn append_u8(out: &mut Vec<u8>, b: u8)
    ensures
        final(out)@ == old(out)@ + seq![b],
{
    out.push(b);
    assert(out@ =~= old(out)@ + seq![b]);
}

/// Appends all bytes of `bytes`.
pub fn append_bytes(out: &mut Vec<u8>, bytes: &[u8])
    ensures
        final(out)@ == old(out)@ + bytes@,
{
    let mut i: usize = 0;
    while i < bytes.len()
        invariant
            i <= bytes@.len(),
            out@ == old(out)@ + bytes@.take(i as int),
        decreases bytes@.len() - i,
    {
        out.push(bytes[i]);
        i = i + 1;
        assert(out@ =~= old(out)@ + bytes@.take(i as int));
    }
    assert(bytes@.take(i as int) =~= bytes@);
}

/// A read position over an owned buffer of bytes.
pub struct Cursor {
    data: Vec<u8>,
    pos: usize,
}

impl Cursor {
    #[verifier::type_invariant]
    spec fn inv(self) -> bool {
        self.pos <= self.data@.len()
    }

    /// The bytes that have not been read yet.
    pub closed spec fn remaining(&self) -> Seq<u8> {
        self.data@.subrange(self.pos as int, self.data@.len() as int)
    }

    pub fn new(data: Vec<u8>) -> (c: Cursor)
        ensures
            c.remaining() == data@,
    {
        let c = Cursor { data, pos: 0 };
        assert(c.remaining() =~= data@);
        c
    }

    /// Consumes `n` bytes, or fails with the end-of-input error when fewer remain.
    fn take(&mut self, n: usize) -> (r: DbResult<usize>)
        ensures
            n <= old(self).remaining().len() ==> r == Ok::<usize, DbError>(old(self).pos)
                && final(self).remaining() == old(self).remaining().skip(n as int)
                && final(self).data == old(self).data
                && old(self).pos + n <= old(self).data@.len(),
            n > old(self).remaining().len() ==> r == Err::<usize, DbError>(eof())
                && final(self).remaining() == old(self).remaining(),
    {
        proof {
            use_type_invariant(&*self);
        }
        if n <= self.data.len() - self.pos {
            let start = self.pos;
            self.pos = self.pos + n;
            assert(self.remaining() =~= old(self).remaining().skip(n as int));
            Ok(start)
        } else {
            Err(eof_error())
        }
    }

    pub fn read_u8(&mut self) -> (r: DbResult<u8>)
        ensures
            match r {
                Ok(b) => old(self).remaining().len() >= 1 && b == old(self).remaining()[0]
                    && final(self).remaining() == old(self).remaining().skip(1),
                Err(e) => old(self).remaining().len() < 1 && e == eof()
                    && final(self).remaining() == old(self).remaining(),
            },
    {
        let start = self.take(1)?;
        Ok(self.data[start])
    }

    pub fn read_u16_be(&mut self) -> (r: DbResult<u16>)
        ensures
            match r {
                Ok(v) => old(self).remaining().len() >= 2
                    && v as nat == be_value(old(self).remaining().take(2))
                    && final(self).remaining() == old(self).remaining().skip(2),
                Err(e) => old(self).remaining().len() < 2 && e == eof()
                    && final(self).remaining() == old(self).remaining(),
            },
    {
        let start = self.take(2)?;
        let v = read_u16_at(self.data.as_slice(), start);
        assert(self.data@.subrange(start as int, start + 2) =~= old(self).remaining().take(2));
        Ok(v)
    }

    pub fn read_u64_be(&mut self) -> (r: DbResult<u64>)
        ensures
            match r {
                Ok(v) => old(self).remaining().len() >= 8
                    && v as nat == be_value(old(self).remaining().take(8))
                    && final(self).remaining() == old(self).remaining().skip(8),
                Err(e) => old(self).remaining().len() < 8 && e == eof()
                    && final(self).remaining() == old(self).remaining(),
            },
    {
        let start = self.take(8)?;
        let v = read_u64_at(self.data.as_slice(), start);
        assert(self.data@.subrange(start as int, start + 8) =~= old(self).remaining().take(8));
        Ok(v)
    }

    pub fn read_i64_be(&mut self) -> (r: DbResult<i64>)
        ensures
            match r {
                Ok(v) => old(self).remaining().len() >= 8
                    && v as int == i64_of_bits(be_value(old(self).remaining().take(8)))
                    && final(self).remaining() == old(self).remaining().skip(8),
                Err(e) => old(self).remaining().len() < 8 && e == eof()
                    && final(self).remaining() == old(self).remaining(),
            },
    {
        let start = self.take(8)?;
        let v = read_i64_at(self.data.as_slice(), start);
        assert(self.data@.subrange(start as int, start + 8) =~= old(self).remaining().take(8));
        Ok(v)
    }

    /// Reads exactly `n` bytes.
    pub fn read_bytes(&mut self, n: usize) -> (r: DbResult<Vec<u8>>)
        ensures
            match r {
                Ok(v) => old(self).remaining().len() >= n
                    && v@ == old(self).remaining().take(n as int)
                    && final(self).remaining() == old(self).remaining().skip(n as int),
                Err(e) => old(self).remaining().len() < n && e == eof()
                    && final(self).remaining() == old(self).remaining(),
            },
    {
        let start = self.take(n)?;
        let mut v: Vec<u8> = Vec::new();
        let mut i: usize = 0;
        while i < n
            invariant
                i <= n,
                start + n <= self.data.len(),
                v@ == self.data@.subrange(start as int, start + i),
            decreases n - i,
        {
            v.push(self.data[start + i]);
            i = i + 1;
            assert(v@ =~= self.data@.subrange(start as int, start + i));
        }
        assert(v@ =~= old(self).remaining().take(n as int));
        Ok(v)
    }
}

} // verus!
