//! Little-endian byte-order codec: fixed-width integers read from and written
//! to byte sequences, with the facts that make reading and writing inverse.

use vstd::prelude::*;

use super::error::{Error, ErrorKind};

verus! {

/// Value of a four-byte little-endian sequence.
pub open spec fn u32_of_le(s: Seq<u8>) -> u32
    recommends
        s.len() == 4,
{
    ((s[0] as u32) | ((s[1] as u32) << 8) | ((s[2] as u32) << 16) | ((s[3] as u32) << 24)) as u32
}

/// Four-byte little-endian encoding of a 32-bit value.
pub open spec fn u32_le_bytes(x: u32) -> Seq<u8> {
    seq![
        (x & 0xff) as u8,
        ((x >> 8) & 0xff) as u8,
        ((x >> 16) & 0xff) as u8,
        ((x >> 24) & 0xff) as u8,
    ]
}

/// Value of a three-byte little-endian sequence (a 24-bit field).
pub open spec fn u24_of_le(s: Seq<u8>) -> u32
    recommends
        s.len() == 3,
{
    ((s[0] as u32) | ((s[1] as u32) << 8) | ((s[2] as u32) << 16)) as u32
}

/// Encoding then decoding a 32-bit value gives the value back.
pub proof fn lemma_u32_le_round_trip(x: u32)
    ensures
        u32_of_le(u32_le_bytes(x)) == x,
{
    assert((((x & 0xff) as u8 as u32) | ((((x >> 8) & 0xff) as u8 as u32) << 8) | ((((x >> 16)
        & 0xff) as u8 as u32) << 16) | ((((x >> 24) & 0xff) as u8 as u32) << 24)) as u32 == x)
        by (bit_vector);
}

/// Decoding then encoding four bytes gives the bytes back.
pub proof fn lemma_le_u32_round_trip(s: Seq<u8>)
    requires
        s.len() == 4,
    ensures
        u32_le_bytes(u32_of_le(s)) == s,
{
    let b0 = s[0];
    let b1 = s[1];
    let b2 = s[2];
    let b3 = s[3];
    let x: u32 = ((b0 as u32) | ((b1 as u32) << 8) | ((b2 as u32) << 16) | ((b3 as u32) << 24))
        as u32;
    assert((x & 0xff) as u8 == b0 && ((x >> 8) & 0xff) as u8 == b1 && ((x >> 16) & 0xff) as u8 == b2
        && ((x >> 24) & 0xff) as u8 == b3) by (bit_vector)
        requires
            x == ((b0 as u32) | ((b1 as u32) << 8) | ((b2 as u32) << 16) | ((b3 as u32) << 24))
                as u32,
    ;
    assert(u32_le_bytes(u32_of_le(s)) =~= s);
}

/// The low byte and the upper three bytes of a 32-bit word read from four
/// bytes.
pub proof fn lemma_u32_le_split(s: Seq<u8>)
    requires
        s.len() == 4,
    ensures
        (u32_of_le(s) & 0xff) as u8 == s[0],
        u32_of_le(s) >> 8 == u24_of_le(s.subrange(1, 4)),
        u32_le_bytes(u32_of_le(s)).skip(1) == s.subrange(1, 4),
{
    let b0 = s[0];
    let b1 = s[1];
    let b2 = s[2];
    let b3 = s[3];
    let x: u32 = ((b0 as u32) | ((b1 as u32) << 8) | ((b2 as u32) << 16) | ((b3 as u32) << 24))
        as u32;
    assert((x & 0xff) as u8 == b0 && x >> 8 == ((b1 as u32) | ((b2 as u32) << 8) | ((b3 as u32)
        << 16)) as u32) by (bit_vector)
        requires
            x == ((b0 as u32) | ((b1 as u32) << 8) | ((b2 as u32) << 16) | ((b3 as u32) << 24))
                as u32,
    ;
    assert(s.subrange(1, 4)[0] == b1 && s.subrange(1, 4)[1] == b2 && s.subrange(1, 4)[2] == b3);
    lemma_le_u32_round_trip(s);
    assert(u32_le_bytes(u32_of_le(s)).skip(1) =~= s.subrange(1, 4));
}

/// The message every truncation error carries.
pub open spec fn msg_truncated() -> Seq<char> {
    "Unexpected end of stream"@
}

/// A byte stream that hands out fixed-width little-endian integers, as the
/// cache format needs them.  An implementation exposes the bytes it has not
/// yet consumed as `remaining`.
pub trait ReadEx {
    spec fn remaining(&self) -> Seq<u8>;

    /// Reads the next four bytes as a little-endian 32-bit integer, or
    /// reports truncation when fewer than four bytes remain.
    fn read_u32(&mut self) -> (r: Result<u32, Error>)
        ensures
            match r {
                Ok(n) => {
                    &&& old(self).remaining().len() >= 4
                    &&& n == u32_of_le(old(self).remaining().take(4))
                    &&& final(self).remaining() == old(self).remaining().skip(4)
                },
                Err(e) => {
                    &&& old(self).remaining().len() < 4
                    &&& final(self).remaining() == old(self).remaining()
                    &&& e.spec_kind() == ErrorKind::IoError
                    &&& e.spec_message() == msg_truncated()
                },
            },
    ;
}

/// A cursor over an in-memory byte vector; the reading half of the codec.
pub struct ByteReader<'a> {
    data: &'a Vec<u8>,
    pos: usize,
}

impl<'a> ByteReader<'a> {
    pub closed spec fn spec_pos(self) -> int {
        self.pos as int
    }

    pub closed spec fn spec_data(self) -> Seq<u8> {
        self.data@
    }

    #[verifier::type_invariant]
    pub closed spec fn inv(self) -> bool {
        self.pos <= self.data@.len()
    }

    pub fn new(data: &'a Vec<u8>) -> (r: ByteReader<'a>)
        ensures
            r.spec_data() == data@,
            r.remaining() == data@,
    {
        ByteReader { data, pos: 0 }
    }

    /// How many bytes are left to read.
    pub fn remaining_len(&self) -> (n: usize)
        ensures
            n == self.remaining().len(),
    {
        proof {
            use_type_invariant(&*self);
        }
        self.data.len() - self.pos
    }

    /// Reads exactly `n` bytes into a fresh vector, or reports truncation
    /// when fewer than `n` bytes remain (consuming nothing).
    pub fn read_bytes(&mut self, n: usize) -> (r: Result<Vec<u8>, Error>)
        ensures
            final(self).spec_data() == old(self).spec_data(),
            match r {
                Ok(v) => {
                    &&& old(self).remaining().len() >= n
                    &&& v@ == old(self).remaining().take(n as int)
                    &&& final(self).remaining() == old(self).remaining().skip(n as int)
                },
                Err(e) => {
                    &&& old(self).remaining().len() < n
                    &&& final(self).remaining() == old(self).remaining()
                    &&& e.spec_kind() == ErrorKind::IoError
                    &&& e.spec_message() == msg_truncated()
                },
            },
    {
        proof {
            use_type_invariant(&*self);
        }
        if self.data.len() - self.pos < n {
            return Err(Error::new(ErrorKind::IoError, "Unexpected end of stream"));
        }
        let mut v: Vec<u8> = Vec::new();
        let start = self.pos;
        let mut pos = self.pos;
        let mut i: usize = 0;
        while i < n
            invariant
                start + n <= self.data.len(),
                pos == start + i,
                i <= n,
                v@ =~= self.data@.subrange(start as int, start + i),
            decreases n - i,
        {
            v.push(self.data[pos]);
            pos = pos + 1;
            i = i + 1;
        }
        self.pos = pos;
        proof {
            assert(v@ =~= old(self).remaining().take(n as int));
            assert(self.remaining() =~= old(self).remaining().skip(n as int));
        }
        Ok(v)
    }

    /// Reads exactly twenty bytes as a stored digest, or reports truncation.
    pub fn read_hash(&mut self) -> (r: Result<[u8; 20], Error>)
        ensures
            final(self).spec_data() == old(self).spec_data(),
            match r {
                Ok(h) => {
                    &&& old(self).remaining().len() >= 20
                    &&& h@ == old(self).remaining().take(20)
                    &&& final(self).remaining() == old(self).remaining().skip(20)
                },
                Err(e) => {
                    &&& old(self).remaining().len() < 20
                    &&& final(self).remaining() == old(self).remaining()
                    &&& e.spec_kind() == ErrorKind::IoError
                    &&& e.spec_message() == msg_truncated()
                },
            },
    {
        proof {
            use_type_invariant(&*self);
        }
        if self.data.len() - self.pos < 20 {
            return Err(Error::new(ErrorKind::IoError, "Unexpected end of stream"));
        }
        let mut h: [u8; 20] = [0u8; 20];
        let start = self.pos;
        let mut pos = self.pos;
        let mut i: usize = 0;
        while i < 20
            invariant
                start + 20 <= self.data.len(),
                pos == start + i,
                i <= 20,
                h@.len() == 20,
                forall|j: int| 0 <= j < i ==> h@[j] == self.data@[start + j],
            decreases 20 - i,
        {
            h[i] = self.data[pos];
            pos = pos + 1;
            i = i + 1;
        }
        self.pos = pos;
        proof {
            assert(h@ =~= old(self).remaining().take(20));
            assert(self.remaining() =~= old(self).remaining().skip(20));
        }
        Ok(h)
    }
}

impl<'a> ReadEx for ByteReader<'a> {
    open spec fn remaining(&self) -> Seq<u8> {
        self.spec_data().skip(self.spec_pos())
    }

    fn read_u32(&mut self) -> (r: Result<u32, Error>) {
        proof {
            use_type_invariant(&*self);
        }
        if self.data.len() - self.pos < 4 {
            return Err(Error::new(ErrorKind::IoError, "Unexpected end of stream"));
        }
        let b0 = self.data[self.pos];
        let b1 = self.data[self.pos + 1];
        let b2 = self.data[self.pos + 2];
        let b3 = self.data[self.pos + 3];
        self.pos = self.pos + 4;
        let n = (b0 as u32) | ((b1 as u32) << 8) | ((b2 as u32) << 16) | ((b3 as u32) << 24);
        proof {
            assert(n == u32_of_le(old(self).remaining().take(4)));
            assert(self.remaining() =~= old(self).remaining().skip(4));
        }
        Ok(n)
    }
}

/// Appends the four-byte little-endian encoding of `x`; the writing half of
/// the codec.
pub fn write_u32(out: &mut Vec<u8>, x: u32)
    ensures
        final(out)@ == old(out)@ + u32_le_bytes(x),
{
    out.push((x & 0xff) as u8);
    out.push(((x >> 8) & 0xff) as u8);
    out.push(((x >> 16) & 0xff) as u8);
    out.push(((x >> 24) & 0xff) as u8);
    proof {
        assert(out@ =~= old(out)@ + u32_le_bytes(x));
    }
}

/// Appends a single byte.
pub fn write_u8(out: &mut Vec<u8>, x: u8)
    ensures
        final(out)@ == old(out)@ + seq![x],
{
    out.push(x);
    proof {
        assert(out@ =~= old(out)@ + seq![x]);
    }
}

} // verus!
