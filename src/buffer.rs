//! A fixed-capacity byte buffer with a read/write position.
use vstd::prelude::*;
use vstd::slice::slice_subrange;

verus! {

/// Capacity of a packet buffer: the largest DNS message sent over plain UDP.
pub const BUF_LEN: usize = 512;

/// The ways in which encoding or decoding a message can fail.
#[derive(Debug, Clone, Copy, PartialEq, Eq, Structural)]
pub enum DnsError {
    /// A read, write or seek addressed bytes beyond the buffer's capacity.
    EndOfBuffer,
    /// A name followed more compression pointers than allowed.
    TooManyJumps,
    /// A name to be encoded holds a label longer than 63 bytes.
    LabelTooLong,
}

/// The big-endian 16-bit value of the two bytes at `i`.
pub open spec fn u16_at(s: Seq<u8>, i: int) -> int {
    s[i] as int * 256 + s[i + 1] as int
}

/// The big-endian 32-bit value of the four bytes at `i`.
pub open spec fn u32_at(s: Seq<u8>, i: int) -> int {
    u16_at(s, i) * 65536 + u16_at(s, i + 2)
}

/// The big-endian bytes of a 16-bit value.
pub open spec fn u16_bytes(v: u16) -> Seq<u8> {
    seq![(v / 256) as u8, (v % 256) as u8]
}

/// The big-endian bytes of a 32-bit value.
pub open spec fn u32_bytes(v: u32) -> Seq<u8> {
    u16_bytes((v / 65536) as u16) + u16_bytes((v % 65536) as u16)
}

/// `s` with the bytes from `i` on replaced by `b`.
pub open spec fn splice(s: Seq<u8>, i: int, b: Seq<u8>) -> Seq<u8> {
    s.subrange(0, i) + b + s.subrange(i + b.len(), s.len() as int)
}

/// Two writes side by side are one write of both.
pub proof fn lemma_splice_append(s: Seq<u8>, i: int, a: Seq<u8>, b: Seq<u8>)
    requires
        0 <= i,
        i + a.len() + b.len() <= s.len(),
    ensures
        splice(splice(s, i, a), i + a.len(), b) == splice(s, i, a + b),
{
    assert(splice(splice(s, i, a), i + a.len(), b) =~= splice(s, i, a + b));
}

/// Where `a + b` lies at `i`, `a` lies at `i` and `b` right after it.
pub proof fn lemma_sub_split(s: Seq<u8>, i: int, a: Seq<u8>, b: Seq<u8>)
    requires
        0 <= i,
        i + a.len() + b.len() <= s.len(),
        s.subrange(i, i + a.len() + b.len()) == a + b,
    ensures
        s.subrange(i, i + a.len()) == a,
        s.subrange(i + a.len(), i + a.len() + b.len()) == b,
{
    assert(s.subrange(i, i + a.len()) =~= (a + b).subrange(0, a.len() as int));
    assert(s.subrange(i + a.len(), i + a.len() + b.len()) =~= (a + b).subrange(a.len() as int, (a + b).len() as int));
    assert((a + b).subrange(0, a.len() as int) =~= a);
    assert((a + b).subrange(a.len() as int, (a + b).len() as int) =~= b);
}

/// The written bytes of a 16-bit value read back as that value.
pub proof fn lemma_u16_read(s: Seq<u8>, i: int, v: u16)
    requires
        0 <= i,
        i + 2 <= s.len(),
        s.subrange(i, i + 2) == u16_bytes(v),
    ensures
        u16_at(s, i) == v,
{
    assert(s[i] == s.subrange(i, i + 2)[0]);
    assert(s[i + 1] == s.subrange(i, i + 2)[1]);
}

/// The written bytes of a 32-bit value read back as that value.
pub proof fn lemma_u32_read(s: Seq<u8>, i: int, v: u32)
    requires
        0 <= i,
        i + 4 <= s.len(),
        s.subrange(i, i + 4) == u32_bytes(v),
    ensures
        u32_at(s, i) == v,
{
    lemma_sub_split(s, i, u16_bytes((v / 65536) as u16), u16_bytes((v % 65536) as u16));
    lemma_u16_read(s, i, (v / 65536) as u16);
    lemma_u16_read(s, i + 2, (v % 65536) as u16);
}

/// A packet buffer: 512 bytes and the position at which the next read or write happens.
pub struct BytePacketBuffer {
    pub buf: [u8; 512],
    pub pos: usize,
}

impl Default for BytePacketBuffer {
    fn default() -> (r: Self)
        ensures
            r.pos == 0,
            r.buf@ == Seq::new(512, |i: int| 0u8),
    {
        Self::new()
    }
}

impl BytePacketBuffer {
    /// A zeroed buffer positioned at its start.
    pub fn new() -> (r: Self)
        ensures
            r.pos == 0,
            r.buf@ == Seq::new(512, |i: int| 0u8),
    {
        let r = BytePacketBuffer { buf: [0u8; 512], pos: 0 };
        assert(r.buf@ =~= Seq::new(512, |i: int| 0u8));
        r
    }

    /// Current position in the buffer.
    pub fn pos(&self) -> (r: usize)
        ensures
            r == self.pos,
    {
        self.pos
    }

    /// Moves the position forward by `steps`, failing if that passes the end.
    pub fn step(&mut self, steps: usize) -> (r: Result<(), DnsError>)
        ensures
            final(self).buf == old(self).buf,
            old(self).pos + steps <= BUF_LEN ==> r is Ok && final(self).pos == old(self).pos + steps,
            old(self).pos + steps > BUF_LEN ==> r == Err::<(), DnsError>(DnsError::EndOfBuffer)
                && final(self).pos == old(self).pos,
    {
        if self.pos > BUF_LEN || steps > BUF_LEN - self.pos {
            return Err(DnsError::EndOfBuffer);
        }
        self.pos = self.pos + steps;
        Ok(())
    }

    /// Moves the position to `pos`, failing if that is past the end.
    pub fn seek(&mut self, pos: usize) -> (r: Result<(), DnsError>)
        ensures
            final(self).buf == old(self).buf,
            pos <= BUF_LEN ==> r is Ok && final(self).pos == pos,
            pos > BUF_LEN ==> r == Err::<(), DnsError>(DnsError::EndOfBuffer)
                && final(self).pos == old(self).pos,
    {
        if pos > BUF_LEN {
            return Err(DnsError::EndOfBuffer);
        }
        self.pos = pos;
        Ok(())
    }

    /// Overwrites the byte at `pos` without moving the position.
    pub fn set(&mut self, pos: usize, val: u8) -> (r: Result<(), DnsError>)
        ensures
            final(self).pos == old(self).pos,
            pos < BUF_LEN ==> r is Ok && final(self).buf@ == old(self).buf@.update(pos as int, val),
            pos >= BUF_LEN ==> r == Err::<(), DnsError>(DnsError::EndOfBuffer)
                && final(self).buf == old(self).buf,
    {
        if pos >= BUF_LEN {
            return Err(DnsError::EndOfBuffer);
        }
        self.buf[pos] = val;
        Ok(())
    }

    /// Overwrites the two bytes at `pos` with `val`, big-endian, without moving the position.
    pub fn set_u16(&mut self, pos: usize, val: u16) -> (r: Result<(), DnsError>)
        ensures
            final(self).pos == old(self).pos,
            pos + 2 <= BUF_LEN ==> r is Ok
                && final(self).buf@ == splice(old(self).buf@, pos as int, u16_bytes(val)),
            pos + 2 > BUF_LEN ==> r == Err::<(), DnsError>(DnsError::EndOfBuffer)
                && final(self).buf == old(self).buf,
    {
        if pos >= BUF_LEN - 1 {
            return Err(DnsError::EndOfBuffer);
        }
        self.buf[pos] = (val / 256) as u8;
        self.buf[pos + 1] = (val % 256) as u8;
        assert(self.buf@ =~= splice(old(self).buf@, pos as int, u16_bytes(val)));
        Ok(())
    }

    /// Reads one byte and moves one step forward.
    pub fn read(&mut self) -> (r: Result<u8, DnsError>)
        ensures
            final(self).buf == old(self).buf,
            old(self).pos < BUF_LEN ==> r == Ok::<u8, DnsError>(old(self).buf@[old(self).pos as int])
                && final(self).pos == old(self).pos + 1,
            old(self).pos >= BUF_LEN ==> r == Err::<u8, DnsError>(DnsError::EndOfBuffer)
                && final(self).pos == old(self).pos,
    {
        if self.pos >= BUF_LEN {
            return Err(DnsError::EndOfBuffer);
        }
        let res = self.buf[self.pos];
        self.pos = self.pos + 1;
        Ok(res)
    }

    /// The byte at `pos`, without moving the position.
    pub fn get(&self, pos: usize) -> (r: Result<u8, DnsError>)
        ensures
            pos < BUF_LEN ==> r == Ok::<u8, DnsError>(self.buf@[pos as int]),
            pos >= BUF_LEN ==> r == Err::<u8, DnsError>(DnsError::EndOfBuffer),
    {
        if pos >= BUF_LEN {
            return Err(DnsError::EndOfBuffer);
        }
        Ok(self.buf[pos])
    }

    /// The `len` bytes from `start` on, without moving the position.
    pub fn get_range(&self, start: usize, len: usize) -> (r: Result<&[u8], DnsError>)
        ensures
            start + len <= BUF_LEN ==> r is Ok
                && r->Ok_0@ == self.buf@.subrange(start as int, start + len),
            start + len > BUF_LEN ==> r == Err::<&[u8], DnsError>(DnsError::EndOfBuffer),
    {
        if start > BUF_LEN || len > BUF_LEN - start {
            return Err(DnsError::EndOfBuffer);
        }
        Ok(slice_subrange(self.buf.as_slice(), start, start + len))
    }

    /// Reads a big-endian 16-bit value, moving two steps forward.
    pub fn read_u16(&mut self) -> (r: Result<u16, DnsError>)
        ensures
            final(self).buf == old(self).buf,
            old(self).pos + 2 <= BUF_LEN ==> r is Ok
                && r->Ok_0 == u16_at(old(self).buf@, old(self).pos as int)
                && final(self).pos == old(self).pos + 2,
            old(self).pos + 2 > BUF_LEN ==> r == Err::<u16, DnsError>(DnsError::EndOfBuffer)
                && final(self).pos == old(self).pos,
    {
        if self.pos >= BUF_LEN - 1 {
            return Err(DnsError::EndOfBuffer);
        }
        let hi = self.buf[self.pos] as u16;
        let lo = self.buf[self.pos + 1] as u16;
        self.pos = self.pos + 2;
        Ok(hi * 256 + lo)
    }

    /// Reads a big-endian 32-bit value, moving four steps forward.
    pub fn read_u32(&mut self) -> (r: Result<u32, DnsError>)
        ensures
            final(self).buf == old(self).buf,
            old(self).pos + 4 <= BUF_LEN ==> r is Ok
                && r->Ok_0 == u32_at(old(self).buf@, old(self).pos as int)
                && final(self).pos == old(self).pos + 4,
            old(self).pos + 4 > BUF_LEN ==> r == Err::<u32, DnsError>(DnsError::EndOfBuffer)
                && final(self).pos == old(self).pos,
    {
        if self.pos >= BUF_LEN - 3 {
            return Err(DnsError::EndOfBuffer);
        }
        let hi = self.read_u16()?;
        let lo = self.read_u16()?;
        Ok(hi as u32 * 65536 + lo as u32)
    }

    /// Writes one byte and moves one step forward.
    pub fn write(&mut self, val: u8) -> (r: Result<(), DnsError>)
        ensures
            old(self).pos < BUF_LEN ==> r is Ok
                && final(self).buf@ == old(self).buf@.update(old(self).pos as int, val)
                && final(self).pos == old(self).pos + 1,
            old(self).pos >= BUF_LEN ==> r == Err::<(), DnsError>(DnsError::EndOfBuffer)
                && *final(self) == *old(self),
    {
        if self.pos >= BUF_LEN {
            return Err(DnsError::EndOfBuffer);
        }
        self.buf[self.pos] = val;
        self.pos = self.pos + 1;
        Ok(())
    }

    /// Writes one byte and moves one step forward.
    pub fn write_u8(&mut self, val: u8) -> (r: Result<(), DnsError>)
        ensures
            old(self).pos < BUF_LEN ==> r is Ok
                && final(self).buf@ == old(self).buf@.update(old(self).pos as int, val)
                && final(self).pos == old(self).pos + 1,
            old(self).pos >= BUF_LEN ==> r == Err::<(), DnsError>(DnsError::EndOfBuffer)
                && *final(self) == *old(self),
    {
        self.write(val)
    }

    /// Writes `bytes` from the position on and moves past them; nothing is written when
    /// they do not fit.
    pub fn write_bytes(&mut self, bytes: &[u8]) -> (r: Result<(), DnsError>)
        ensures
            old(self).pos + bytes@.len() <= BUF_LEN ==> r is Ok
                && final(self).buf@ == splice(old(self).buf@, old(self).pos as int, bytes@)
                && final(self).pos == old(self).pos + bytes@.len(),
            old(self).pos + bytes@.len() > BUF_LEN ==> r == Err::<(), DnsError>(DnsError::EndOfBuffer)
                && *final(self) == *old(self),
    {
        if self.pos > BUF_LEN || bytes.len() > BUF_LEN - self.pos {
            return Err(DnsError::EndOfBuffer);
        }
        let start = self.pos;
        let mut i: usize = 0;
        while i < bytes.len()
            invariant
                start + bytes@.len() <= BUF_LEN,
                0 <= i <= bytes@.len(),
                self.pos == start + i,
                self.buf@ == splice(old(self).buf@, start as int, bytes@.subrange(0, i as int)),
            decreases bytes@.len() - i,
        {
            self.buf[self.pos] = bytes[i];
            self.pos = self.pos + 1;
            i = i + 1;
            assert(self.buf@ =~= splice(old(self).buf@, start as int, bytes@.subrange(0, i as int)));
        }
        assert(bytes@.subrange(0, i as int) =~= bytes@);
        Ok(())
    }

    /// Writes a big-endian 16-bit value, moving two steps forward.
    pub fn write_u16(&mut self, val: u16) -> (r: Result<(), DnsError>)
        ensures
            old(self).pos + 2 <= BUF_LEN ==> r is Ok
                && final(self).buf@ == splice(old(self).buf@, old(self).pos as int, u16_bytes(val))
                && final(self).pos == old(self).pos + 2,
            old(self).pos + 2 > BUF_LEN ==> r == Err::<(), DnsError>(DnsError::EndOfBuffer)
                && *final(self) == *old(self),
    {
        if self.pos >= BUF_LEN - 1 {
            return Err(DnsError::EndOfBuffer);
        }
        self.write((val / 256) as u8)?;
        self.write((val % 256) as u8)?;
        assert(self.buf@ =~= splice(old(self).buf@, old(self).pos as int, u16_bytes(val)));
        Ok(())
    }

    /// Writes a big-endian 32-bit value, moving four steps forward.
    pub fn write_u32(&mut self, val: u32) -> (r: Result<(), DnsError>)
        ensures
            old(self).pos + 4 <= BUF_LEN ==> r is Ok
                && final(self).buf@ == splice(old(self).buf@, old(self).pos as int, u32_bytes(val))
                && final(self).pos == old(self).pos + 4,
            old(self).pos + 4 > BUF_LEN ==> r == Err::<(), DnsError>(DnsError::EndOfBuffer)
                && *final(self) == *old(self),
    {
        if self.pos >= BUF_LEN - 3 {
            return Err(DnsError::EndOfBuffer);
        }
        self.write_u16((val / 65536) as u16)?;
        self.write_u16((val % 65536) as u16)?;
        assert(self.buf@ =~= splice(old(self).buf@, old(self).pos as int, u32_bytes(val)));
        Ok(())
    }
}

} // verus!
