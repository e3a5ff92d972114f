//! The fixed 12-byte message header, with its bit-packed flags.
use vstd::prelude::*;
use crate::buffer::{BytePacketBuffer, DnsError, BUF_LEN, splice, u16_at, u16_bytes, lemma_splice_append};

verus! {

/// Status of a response.
#[allow(clippy::upper_case_acronyms)]
#[derive(Debug, Clone, Copy, PartialEq, Eq, Structural)]
pub enum ResultCode {
    NOERROR,
    FORMERR,
    SERVFAIL,
    NXDOMAIN,
    NOTIMP,
    REFUSED,
}

impl ResultCode {
    /// The code's number on the wire.
    pub open spec fn spec_as_num(self) -> u8 {
        match self {
            ResultCode::NOERROR => 0,
            ResultCode::FORMERR => 1,
            ResultCode::SERVFAIL => 2,
            ResultCode::NXDOMAIN => 3,
            ResultCode::NOTIMP => 4,
            ResultCode::REFUSED => 5,
        }
    }

    /// The code with number `num`; numbers without a code read as no error.
    pub open spec fn spec_from_num(num: u8) -> ResultCode {
        match num {
            1 => ResultCode::FORMERR,
            2 => ResultCode::SERVFAIL,
            3 => ResultCode::NXDOMAIN,
            4 => ResultCode::NOTIMP,
            5 => ResultCode::REFUSED,
            _ => ResultCode::NOERROR,
        }
    }

    /// The code's number on the wire.
    pub fn as_num(&self) -> (r: u8)
        ensures
            r == self.spec_as_num(),
    {
        match self {
            ResultCode::NOERROR => 0,
            ResultCode::FORMERR => 1,
            ResultCode::SERVFAIL => 2,
            ResultCode::NXDOMAIN => 3,
            ResultCode::NOTIMP => 4,
            ResultCode::REFUSED => 5,
        }
    }

    /// The code with number `num`; numbers without a code read as no error.
    pub fn from_num(num: u8) -> (r: ResultCode)
        ensures
            r == ResultCode::spec_from_num(num),
    {
        match num {
            1 => ResultCode::FORMERR,
            2 => ResultCode::SERVFAIL,
            3 => ResultCode::NXDOMAIN,
            4 => ResultCode::NOTIMP,
            5 => ResultCode::REFUSED,
            _ => ResultCode::NOERROR,
        }
    }
}

/// The message header: an id, nine flags and four section counts.
#[derive(Debug, Clone, Copy, PartialEq, Eq, Structural)]
pub struct DnsHeader {
    /// Correlates a response with its query.
    pub id: u16,
    /// The sender asks the server to resolve recursively.
    pub recursion_desired: bool,
    /// The message was cut to fit.
    pub truncated_message: bool,
    /// The responding server owns the queried domain.
    pub authoritative_answer: bool,
    /// Kind of query, four bits.
    pub opcode: u8,
    /// Set on responses, clear on queries.
    pub response: bool,
    /// Status of a response.
    pub rescode: ResultCode,
    pub checking_disabled: bool,
    pub authed_data: bool,
    /// The reserved bit.
    pub z: bool,
    /// The server offers recursion.
    pub recursion_available: bool,
    /// Number of entries in the question section.
    pub questions: u16,
    /// Number of entries in the answer section.
    pub answers: u16,
    /// Number of entries in the authority section.
    pub authoritative_entries: u16,
    /// Number of entries in the additional section.
    pub resource_entries: u16,
}

/// 1 for a set flag, 0 for a clear one.
pub open spec fn bit(b: bool) -> u8 {
    if b { 1 } else { 0 }
}

/// Whether bit `i` of `b` is set.
pub open spec fn has_bit(b: u8, i: u8) -> bool {
    (b >> i) & 1 == 1
}

/// The first flags byte: recursion desired, truncated, authoritative, opcode, response.
pub open spec fn flags_hi(h: DnsHeader) -> u8 {
    bit(h.recursion_desired) | (bit(h.truncated_message) << 1u8) | (bit(h.authoritative_answer) << 2u8)
        | ((h.opcode & 0x0F) << 3u8) | (bit(h.response) << 7u8)
}

/// The second flags byte: response code, checking disabled, authenticated data, reserved,
/// recursion available.
pub open spec fn flags_lo(h: DnsHeader) -> u8 {
    h.rescode.spec_as_num() | (bit(h.checking_disabled) << 4u8) | (bit(h.authed_data) << 5u8)
        | (bit(h.z) << 6u8) | (bit(h.recursion_available) << 7u8)
}

/// The 12 bytes of a header on the wire.
pub open spec fn header_wire(h: DnsHeader) -> Seq<u8> {
    u16_bytes(h.id) + seq![flags_hi(h), flags_lo(h)] + u16_bytes(h.questions) + u16_bytes(h.answers)
        + u16_bytes(h.authoritative_entries) + u16_bytes(h.resource_entries)
}

/// The header that the 12 bytes at `pos` of `buf` encode.
pub open spec fn header_at(buf: Seq<u8>, pos: int) -> DnsHeader {
    let a = buf[pos + 2];
    let b = buf[pos + 3];
    DnsHeader {
        id: u16_at(buf, pos) as u16,
        recursion_desired: has_bit(a, 0),
        truncated_message: has_bit(a, 1),
        authoritative_answer: has_bit(a, 2),
        opcode: (a >> 3u8) & 0x0F,
        response: has_bit(a, 7),
        rescode: ResultCode::spec_from_num(b & 0x0F),
        checking_disabled: has_bit(b, 4),
        authed_data: has_bit(b, 5),
        z: has_bit(b, 6),
        recursion_available: has_bit(b, 7),
        questions: u16_at(buf, pos + 4) as u16,
        answers: u16_at(buf, pos + 6) as u16,
        authoritative_entries: u16_at(buf, pos + 8) as u16,
        resource_entries: u16_at(buf, pos + 10) as u16,
    }
}

fn flag_bit(b: bool) -> (r: u8)
    ensures
        r == bit(b),
{
    if b { 1 } else { 0 }
}

impl DnsHeader {
    fn flags_hi_byte(&self) -> (r: u8)
        ensures
            r == flags_hi(*self),
    {
        flag_bit(self.recursion_desired) | (flag_bit(self.truncated_message) << 1u8)
            | (flag_bit(self.authoritative_answer) << 2u8) | ((self.opcode & 0x0F) << 3u8)
            | (flag_bit(self.response) << 7u8)
    }

    fn flags_lo_byte(&self) -> (r: u8)
        ensures
            r == flags_lo(*self),
    {
        self.rescode.as_num() | (flag_bit(self.checking_disabled) << 4u8)
            | (flag_bit(self.authed_data) << 5u8) | (flag_bit(self.z) << 6u8)
            | (flag_bit(self.recursion_available) << 7u8)
    }

    /// The header with id 0, every flag clear and every count 0.
    pub open spec fn new_spec() -> DnsHeader {
        DnsHeader {
            id: 0,
            recursion_desired: false,
            truncated_message: false,
            authoritative_answer: false,
            opcode: 0,
            response: false,
            rescode: ResultCode::NOERROR,
            checking_disabled: false,
            authed_data: false,
            z: false,
            recursion_available: false,
            questions: 0,
            answers: 0,
            authoritative_entries: 0,
            resource_entries: 0,
        }
    }

    /// A header with id 0, every flag clear and every count 0.
    pub fn new() -> (r: Self)
        ensures
            r == DnsHeader::new_spec(),
    {
        DnsHeader {
            id: 0,
            recursion_desired: false,
            truncated_message: false,
            authoritative_answer: false,
            opcode: 0,
            response: false,
            rescode: ResultCode::NOERROR,
            checking_disabled: false,
            authed_data: false,
            z: false,
            recursion_available: false,
            questions: 0,
            answers: 0,
            authoritative_entries: 0,
            resource_entries: 0,
        }
    }

    /// Reads the 12 header bytes at the buffer's position into `self` and moves past them.
    pub fn read(&mut self, buffer: &mut BytePacketBuffer) -> (r: Result<(), DnsError>)
        ensures
            final(buffer).buf == old(buffer).buf,
            old(buffer).pos + 12 <= BUF_LEN ==> r is Ok
                && *final(self) == header_at(old(buffer).buf@, old(buffer).pos as int)
                && final(buffer).pos == old(buffer).pos + 12,
            old(buffer).pos + 12 > BUF_LEN ==> r == Err::<(), DnsError>(DnsError::EndOfBuffer)
                && *final(self) == *old(self) && *final(buffer) == *old(buffer),
    {
        if buffer.pos() > BUF_LEN - 12 {
            return Err(DnsError::EndOfBuffer);
        }
        self.id = buffer.read_u16()?;
        let a = buffer.read()?;
        let b = buffer.read()?;
        self.recursion_desired = (a >> 0u8) & 1 == 1;
        self.truncated_message = (a >> 1u8) & 1 == 1;
        self.authoritative_answer = (a >> 2u8) & 1 == 1;
        self.opcode = (a >> 3u8) & 0x0F;
        self.response = (a >> 7u8) & 1 == 1;
        self.rescode = ResultCode::from_num(b & 0x0F);
        self.checking_disabled = (b >> 4u8) & 1 == 1;
        self.authed_data = (b >> 5u8) & 1 == 1;
        self.z = (b >> 6u8) & 1 == 1;
        self.recursion_available = (b >> 7u8) & 1 == 1;
        self.questions = buffer.read_u16()?;
        self.answers = buffer.read_u16()?;
        self.authoritative_entries = buffer.read_u16()?;
        self.resource_entries = buffer.read_u16()?;
        Ok(())
    }

    /// Writes the header's 12 bytes at the buffer's position and moves past them.
    /// Only the low four bits of the opcode are written.
    pub fn write(&self, buffer: &mut BytePacketBuffer) -> (r: Result<(), DnsError>)
        ensures
            old(buffer).pos + 12 <= BUF_LEN ==> r is Ok
                && final(buffer).buf@ == splice(old(buffer).buf@, old(buffer).pos as int, header_wire(*self))
                && final(buffer).pos == old(buffer).pos + 12,
            old(buffer).pos + 12 > BUF_LEN ==> r == Err::<(), DnsError>(DnsError::EndOfBuffer)
                && *final(buffer) == *old(buffer),
    {
        if buffer.pos() > BUF_LEN - 12 {
            return Err(DnsError::EndOfBuffer);
        }
        let ghost start = buffer.pos as int;
        let ghost b0 = buffer.buf@;
        let hi = self.flags_hi_byte();
        let lo = self.flags_lo_byte();
        let ghost h = *self;
        buffer.write_u16(self.id)?;
        let ghost mut w = u16_bytes(h.id);
        buffer.write_u8(hi)?;
        proof {
            assert(buffer.buf@ =~= splice(splice(b0, start, w), start + 2, seq![hi]));
            lemma_splice_append(b0, start, w, seq![hi]);
            w = w + seq![hi];
        }
        buffer.write_u8(lo)?;
        proof {
            assert(buffer.buf@ =~= splice(splice(b0, start, w), start + 3, seq![lo]));
            lemma_splice_append(b0, start, w, seq![lo]);
            w = w + seq![lo];
        }
        buffer.write_u16(self.questions)?;
        proof {
            lemma_splice_append(b0, start, w, u16_bytes(h.questions));
            w = w + u16_bytes(h.questions);
        }
        buffer.write_u16(self.answers)?;
        proof {
            lemma_splice_append(b0, start, w, u16_bytes(h.answers));
            w = w + u16_bytes(h.answers);
        }
        buffer.write_u16(self.authoritative_entries)?;
        proof {
            lemma_splice_append(b0, start, w, u16_bytes(h.authoritative_entries));
            w = w + u16_bytes(h.authoritative_entries);
        }
        buffer.write_u16(self.resource_entries)?;
        proof {
            lemma_splice_append(b0, start, w, u16_bytes(h.resource_entries));
            w = w + u16_bytes(h.resource_entries);
        }
        assert(buffer.buf@ =~= splice(b0, start, header_wire(*self)));
        Ok(())
    }
}

proof fn lemma_flag_byte_bits(b0: u8, b1: u8, b2: u8, n: u8, b7: u8)
    by (bit_vector)
    requires
        b0 <= 1,
        b1 <= 1,
        b2 <= 1,
        b7 <= 1,
        n < 16,
    ensures
        ((b0 | (b1 << 1u8) | (b2 << 2u8) | (n << 3u8) | (b7 << 7u8)) >> 0u8) & 1 == b0,
        ((b0 | (b1 << 1u8) | (b2 << 2u8) | (n << 3u8) | (b7 << 7u8)) >> 1u8) & 1 == b1,
        ((b0 | (b1 << 1u8) | (b2 << 2u8) | (n << 3u8) | (b7 << 7u8)) >> 2u8) & 1 == b2,
        ((b0 | (b1 << 1u8) | (b2 << 2u8) | (n << 3u8) | (b7 << 7u8)) >> 3u8) & 0x0F == n,
        ((b0 | (b1 << 1u8) | (b2 << 2u8) | (n << 3u8) | (b7 << 7u8)) >> 7u8) & 1 == b7,
        n & 0x0F == n,
{
}

proof fn lemma_flag_lo_bits(n: u8, b4: u8, b5: u8, b6: u8, b7: u8)
    by (bit_vector)
    requires
        b4 <= 1,
        b5 <= 1,
        b6 <= 1,
        b7 <= 1,
        n < 16,
    ensures
        (n | (b4 << 4u8) | (b5 << 5u8) | (b6 << 6u8) | (b7 << 7u8)) & 0x0F == n,
        ((n | (b4 << 4u8) | (b5 << 5u8) | (b6 << 6u8) | (b7 << 7u8)) >> 4u8) & 1 == b4,
        ((n | (b4 << 4u8) | (b5 << 5u8) | (b6 << 6u8) | (b7 << 7u8)) >> 5u8) & 1 == b5,
        ((n | (b4 << 4u8) | (b5 << 5u8) | (b6 << 6u8) | (b7 << 7u8)) >> 6u8) & 1 == b6,
        ((n | (b4 << 4u8) | (b5 << 5u8) | (b6 << 6u8) | (b7 << 7u8)) >> 7u8) & 1 == b7,
{
}

/// A header is 12 bytes on the wire.
pub proof fn lemma_header_wire_len(h: DnsHeader)
    ensures
        header_wire(h).len() == 12,
{
}

/// Whether a header can be written and read back unchanged: its opcode fits four bits.
pub open spec fn header_wf(h: DnsHeader) -> bool {
    h.opcode < 16
}

/// Reading back a written header gives every flag, the opcode, the response code, the id
/// and the counts exactly as they were: each flag sits at its own bit.
pub proof fn lemma_header_round_trip(h: DnsHeader, buf: Seq<u8>, pos: int)
    requires
        header_wf(h),
        0 <= pos,
        pos + 12 <= buf.len(),
    ensures
        header_at(splice(buf, pos, header_wire(h)), pos) == h,
{
    let out = splice(buf, pos, header_wire(h));
    let w = header_wire(h);
    assert(out.subrange(pos, pos + 12) =~= w);
    assert(out[pos + 2] == w[2] && out[pos + 3] == w[3]);
    lemma_flag_byte_bits(
        bit(h.recursion_desired),
        bit(h.truncated_message),
        bit(h.authoritative_answer),
        h.opcode,
        bit(h.response),
    );
    lemma_flag_lo_bits(
        h.rescode.spec_as_num(),
        bit(h.checking_disabled),
        bit(h.authed_data),
        bit(h.z),
        bit(h.recursion_available),
    );
    assert(out[pos] == w[0] && out[pos + 1] == w[1]);
    assert(out[pos + 4] == w[4] && out[pos + 5] == w[5]);
    assert(out[pos + 6] == w[6] && out[pos + 7] == w[7]);
    assert(out[pos + 8] == w[8] && out[pos + 9] == w[9]);
    assert(out[pos + 10] == w[10] && out[pos + 11] == w[11]);
    assert(header_at(out, pos) =~= h);
}

} // verus!
