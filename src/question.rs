//! Record types and the entries of the question section.
use vstd::prelude::*;
use vstd::utf8::encode_utf8;
use crate::buffer::{
    BytePacketBuffer, DnsError, BUF_LEN, splice, u16_at, u16_bytes, lemma_splice_append, lemma_sub_split,
    lemma_u16_read,
};
use crate::name::{split_labels, parse_name, name_text, name_wire, encode_name, name_plain, lemma_name_read_back};

verus! {

/// The type of a record or of a query.
#[derive(Debug, Clone, Copy, PartialEq, Eq, Hash, Structural)]
pub enum QueryType {
    /// A type this library does not interpret, with its number.
    Unknown(u16),
    A,
    NS,
    CNAME,
    MX,
    AAAA,
}

impl QueryType {
    /// The type's number on the wire.
    pub open spec fn spec_as_num(self) -> u16 {
        match self {
            QueryType::Unknown(x) => x,
            QueryType::A => 1,
            QueryType::NS => 2,
            QueryType::CNAME => 5,
            QueryType::MX => 15,
            QueryType::AAAA => 28,
        }
    }

    /// The type with number `num`.
    pub open spec fn spec_from_num(num: u16) -> QueryType {
        match num {
            1 => QueryType::A,
            2 => QueryType::NS,
            5 => QueryType::CNAME,
            15 => QueryType::MX,
            28 => QueryType::AAAA,
            _ => QueryType::Unknown(num),
        }
    }

    /// Whether the type reads back as itself: it is no `Unknown` holding a known number.
    pub open spec fn is_canonical(self) -> bool {
        QueryType::spec_from_num(self.spec_as_num()) == self
    }

    /// The type's number on the wire.
    pub fn as_num(&self) -> (r: u16)
        ensures
            r == self.spec_as_num(),
    {
        match *self {
            QueryType::Unknown(x) => x,
            QueryType::A => 1,
            QueryType::NS => 2,
            QueryType::CNAME => 5,
            QueryType::MX => 15,
            QueryType::AAAA => 28,
        }
    }

    /// The type with number `num`.
    pub fn from_num(num: u16) -> (r: QueryType)
        ensures
            r == QueryType::spec_from_num(num),
            r.spec_as_num() == num,
    {
        match num {
            1 => QueryType::A,
            2 => QueryType::NS,
            5 => QueryType::CNAME,
            15 => QueryType::MX,
            28 => QueryType::AAAA,
            _ => QueryType::Unknown(num),
        }
    }
}

/// A question: a name and the type of record asked for.
#[derive(Debug, Clone, PartialEq, Eq)]
pub struct DnsQuestion {
    pub name: String,
    pub qtype: QueryType,
}

/// Reads the question at `pos` of `buf`: the labels of its name, its type, and the position
/// after it.
pub open spec fn question_at(buf: Seq<u8>, pos: int) -> Result<(Seq<Seq<u8>>, QueryType, int), DnsError> {
    match parse_name(buf, pos, 0) {
        Err(e) => Err(e),
        Ok((ls, e)) => if e + 4 <= BUF_LEN {
            Ok((ls, QueryType::spec_from_num(u16_at(buf, e) as u16), e + 4))
        } else {
            Err(DnsError::EndOfBuffer)
        },
    }
}

/// The wire form of a question with name text `name` and type `qtype`: the name, the type,
/// and class 1. None when a label of the name is too long.
pub open spec fn question_wire(name: Seq<char>, qtype: QueryType) -> Option<Seq<u8>> {
    match name_wire(encode_utf8(name)) {
        Some(w) => Some(w + u16_bytes(qtype.spec_as_num()) + u16_bytes(1)),
        None => None,
    }
}

/// A written question with a plain name and a type that reads back as itself is read back
/// as its name's labels and its type.
pub proof fn lemma_question_read_back(buf: Seq<u8>, pos: int, name: Seq<char>, qtype: QueryType)
    requires
        name_plain(name),
        qtype.is_canonical(),
        0 <= pos,
        buf.len() == BUF_LEN,
        question_wire(name, qtype) matches Some(w) && pos + w.len() <= BUF_LEN
            && buf.subrange(pos, pos + w.len()) == w,
    ensures
        question_wire(name, qtype) matches Some(w) && question_at(buf, pos) == Ok::<
            (Seq<Seq<u8>>, QueryType, int),
            DnsError,
        >((split_labels(encode_utf8(name)), qtype, pos + w.len())),
{
    let nw = name_wire(encode_utf8(name))->Some_0;
    let tb = u16_bytes(qtype.spec_as_num());
    lemma_sub_split(buf, pos, nw + tb, u16_bytes(1));
    lemma_sub_split(buf, pos, nw, tb);
    lemma_name_read_back(buf, pos, name);
    lemma_u16_read(buf, pos + nw.len(), qtype.spec_as_num());
}

impl DnsQuestion {
    /// A question for `name` of type `qtype`.
    pub fn new(name: String, qtype: QueryType) -> (r: Self)
        ensures
            r.name == name,
            r.qtype == qtype,
    {
        DnsQuestion { name, qtype }
    }

    /// Reads a question at the buffer's position, appending its name's text to `self.name`,
    /// and moves past it.
    pub fn read(&mut self, buffer: &mut BytePacketBuffer) -> (r: Result<(), DnsError>)
        ensures
            final(buffer).buf == old(buffer).buf,
            match question_at(old(buffer).buf@, old(buffer).pos as int) {
                Ok((ls, t, e)) => r is Ok && final(buffer).pos == e && final(self).qtype == t
                    && final(self).name@ == old(self).name@ + name_text(ls),
                Err(e) => r == Err::<(), DnsError>(e),
            },
    {
        buffer.read_qname(&mut self.name)?;
        self.qtype = QueryType::from_num(buffer.read_u16()?);
        let _ = buffer.read_u16()?;
        Ok(())
    }

    /// Writes the question at the buffer's position and moves past it; nothing is written
    /// when a label is too long or the question does not fit.
    pub fn write(&self, buffer: &mut BytePacketBuffer) -> (r: Result<(), DnsError>)
        ensures
            match question_wire(self.name@, self.qtype) {
                None => r == Err::<(), DnsError>(DnsError::LabelTooLong) && *final(buffer) == *old(buffer),
                Some(w) => if old(buffer).pos + w.len() <= BUF_LEN {
                    r is Ok && final(buffer).buf@ == splice(old(buffer).buf@, old(buffer).pos as int, w)
                        && final(buffer).pos == old(buffer).pos + w.len()
                } else {
                    r == Err::<(), DnsError>(DnsError::EndOfBuffer) && *final(buffer) == *old(buffer)
                },
            },
    {
        let wire = encode_name(self.name.as_str())?;
        if buffer.pos() > BUF_LEN - 4 || wire.len() > BUF_LEN - 4 - buffer.pos() {
            return Err(DnsError::EndOfBuffer);
        }
        let ghost b0 = buffer.buf@;
        let ghost start = buffer.pos as int;
        buffer.write_bytes(wire.as_slice())?;
        let type_num = self.qtype.as_num();
        buffer.write_u16(type_num)?;
        proof {
            lemma_splice_append(b0, start, wire@, u16_bytes(type_num));
        }
        buffer.write_u16(1)?;
        proof {
            lemma_splice_append(b0, start, wire@ + u16_bytes(type_num), u16_bytes(1));
        }
        Ok(())
    }
}

} // verus!
