//! Resource records: a closed set of types, each with its own payload encoding.
use vstd::prelude::*;
use vstd::utf8::encode_utf8;
use crate::buffer::{
    BytePacketBuffer, DnsError, BUF_LEN, splice, u16_at, u32_at, u16_bytes, u32_bytes,
    lemma_splice_append, lemma_sub_split, lemma_u16_read, lemma_u32_read,
};
use crate::name::{
    parse_name, name_text, name_wire, encode_name, name_plain, normalized, split_labels, lemma_name_read_back,
};
use crate::question::QueryType;

verus! {

/// An IPv4 address as its four octets.
#[derive(Debug, Clone, Copy, PartialEq, Eq, PartialOrd, Ord, Hash)]
pub struct Ipv4Addr {
    pub octets: [u8; 4],
}

impl View for Ipv4Addr {
    type V = Seq<u8>;

    open spec fn view(&self) -> Seq<u8> {
        self.octets@
    }
}

impl Ipv4Addr {
    /// The address `a.b.c.d`.
    pub fn new(a: u8, b: u8, c: u8, d: u8) -> (r: Self)
        ensures
            r@ == seq![a, b, c, d],
    {
        let r = Ipv4Addr { octets: [a, b, c, d] };
        assert(r@ =~= seq![a, b, c, d]);
        r
    }

    /// The four octets, most significant first.
    pub fn octets(&self) -> (r: [u8; 4])
        ensures
            r@ == self@,
    {
        self.octets
    }
}

/// An IPv6 address as its eight 16-bit segments.
#[derive(Debug, Clone, Copy, PartialEq, Eq, PartialOrd, Ord, Hash)]
pub struct Ipv6Addr {
    pub segments: [u16; 8],
}

impl View for Ipv6Addr {
    type V = Seq<u16>;

    open spec fn view(&self) -> Seq<u16> {
        self.segments@
    }
}

impl Ipv6Addr {
    /// The address with segments `a` to `h`, most significant first.
    pub fn new(a: u16, b: u16, c: u16, d: u16, e: u16, f: u16, g: u16, h: u16) -> (r: Self)
        ensures
            r@ == seq![a, b, c, d, e, f, g, h],
    {
        let r = Ipv6Addr { segments: [a, b, c, d, e, f, g, h] };
        assert(r@ =~= seq![a, b, c, d, e, f, g, h]);
        r
    }

    /// The eight segments, most significant first.
    pub fn segments(&self) -> (r: [u16; 8])
        ensures
            r@ == self@,
    {
        self.segments
    }
}

/// A resource record. Every record has a domain and a time to live in seconds; its class
/// is always Internet and not kept.
#[allow(inconsistent_fields)]
#[derive(Debug, Clone, PartialEq, Eq, PartialOrd, Ord, Hash)]
pub enum DnsRecord {
    /// A record of a type this library does not interpret; its payload was skipped.
    Unknown { domain: String, qtype: u16, data_len: u16, ttl: u32 },
    A { domain: String, addr: Ipv4Addr, ttl: u32 },
    NS { domain: String, host: String, ttl: u32 },
    CNAME { domain: String, host: String, ttl: u32 },
    MX { domain: String, priority: u16, host: String, ttl: u32 },
    AAAA { domain: String, addr: Ipv6Addr, ttl: u32 },
}

/// A record with its names as text and its addresses as sequences.
#[allow(inconsistent_fields)]
pub enum RecordView {
    Unknown { domain: Seq<char>, qtype: u16, data_len: u16, ttl: u32 },
    A { domain: Seq<char>, addr: Seq<u8>, ttl: u32 },
    NS { domain: Seq<char>, host: Seq<char>, ttl: u32 },
    CNAME { domain: Seq<char>, host: Seq<char>, ttl: u32 },
    MX { domain: Seq<char>, priority: u16, host: Seq<char>, ttl: u32 },
    AAAA { domain: Seq<char>, addr: Seq<u16>, ttl: u32 },
}

impl View for DnsRecord {
    type V = RecordView;

    open spec fn view(&self) -> RecordView {
        match self {
            DnsRecord::Unknown { domain, qtype, data_len, ttl } => RecordView::Unknown {
                domain: domain@,
                qtype: *qtype,
                data_len: *data_len,
                ttl: *ttl,
            },
            DnsRecord::A { domain, addr, ttl } => RecordView::A { domain: domain@, addr: addr@, ttl: *ttl },
            DnsRecord::NS { domain, host, ttl } => RecordView::NS { domain: domain@, host: host@, ttl: *ttl },
            DnsRecord::CNAME { domain, host, ttl } => RecordView::CNAME {
                domain: domain@,
                host: host@,
                ttl: *ttl,
            },
            DnsRecord::MX { domain, priority, host, ttl } => RecordView::MX {
                domain: domain@,
                priority: *priority,
                host: host@,
                ttl: *ttl,
            },
            DnsRecord::AAAA { domain, addr, ttl } => RecordView::AAAA {
                domain: domain@,
                addr: addr@,
                ttl: *ttl,
            },
        }
    }
}

/// The eight segments of an IPv6 address at `d` of `buf`.
pub open spec fn segments_at(buf: Seq<u8>, d: int) -> Seq<u16> {
    Seq::new(8, |i: int| u16_at(buf, d + 2 * i) as u16)
}

/// The payload of a record of type `num` with domain `domain` and time to live `ttl`, whose
/// payload of declared length `len` starts at `d`; with the position after it.
pub open spec fn record_data_at(
    buf: Seq<u8>,
    d: int,
    num: u16,
    domain: Seq<char>,
    ttl: u32,
    len: u16,
) -> Result<(RecordView, int), DnsError> {
    match QueryType::spec_from_num(num) {
        QueryType::A => if d + 4 > BUF_LEN {
            Err(DnsError::EndOfBuffer)
        } else {
            Ok((RecordView::A { domain, addr: buf.subrange(d, d + 4), ttl }, d + 4))
        },
        QueryType::AAAA => if d + 16 > BUF_LEN {
            Err(DnsError::EndOfBuffer)
        } else {
            Ok((RecordView::AAAA { domain, addr: segments_at(buf, d), ttl }, d + 16))
        },
        QueryType::NS => match parse_name(buf, d, 0) {
            Ok((hl, e)) => Ok((RecordView::NS { domain, host: name_text(hl), ttl }, e)),
            Err(e) => Err(e),
        },
        QueryType::CNAME => match parse_name(buf, d, 0) {
            Ok((hl, e)) => Ok((RecordView::CNAME { domain, host: name_text(hl), ttl }, e)),
            Err(e) => Err(e),
        },
        QueryType::MX => if d + 2 > BUF_LEN {
            Err(DnsError::EndOfBuffer)
        } else {
            match parse_name(buf, d + 2, 0) {
                Ok((hl, e)) => Ok((
                    RecordView::MX { domain, priority: u16_at(buf, d) as u16, host: name_text(hl), ttl },
                    e,
                )),
                Err(e) => Err(e),
            }
        },
        QueryType::Unknown(_) => if d + len > BUF_LEN {
            Err(DnsError::EndOfBuffer)
        } else {
            Ok((RecordView::Unknown { domain, qtype: num, data_len: len, ttl }, d + len))
        },
    }
}

/// Reads the record at `pos` of `buf`: its view and the position after it.
pub open spec fn record_at(buf: Seq<u8>, pos: int) -> Result<(RecordView, int), DnsError> {
    match parse_name(buf, pos, 0) {
        Err(e) => Err(e),
        Ok((dl, p)) => if p + 10 > BUF_LEN {
            Err(DnsError::EndOfBuffer)
        } else {
            record_data_at(
                buf,
                p + 10,
                u16_at(buf, p) as u16,
                name_text(dl),
                u32_at(buf, p + 4) as u32,
                u16_at(buf, p + 8) as u16,
            )
        },
    }
}

/// The bytes of IPv6 segments, each big-endian.
pub open spec fn segments_wire(s: Seq<u16>) -> Seq<u8>
    decreases s.len(),
{
    if s.len() == 0 {
        seq![]
    } else {
        segments_wire(s.drop_last()) + u16_bytes(s.last())
    }
}

/// What every written record starts with: its domain's wire form `dw`, its type number,
/// class 1 and its time to live.
pub open spec fn record_head(dw: Seq<u8>, num: u16, ttl: u32) -> Seq<u8> {
    dw + u16_bytes(num) + u16_bytes(1) + u32_bytes(ttl)
}

/// The wire form of a payload that is a name `hw`, after an optional priority, preceded by
/// its length.
pub open spec fn sized_payload(priority: Option<u16>, hw: Seq<u8>) -> Seq<u8> {
    match priority {
        Some(p) => u16_bytes((hw.len() + 2) as u16) + u16_bytes(p) + hw,
        None => u16_bytes(hw.len() as u16) + hw,
    }
}

/// The wire form of a record, or none when a label of one of its names is too long.
/// A record of unknown type is written as nothing.
pub open spec fn record_wire(r: RecordView) -> Option<Seq<u8>> {
    match r {
        RecordView::Unknown { .. } => Some(seq![]),
        RecordView::A { domain, addr, ttl } => match name_wire(encode_utf8(domain)) {
            Some(dw) => Some(record_head(dw, 1, ttl) + u16_bytes(4) + addr),
            None => None,
        },
        RecordView::AAAA { domain, addr, ttl } => match name_wire(encode_utf8(domain)) {
            Some(dw) => Some(record_head(dw, 28, ttl) + u16_bytes(16) + segments_wire(addr)),
            None => None,
        },
        RecordView::NS { domain, host, ttl } => match (name_wire(encode_utf8(domain)), name_wire(encode_utf8(host))) {
            (Some(dw), Some(hw)) => Some(record_head(dw, 2, ttl) + sized_payload(None, hw)),
            _ => None,
        },
        RecordView::CNAME { domain, host, ttl } => match (name_wire(encode_utf8(domain)), name_wire(encode_utf8(host))) {
            (Some(dw), Some(hw)) => Some(record_head(dw, 5, ttl) + sized_payload(None, hw)),
            _ => None,
        },
        RecordView::MX { domain, priority, host, ttl } => match (name_wire(encode_utf8(domain)), name_wire(encode_utf8(host))) {
            (Some(dw), Some(hw)) => Some(record_head(dw, 15, ttl) + sized_payload(Some(priority), hw)),
            _ => None,
        },
    }
}

/// Writes a record's domain, type, class and time to live; the caller has checked the room.
fn write_head(buffer: &mut BytePacketBuffer, dw: &Vec<u8>, num: u16, ttl: u32)
    requires
        old(buffer).pos + dw@.len() + 8 <= BUF_LEN,
    ensures
        final(buffer).buf@ == splice(old(buffer).buf@, old(buffer).pos as int, record_head(dw@, num, ttl)),
        final(buffer).pos == old(buffer).pos + dw@.len() + 8,
{
    let ghost b0 = buffer.buf@;
    let ghost start = buffer.pos as int;
    let _ = buffer.write_bytes(dw.as_slice());
    let _ = buffer.write_u16(num);
    proof {
        lemma_splice_append(b0, start, dw@, u16_bytes(num));
    }
    let _ = buffer.write_u16(1);
    proof {
        lemma_splice_append(b0, start, dw@ + u16_bytes(num), u16_bytes(1));
    }
    let _ = buffer.write_u32(ttl);
    proof {
        lemma_splice_append(b0, start, dw@ + u16_bytes(num) + u16_bytes(1), u32_bytes(ttl));
    }
}

/// Writes a payload that ends in a name: a placeholder length, the optional priority and the
/// name, then patches the placeholder with the number of bytes written after it.
fn write_sized_payload(buffer: &mut BytePacketBuffer, priority: Option<u16>, hw: &Vec<u8>)
    requires
        old(buffer).pos + sized_payload(priority, hw@).len() <= BUF_LEN,
    ensures
        final(buffer).buf@ == splice(old(buffer).buf@, old(buffer).pos as int, sized_payload(priority, hw@)),
        final(buffer).pos == old(buffer).pos + sized_payload(priority, hw@).len(),
{
    let ghost b0 = buffer.buf@;
    let pos = buffer.pos();
    let _ = buffer.write_u16(0);
    let ghost mut w = u16_bytes(0);
    if let Some(p) = priority {
        let _ = buffer.write_u16(p);
        proof {
            lemma_splice_append(b0, pos as int, w, u16_bytes(p));
            w = w + u16_bytes(p);
        }
    }
    let _ = buffer.write_bytes(hw.as_slice());
    proof {
        lemma_splice_append(b0, pos as int, w, hw@);
        w = w + hw@;
    }
    let size = buffer.pos() - (pos + 2);
    let ghost b1 = buffer.buf@;
    let _ = buffer.set_u16(pos, size as u16);
    assert(buffer.buf@ =~= splice(b0, pos as int, sized_payload(priority, hw@)));
}

impl DnsRecord {
    /// Reads the record at the buffer's position and moves past it. The payload of a record
    /// of unknown type is skipped.
    pub fn read(buffer: &mut BytePacketBuffer) -> (r: Result<DnsRecord, DnsError>)
        ensures
            final(buffer).buf == old(buffer).buf,
            match record_at(old(buffer).buf@, old(buffer).pos as int) {
                Ok((v, e)) => r matches Ok(rec) && rec@ == v && final(buffer).pos == e,
                Err(e) => r == Err::<DnsRecord, DnsError>(e),
            },
    {
        let mut domain = String::new();
        buffer.read_qname(&mut domain)?;
        let qtype_num = buffer.read_u16()?;
        let qtype = QueryType::from_num(qtype_num);
        let _ = buffer.read_u16()?;
        let ttl = buffer.read_u32()?;
        let data_len = buffer.read_u16()?;
        let record = match qtype {
            QueryType::A => {
                let a = buffer.read()?;
                let b = buffer.read()?;
                let c = buffer.read()?;
                let d = buffer.read()?;
                let addr = Ipv4Addr::new(a, b, c, d);
                assert(addr@ =~= buffer.buf@.subrange(buffer.pos - 4, buffer.pos as int));
                DnsRecord::A { domain, addr, ttl }
            },
            QueryType::NS => {
                let mut ns = String::new();
                buffer.read_qname(&mut ns)?;
                DnsRecord::NS { domain, host: ns, ttl }
            },
            QueryType::CNAME => {
                let mut cname = String::new();
                buffer.read_qname(&mut cname)?;
                DnsRecord::CNAME { domain, host: cname, ttl }
            },
            QueryType::MX => {
                let priority = buffer.read_u16()?;
                let mut mx = String::new();
                buffer.read_qname(&mut mx)?;
                DnsRecord::MX { domain, priority, host: mx, ttl }
            },
            QueryType::AAAA => {
                let ghost d = buffer.pos as int;
                let s0 = buffer.read_u16()?;
                let s1 = buffer.read_u16()?;
                let s2 = buffer.read_u16()?;
                let s3 = buffer.read_u16()?;
                let s4 = buffer.read_u16()?;
                let s5 = buffer.read_u16()?;
                let s6 = buffer.read_u16()?;
                let s7 = buffer.read_u16()?;
                let addr = Ipv6Addr::new(s0, s1, s2, s3, s4, s5, s6, s7);
                assert(addr@ =~= segments_at(buffer.buf@, d));
                DnsRecord::AAAA { domain, addr, ttl }
            },
            QueryType::Unknown(_) => {
                buffer.step(data_len as usize)?;
                DnsRecord::Unknown { domain, qtype: qtype_num, data_len, ttl }
            },
        };
        Ok(record)
    }
}

/// What writing a record with wire form `w` into `before` does: on success the bytes are in
/// place and their number is returned; on failure nothing changes.
pub open spec fn wrote(
    before: BytePacketBuffer,
    after: BytePacketBuffer,
    w: Option<Seq<u8>>,
    r: Result<usize, DnsError>,
) -> bool {
    match w {
        None => r == Err::<usize, DnsError>(DnsError::LabelTooLong) && after == before,
        Some(w) => if before.pos + w.len() <= BUF_LEN {
            r == Ok::<usize, DnsError>(w.len() as usize) && after.buf@ == splice(before.buf@, before.pos as int, w)
                && after.pos == before.pos + w.len()
        } else {
            r == Err::<usize, DnsError>(DnsError::EndOfBuffer) && after == before
        },
    }
}

fn write_a(buffer: &mut BytePacketBuffer, domain: &String, addr: &Ipv4Addr, ttl: u32) -> (r: Result<usize, DnsError>)
    ensures
        wrote(*old(buffer), *final(buffer), record_wire(RecordView::A { domain: domain@, addr: addr@, ttl }), r),
{
    let start_pos = buffer.pos();
    let ghost b0 = buffer.buf@;
    let dw = encode_name(domain.as_str())?;
    assert(addr@.len() == 4);
    if start_pos > BUF_LEN - 14 || dw.len() > BUF_LEN - 14 - start_pos {
        return Err(DnsError::EndOfBuffer);
    }
    write_head(buffer, &dw, QueryType::A.as_num(), ttl);
    let ghost h = record_head(dw@, 1, ttl);
    let _ = buffer.write_u16(4);
    proof {
        lemma_splice_append(b0, start_pos as int, h, u16_bytes(4));
    }
    let _ = buffer.write_bytes(addr.octets.as_slice());
    proof {
        lemma_splice_append(b0, start_pos as int, h + u16_bytes(4), addr@);
    }
    Ok(buffer.pos() - start_pos)
}

fn write_aaaa(buffer: &mut BytePacketBuffer, domain: &String, addr: &Ipv6Addr, ttl: u32) -> (r: Result<usize, DnsError>)
    ensures
        wrote(*old(buffer), *final(buffer), record_wire(RecordView::AAAA { domain: domain@, addr: addr@, ttl }), r),
{
    let start_pos = buffer.pos();
    let ghost b0 = buffer.buf@;
    let dw = encode_name(domain.as_str())?;
    let segments = addr.segments();
    assert(segments@.len() == 8);
    proof {
        lemma_segments_wire_len(segments@);
    }
    assert(u32_bytes(ttl).len() == 4);
    assert(record_wire(RecordView::AAAA { domain: domain@, addr: addr@, ttl }) == Some(
        record_head(dw@, 28, ttl) + u16_bytes(16) + segments_wire(addr@),
    ));
    if start_pos > BUF_LEN - 26 || dw.len() > BUF_LEN - 26 - start_pos {
        return Err(DnsError::EndOfBuffer);
    }
    write_head(buffer, &dw, QueryType::AAAA.as_num(), ttl);
    let ghost h = record_head(dw@, 28, ttl);
    let _ = buffer.write_u16(16);
    proof {
        lemma_splice_append(b0, start_pos as int, h, u16_bytes(16));
    }
    let ghost pre = h + u16_bytes(16);
    let mut i: usize = 0;
    while i < 8
        invariant
            0 <= i <= 8,
            segments@ == addr@,
            segments@.len() == 8,
            start_pos + pre.len() + 16 <= BUF_LEN,
            buffer.buf@ == splice(b0, start_pos as int, pre + segments_wire(segments@.take(i as int))),
            buffer.pos == start_pos + pre.len() + 2 * i,
            b0.len() == BUF_LEN,
        decreases 8 - i,
    {
        let ghost done = pre + segments_wire(segments@.take(i as int));
        proof {
            lemma_segments_wire_len(segments@.take(i as int));
        }
        let _ = buffer.write_u16(segments[i]);
        proof {
            lemma_splice_append(b0, start_pos as int, done, u16_bytes(segments[i as int]));
            assert(segments@.take(i + 1).drop_last() =~= segments@.take(i as int));
            assert(pre + segments_wire(segments@.take(i + 1)) =~= done + u16_bytes(segments[i as int]));
        }
        i = i + 1;
    }
    assert(segments@.take(8) =~= addr@);
    Ok(buffer.pos() - start_pos)
}

/// Writes a record whose payload ends in a name: NS and CNAME without a priority, MX with one.
fn write_named(
    buffer: &mut BytePacketBuffer,
    domain: &String,
    num: u16,
    priority: Option<u16>,
    host: &String,
    ttl: u32,
) -> (r: Result<usize, DnsError>)
    ensures
        wrote(
            *old(buffer),
            *final(buffer),
            match (name_wire(encode_utf8(domain@)), name_wire(encode_utf8(host@))) {
                (Some(dw), Some(hw)) => Some(record_head(dw, num, ttl) + sized_payload(priority, hw)),
                _ => None,
            },
            r,
        ),
{
    let start_pos = buffer.pos();
    let ghost b0 = buffer.buf@;
    let dw = encode_name(domain.as_str())?;
    let hw = encode_name(host.as_str())?;
    let extra: usize = if priority.is_some() { 12 } else { 10 };
    assert(u32_bytes(ttl).len() == 4);
    assert(sized_payload(priority, hw@).len() == hw@.len() + extra - 8);
    if start_pos > BUF_LEN - extra || dw.len() > BUF_LEN - extra - start_pos
        || hw.len() > BUF_LEN - extra - start_pos - dw.len() {
        return Err(DnsError::EndOfBuffer);
    }
    write_head(buffer, &dw, num, ttl);
    write_sized_payload(buffer, priority, &hw);
    proof {
        lemma_splice_append(b0, start_pos as int, record_head(dw@, num, ttl), sized_payload(priority, hw@));
    }
    Ok(buffer.pos() - start_pos)
}

proof fn lemma_segments_wire_len(s: Seq<u16>)
    ensures
        segments_wire(s).len() == 2 * s.len(),
    decreases s.len(),
{
    if s.len() > 0 {
        lemma_segments_wire_len(s.drop_last());
    }
}

impl DnsRecord {
    /// Writes the record at the buffer's position, moves past it and gives the number of
    /// bytes written. A record of unknown type is dropped: nothing is written for it.
    /// Nothing is written when a label is too long or the record does not fit.
    pub fn write(&self, buffer: &mut BytePacketBuffer) -> (r: Result<usize, DnsError>)
        ensures
            wrote(*old(buffer), *final(buffer), record_wire(self@), r),
    {
        match self {
            DnsRecord::A { domain, addr, ttl } => {
                assert(self@ == RecordView::A { domain: domain@, addr: addr@, ttl: *ttl });
                write_a(buffer, domain, addr, *ttl)
            },
            DnsRecord::NS { domain, host, ttl } => {
                write_named(buffer, domain, QueryType::NS.as_num(), None, host, *ttl)
            },
            DnsRecord::CNAME { domain, host, ttl } => {
                write_named(buffer, domain, QueryType::CNAME.as_num(), None, host, *ttl)
            },
            DnsRecord::MX { domain, priority, host, ttl } => {
                write_named(buffer, domain, QueryType::MX.as_num(), Some(*priority), host, *ttl)
            },
            DnsRecord::AAAA { domain, addr, ttl } => write_aaaa(buffer, domain, addr, *ttl),
            DnsRecord::Unknown { .. } => {
                if buffer.pos() > BUF_LEN {
                    return Err(DnsError::EndOfBuffer);
                }
                assert(splice(buffer.buf@, buffer.pos as int, seq![]) =~= buffer.buf@);
                Ok(0)
            },
        }
    }
}

} // verus!

verus! {

/// Whether a record reads back as it was written: it is of a known type, its names are
/// plain and its address has its full length.
pub open spec fn record_plain(r: RecordView) -> bool {
    match r {
        RecordView::Unknown { .. } => false,
        RecordView::A { domain, addr, .. } => name_plain(domain) && addr.len() == 4,
        RecordView::AAAA { domain, addr, .. } => name_plain(domain) && addr.len() == 8,
        RecordView::NS { domain, host, .. } => name_plain(domain) && name_plain(host),
        RecordView::CNAME { domain, host, .. } => name_plain(domain) && name_plain(host),
        RecordView::MX { domain, host, .. } => name_plain(domain) && name_plain(host),
    }
}

/// A record with its names as they read back.
pub open spec fn normalized_record(r: RecordView) -> RecordView {
    match r {
        RecordView::Unknown { domain, qtype, data_len, ttl } => RecordView::Unknown {
            domain: normalized(domain),
            qtype,
            data_len,
            ttl,
        },
        RecordView::A { domain, addr, ttl } => RecordView::A { domain: normalized(domain), addr, ttl },
        RecordView::AAAA { domain, addr, ttl } => RecordView::AAAA { domain: normalized(domain), addr, ttl },
        RecordView::NS { domain, host, ttl } => RecordView::NS {
            domain: normalized(domain),
            host: normalized(host),
            ttl,
        },
        RecordView::CNAME { domain, host, ttl } => RecordView::CNAME {
            domain: normalized(domain),
            host: normalized(host),
            ttl,
        },
        RecordView::MX { domain, priority, host, ttl } => RecordView::MX {
            domain: normalized(domain),
            priority,
            host: normalized(host),
            ttl,
        },
    }
}

proof fn lemma_segments_read(buf: Seq<u8>, d: int, s: Seq<u16>)
    requires
        0 <= d,
        d + segments_wire(s).len() <= buf.len(),
        buf.subrange(d, d + segments_wire(s).len()) == segments_wire(s),
    ensures
        forall|i: int| 0 <= i < s.len() ==> u16_at(buf, d + 2 * i) == #[trigger] s[i],
    decreases s.len(),
{
    if s.len() > 0 {
        let p = s.drop_last();
        lemma_segments_wire_len(p);
        lemma_sub_split(buf, d, segments_wire(p), u16_bytes(s.last()));
        lemma_segments_read(buf, d, p);
        lemma_u16_read(buf, d + 2 * p.len(), s.last());
        assert forall|i: int| 0 <= i < s.len() implies u16_at(buf, d + 2 * i) == #[trigger] s[i] by {
            if i < p.len() {
                assert(s[i] == p[i]);
            }
        }
    }
}

/// Reads back the head of a written record: its domain's labels, and the type number, time
/// to live and declared length that follow.
proof fn lemma_head_read_back(buf: Seq<u8>, pos: int, domain: Seq<char>, num: u16, ttl: u32, rest: Seq<u8>, len: u16)
    requires
        name_plain(domain),
        0 <= pos,
        buf.len() == BUF_LEN,
        name_wire(encode_utf8(domain)) matches Some(dw) && pos + (record_head(dw, num, ttl) + u16_bytes(len) + rest).len() <= BUF_LEN
            && buf.subrange(pos, pos + (record_head(dw, num, ttl) + u16_bytes(len) + rest).len()) == record_head(dw, num, ttl) + u16_bytes(len) + rest,
    ensures
        name_wire(encode_utf8(domain)) matches Some(dw) && {
            let p = pos + dw.len();
            &&& parse_name(buf, pos, 0) == Ok::<(Seq<Seq<u8>>, int), DnsError>((split_labels(encode_utf8(domain)), p))
            &&& u16_at(buf, p) == num
            &&& u32_at(buf, p + 4) == ttl
            &&& u16_at(buf, p + 8) == len
            &&& p + 10 + rest.len() <= BUF_LEN
            &&& buf.subrange(p + 10, p + 10 + rest.len()) == rest
        },
{
    let dw = name_wire(encode_utf8(domain))->Some_0;
    let h = record_head(dw, num, ttl);
    lemma_sub_split(buf, pos, h + u16_bytes(len), rest);
    lemma_sub_split(buf, pos, h, u16_bytes(len));
    lemma_sub_split(buf, pos, dw + u16_bytes(num) + u16_bytes(1), u32_bytes(ttl));
    lemma_sub_split(buf, pos, dw + u16_bytes(num), u16_bytes(1));
    lemma_sub_split(buf, pos, dw, u16_bytes(num));
    lemma_name_read_back(buf, pos, domain);
    let p = pos + dw.len();
    lemma_u16_read(buf, p, num);
    lemma_u32_read(buf, p + 4, ttl);
    lemma_u16_read(buf, p + 8, len);
}

proof fn lemma_named_read_back(buf: Seq<u8>, pos: int, domain: Seq<char>, num: u16, priority: Option<u16>, host: Seq<char>, ttl: u32)
    requires
        name_plain(domain),
        name_plain(host),
        0 <= pos,
        buf.len() == BUF_LEN,
        name_wire(encode_utf8(domain)) matches Some(dw) && name_wire(encode_utf8(host)) matches Some(hw) && {
            let w = record_head(dw, num, ttl) + sized_payload(priority, hw);
            pos + w.len() <= BUF_LEN && buf.subrange(pos, pos + w.len()) == w
        },
    ensures
        name_wire(encode_utf8(domain)) matches Some(dw) && name_wire(encode_utf8(host)) matches Some(hw) && {
            let p = pos + dw.len();
            let d = p + 10 + if priority is Some { 2int } else { 0int };
            &&& parse_name(buf, pos, 0) == Ok::<(Seq<Seq<u8>>, int), DnsError>((split_labels(encode_utf8(domain)), p))
            &&& u16_at(buf, p) == num
            &&& u32_at(buf, p + 4) == ttl
            &&& parse_name(buf, d, 0) == Ok::<(Seq<Seq<u8>>, int), DnsError>((split_labels(encode_utf8(host)), pos + (record_head(dw, num, ttl) + sized_payload(priority, hw)).len()))
            &&& (priority matches Some(v) ==> p + 12 <= BUF_LEN && u16_at(buf, p + 10) == v)
        },
{
    let dw = name_wire(encode_utf8(domain))->Some_0;
    let hw = name_wire(encode_utf8(host))->Some_0;
    let p = pos + dw.len();
    match priority {
        Some(v) => {
            assert(sized_payload(priority, hw) == u16_bytes((hw.len() + 2) as u16) + (u16_bytes(v) + hw));
            assert(record_head(dw, num, ttl) + sized_payload(priority, hw) =~= record_head(dw, num, ttl) + u16_bytes((hw.len() + 2) as u16) + (u16_bytes(v) + hw));
            lemma_head_read_back(buf, pos, domain, num, ttl, u16_bytes(v) + hw, (hw.len() + 2) as u16);
            lemma_sub_split(buf, p + 10, u16_bytes(v), hw);
            lemma_u16_read(buf, p + 10, v);
            lemma_name_read_back(buf, p + 12, host);
        },
        None => {
            assert(record_head(dw, num, ttl) + sized_payload(priority, hw) =~= record_head(dw, num, ttl) + u16_bytes(hw.len() as u16) + hw);
            lemma_head_read_back(buf, pos, domain, num, ttl, hw, hw.len() as u16);
            lemma_name_read_back(buf, p + 10, host);
        },
    }
}

proof fn lemma_a_read_back(buf: Seq<u8>, pos: int, r: RecordView)
    requires
        r is A,
        record_plain(r),
        0 <= pos,
        buf.len() == BUF_LEN,
        record_wire(r) matches Some(w) && pos + w.len() <= BUF_LEN && buf.subrange(pos, pos + w.len()) == w,
    ensures
        record_wire(r) matches Some(w) && record_at(buf, pos) == Ok::<(RecordView, int), DnsError>((
            normalized_record(r),
            pos + w.len(),
        )),
{
    if let RecordView::A { domain, addr, ttl } = r {
        lemma_head_read_back(buf, pos, domain, 1, ttl, addr, 4);
    }
}

proof fn lemma_aaaa_read_back(buf: Seq<u8>, pos: int, r: RecordView)
    requires
        r is AAAA,
        record_plain(r),
        0 <= pos,
        buf.len() == BUF_LEN,
        record_wire(r) matches Some(w) && pos + w.len() <= BUF_LEN && buf.subrange(pos, pos + w.len()) == w,
    ensures
        record_wire(r) matches Some(w) && record_at(buf, pos) == Ok::<(RecordView, int), DnsError>((
            normalized_record(r),
            pos + w.len(),
        )),
{
    if let RecordView::AAAA { domain, addr, ttl } = r {
        lemma_segments_wire_len(addr);
        lemma_head_read_back(buf, pos, domain, 28, ttl, segments_wire(addr), 16);
        let dw = name_wire(encode_utf8(domain))->Some_0;
        let d = pos + dw.len() + 10;
        lemma_segments_read(buf, d, addr);
        assert(segments_at(buf, d) =~= addr);
    }
}

proof fn lemma_ns_read_back(buf: Seq<u8>, pos: int, r: RecordView)
    requires
        r is NS || r is CNAME,
        record_plain(r),
        0 <= pos,
        buf.len() == BUF_LEN,
        record_wire(r) matches Some(w) && pos + w.len() <= BUF_LEN && buf.subrange(pos, pos + w.len()) == w,
    ensures
        record_wire(r) matches Some(w) && record_at(buf, pos) == Ok::<(RecordView, int), DnsError>((
            normalized_record(r),
            pos + w.len(),
        )),
{
    match r {
        RecordView::NS { domain, host, ttl } => {
            lemma_named_read_back(buf, pos, domain, 2, None, host, ttl);
        },
        RecordView::CNAME { domain, host, ttl } => {
            lemma_named_read_back(buf, pos, domain, 5, None, host, ttl);
        },
        _ => {},
    }
}

proof fn lemma_mx_read_back(buf: Seq<u8>, pos: int, r: RecordView)
    requires
        r is MX,
        record_plain(r),
        0 <= pos,
        buf.len() == BUF_LEN,
        record_wire(r) matches Some(w) && pos + w.len() <= BUF_LEN && buf.subrange(pos, pos + w.len()) == w,
    ensures
        record_wire(r) matches Some(w) && record_at(buf, pos) == Ok::<(RecordView, int), DnsError>((
            normalized_record(r),
            pos + w.len(),
        )),
{
    if let RecordView::MX { domain, priority, host, ttl } = r {
        lemma_named_read_back(buf, pos, domain, 15, Some(priority), host, ttl);
    }
}

/// A written record of known type, with plain names, reads back as itself with its names
/// normalized, and the read ends where the writing did.
pub proof fn lemma_record_read_back(buf: Seq<u8>, pos: int, r: RecordView)
    requires
        record_plain(r),
        0 <= pos,
        buf.len() == BUF_LEN,
        record_wire(r) matches Some(w) && pos + w.len() <= BUF_LEN && buf.subrange(pos, pos + w.len()) == w,
    ensures
        record_wire(r) matches Some(w) && record_at(buf, pos) == Ok::<(RecordView, int), DnsError>((
            normalized_record(r),
            pos + w.len(),
        )),
{
    if r is A {
        lemma_a_read_back(buf, pos, r);
    } else if r is AAAA {
        lemma_aaaa_read_back(buf, pos, r);
    } else if r is MX {
        lemma_mx_read_back(buf, pos, r);
    } else {
        lemma_ns_read_back(buf, pos, r);
    }
}

} // verus!
