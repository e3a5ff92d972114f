//! A whole message: header, questions and three record sections.
use vstd::prelude::*;
use crate::buffer::{BytePacketBuffer, DnsError, BUF_LEN, splice};
use crate::header::{DnsHeader, header_at, header_wire, header_wf, lemma_header_round_trip, lemma_header_wire_len};
use crate::name::{name_text, name_plain, normalized};
use crate::buffer::lemma_sub_split;
use crate::question::{DnsQuestion, QueryType, question_at, question_wire, lemma_question_read_back};
use crate::record::{
    DnsRecord, Ipv4Addr, RecordView, record_at, record_wire, wrote, record_plain, normalized_record,
    lemma_record_read_back,
};
use vstd::utf8::encode_utf8;

verus! {

/// A message with its names as text.
pub struct PacketView {
    pub header: DnsHeader,
    pub questions: Seq<(Seq<char>, QueryType)>,
    pub answers: Seq<RecordView>,
    pub authorities: Seq<RecordView>,
    pub resources: Seq<RecordView>,
}

/// A message: one header, then the questions, answers, authority records and additional
/// records, each in wire order.
#[derive(Debug, Clone)]
pub struct DnsPacket {
    pub header: DnsHeader,
    pub questions: Vec<DnsQuestion>,
    pub answers: Vec<DnsRecord>,
    pub authorities: Vec<DnsRecord>,
    pub resources: Vec<DnsRecord>,
}

/// The view of a question: its name's text and its type.
pub open spec fn question_view(q: DnsQuestion) -> (Seq<char>, QueryType) {
    (q.name@, q.qtype)
}

/// The views of a list of records.
pub open spec fn records_view(rs: Seq<DnsRecord>) -> Seq<RecordView> {
    rs.map_values(|r: DnsRecord| r@)
}

impl View for DnsPacket {
    type V = PacketView;

    open spec fn view(&self) -> PacketView {
        PacketView {
            header: self.header,
            questions: self.questions@.map_values(|q: DnsQuestion| question_view(q)),
            answers: records_view(self.answers@),
            authorities: records_view(self.authorities@),
            resources: records_view(self.resources@),
        }
    }
}

/// Reads `n` questions one after another from `pos`: their views and the position after them.
pub open spec fn questions_at(buf: Seq<u8>, pos: int, n: nat) -> Result<(Seq<(Seq<char>, QueryType)>, int), DnsError>
    decreases n,
{
    if n == 0 {
        Ok((seq![], pos))
    } else {
        match questions_at(buf, pos, (n - 1) as nat) {
            Err(e) => Err(e),
            Ok((qs, p)) => match question_at(buf, p) {
                Ok((ls, t, e)) => Ok((qs.push((name_text(ls), t)), e)),
                Err(e) => Err(e),
            },
        }
    }
}

/// Reads `n` records one after another from `pos`: their views and the position after them.
pub open spec fn records_at(buf: Seq<u8>, pos: int, n: nat) -> Result<(Seq<RecordView>, int), DnsError>
    decreases n,
{
    if n == 0 {
        Ok((seq![], pos))
    } else {
        match records_at(buf, pos, (n - 1) as nat) {
            Err(e) => Err(e),
            Ok((rs, p)) => match record_at(buf, p) {
                Ok((r, e)) => Ok((rs.push(r), e)),
                Err(e) => Err(e),
            },
        }
    }
}

/// Reads the message at `pos`: the header, then as many questions and records of each
/// section as the header counts. Gives the message and the position after it.
pub open spec fn packet_at(buf: Seq<u8>, pos: int) -> Result<(PacketView, int), DnsError> {
    if pos + 12 > BUF_LEN {
        Err(DnsError::EndOfBuffer)
    } else {
        let h = header_at(buf, pos);
        match questions_at(buf, pos + 12, h.questions as nat) {
            Err(e) => Err(e),
            Ok((qs, q_end)) => match records_at(buf, q_end, h.answers as nat) {
                Err(e) => Err(e),
                Ok((ans, an_end)) => match records_at(buf, an_end, h.authoritative_entries as nat) {
                    Err(e) => Err(e),
                    Ok((auth, ns_end)) => match records_at(buf, ns_end, h.resource_entries as nat) {
                        Err(e) => Err(e),
                        Ok((res, ar_end)) => Ok((
                            PacketView { header: h, questions: qs, answers: ans, authorities: auth, resources: res },
                            ar_end,
                        )),
                    },
                },
            },
        }
    }
}

proof fn lemma_questions_err(buf: Seq<u8>, pos: int, i: nat, n: nat, e: DnsError)
    requires
        i <= n,
        questions_at(buf, pos, i) == Err::<(Seq<(Seq<char>, QueryType)>, int), DnsError>(e),
    ensures
        questions_at(buf, pos, n) == Err::<(Seq<(Seq<char>, QueryType)>, int), DnsError>(e),
    decreases n - i,
{
    if i < n {
        lemma_questions_err(buf, pos, i, (n - 1) as nat, e);
    }
}

proof fn lemma_records_err(buf: Seq<u8>, pos: int, i: nat, n: nat, e: DnsError)
    requires
        i <= n,
        records_at(buf, pos, i) == Err::<(Seq<RecordView>, int), DnsError>(e),
    ensures
        records_at(buf, pos, n) == Err::<(Seq<RecordView>, int), DnsError>(e),
    decreases n - i,
{
    if i < n {
        lemma_records_err(buf, pos, i, (n - 1) as nat, e);
    }
}

/// Reads `n` records from the buffer's position into `out`.
fn read_records(buffer: &mut BytePacketBuffer, n: u16, out: &mut Vec<DnsRecord>) -> (r: Result<(), DnsError>)
    requires
        old(out)@.len() == 0,
    ensures
        final(buffer).buf == old(buffer).buf,
        match records_at(old(buffer).buf@, old(buffer).pos as int, n as nat) {
            Ok((rs, e)) => r is Ok && records_view(final(out)@) == rs && final(buffer).pos == e,
            Err(e) => r == Err::<(), DnsError>(e),
        },
{
    let ghost b = buffer.buf@;
    let ghost start = buffer.pos as int;
    let mut i: u16 = 0;
    assert(records_view(out@) =~= seq![]);
    while i < n
        invariant
            buffer.buf@ == b,
            b == old(buffer).buf@,
            buffer.buf == old(buffer).buf,
            start == old(buffer).pos,
            i <= n,
            records_at(b, start, i as nat) == Ok::<(Seq<RecordView>, int), DnsError>((records_view(out@), buffer.pos as int)),
        decreases n - i,
    {
        let rec = match DnsRecord::read(buffer) {
            Ok(rec) => rec,
            Err(e) => {
                proof {
                    lemma_records_err(b, start, (i + 1) as nat, n as nat, e);
                }
                return Err(e);
            },
        };
        let ghost before = out@;
        out.push(rec);
        assert(records_view(out@) =~= records_view(before).push(rec@));
        i = i + 1;
    }
    Ok(())
}

/// Writes items one after another into `room` bytes: the bytes of all of them, or the
/// failure of the first that has a label too long or does not fit.
pub open spec fn emit(items: Seq<Option<Seq<u8>>>, room: int) -> Result<Seq<u8>, DnsError>
    decreases items.len(),
{
    if items.len() == 0 {
        Ok(seq![])
    } else {
        match emit(items.drop_last(), room) {
            Err(e) => Err(e),
            Ok(w) => match items.last() {
                None => Err(DnsError::LabelTooLong),
                Some(x) => if w.len() + x.len() > room {
                    Err(DnsError::EndOfBuffer)
                } else {
                    Ok(w + x)
                },
            },
        }
    }
}

/// The wire forms of the records of a section.
pub open spec fn records_wire(rs: Seq<DnsRecord>) -> Seq<Option<Seq<u8>>> {
    rs.map_values(|r: DnsRecord| record_wire(r@))
}

/// The wire forms of the questions.
pub open spec fn questions_wire(qs: Seq<DnsQuestion>) -> Seq<Option<Seq<u8>>> {
    qs.map_values(|q: DnsQuestion| question_wire(q.name@, q.qtype))
}

/// The header with its counts set to the lengths of the message's lists.
pub open spec fn counted_header(p: DnsPacket) -> DnsHeader {
    DnsHeader {
        questions: p.questions@.len() as u16,
        answers: p.answers@.len() as u16,
        authoritative_entries: p.authorities@.len() as u16,
        resource_entries: p.resources@.len() as u16,
        ..p.header
    }
}

/// What a message is written as, item by item: its header with recounted counts, then its
/// questions, answers, authority and additional records.
pub open spec fn packet_items(p: DnsPacket) -> Seq<Option<Seq<u8>>> {
    seq![Some(header_wire(counted_header(p)))] + section_items(p)
}

/// What a message's sections are written as, item by item.
pub open spec fn section_items(p: DnsPacket) -> Seq<Option<Seq<u8>>> {
    questions_wire(p.questions@) + records_wire(p.answers@) + records_wire(p.authorities@)
        + records_wire(p.resources@)
}

proof fn lemma_emit_err(items: Seq<Option<Seq<u8>>>, more: Seq<Option<Seq<u8>>>, room: int, e: DnsError)
    requires
        emit(items, room) == Err::<Seq<u8>, DnsError>(e),
    ensures
        emit(items + more, room) == Err::<Seq<u8>, DnsError>(e),
    decreases more.len(),
{
    if more.len() == 0 {
        assert(items + more =~= items);
    } else {
        lemma_emit_err(items, more.drop_last(), room, e);
        assert((items + more).drop_last() =~= items + more.drop_last());
    }
}

/// Writes records after what `prior` stands for, as `emit` says.
fn write_records(
    buffer: &mut BytePacketBuffer,
    recs: &Vec<DnsRecord>,
    Ghost(b0): Ghost<Seq<u8>>,
    Ghost(start): Ghost<int>,
    Ghost(prior): Ghost<Seq<Option<Seq<u8>>>>,
) -> (r: Result<(), DnsError>)
    requires
        0 <= start <= BUF_LEN,
        b0.len() == BUF_LEN,
        emit(prior, BUF_LEN - start) matches Ok(w) && old(buffer).buf@ == splice(b0, start, w)
            && old(buffer).pos == start + w.len(),
    ensures
        match emit(prior + records_wire(recs@), BUF_LEN - start) {
            Ok(w) => r is Ok && final(buffer).buf@ == splice(b0, start, w) && final(buffer).pos == start + w.len(),
            Err(e) => r == Err::<(), DnsError>(e),
        },
{
    let mut i: usize = 0;
    assert(prior + records_wire(recs@).take(0) =~= prior);
    while i < recs.len()
        invariant
            0 <= start <= BUF_LEN,
            b0.len() == BUF_LEN,
            i <= recs@.len(),
            emit(prior + records_wire(recs@).take(i as int), BUF_LEN - start) matches Ok(w)
                && buffer.buf@ == splice(b0, start, w) && buffer.pos == start + w.len(),
        decreases recs@.len() - i,
    {
        let ghost items = prior + records_wire(recs@).take(i as int);
        let ghost next = prior + records_wire(recs@).take(i + 1);
        assert(next.drop_last() =~= items);
        let ghost w = emit(items, BUF_LEN - start)->Ok_0;
        let ghost xo = record_wire(recs@[i as int]@);
        assert(next.last() == xo);
        match recs[i].write(buffer) {
            Ok(_) => {
                proof {
                    let x = xo->Some_0;
                    crate::buffer::lemma_splice_append(b0, start, w, x);
                    assert(emit(next, BUF_LEN - start) == Ok::<Seq<u8>, DnsError>(w + x));
                }
            },
            Err(e) => {
                proof {
                    assert(records_wire(recs@).take(i + 1) + records_wire(recs@).skip(i + 1) =~= records_wire(recs@));
                    lemma_emit_err(next, records_wire(recs@).skip(i + 1), BUF_LEN - start, e);
                    assert(next + records_wire(recs@).skip(i + 1) =~= prior + records_wire(recs@));
                }
                return Err(e);
            },
        }
        i = i + 1;
    }
    assert(records_wire(recs@).take(i as int) =~= records_wire(recs@));
    Ok(())
}

/// Writes questions after what `prior` stands for, as `emit` says.
fn write_questions(
    buffer: &mut BytePacketBuffer,
    qs: &Vec<DnsQuestion>,
    Ghost(b0): Ghost<Seq<u8>>,
    Ghost(start): Ghost<int>,
    Ghost(prior): Ghost<Seq<Option<Seq<u8>>>>,
) -> (r: Result<(), DnsError>)
    requires
        0 <= start <= BUF_LEN,
        b0.len() == BUF_LEN,
        emit(prior, BUF_LEN - start) matches Ok(w) && old(buffer).buf@ == splice(b0, start, w)
            && old(buffer).pos == start + w.len(),
    ensures
        match emit(prior + questions_wire(qs@), BUF_LEN - start) {
            Ok(w) => r is Ok && final(buffer).buf@ == splice(b0, start, w) && final(buffer).pos == start + w.len(),
            Err(e) => r == Err::<(), DnsError>(e),
        },
{
    let mut i: usize = 0;
    assert(prior + questions_wire(qs@).take(0) =~= prior);
    while i < qs.len()
        invariant
            0 <= start <= BUF_LEN,
            b0.len() == BUF_LEN,
            i <= qs@.len(),
            emit(prior + questions_wire(qs@).take(i as int), BUF_LEN - start) matches Ok(w)
                && buffer.buf@ == splice(b0, start, w) && buffer.pos == start + w.len(),
        decreases qs@.len() - i,
    {
        let ghost items = prior + questions_wire(qs@).take(i as int);
        let ghost next = prior + questions_wire(qs@).take(i + 1);
        assert(next.drop_last() =~= items);
        let ghost w = emit(items, BUF_LEN - start)->Ok_0;
        let ghost xo = question_wire(qs@[i as int].name@, qs@[i as int].qtype);
        assert(next.last() == xo);
        match qs[i].write(buffer) {
            Ok(()) => {
                proof {
                    let x = xo->Some_0;
                    crate::buffer::lemma_splice_append(b0, start, w, x);
                    assert(emit(next, BUF_LEN - start) == Ok::<Seq<u8>, DnsError>(w + x));
                }
            },
            Err(e) => {
                proof {
                    assert(questions_wire(qs@).take(i + 1) + questions_wire(qs@).skip(i + 1) =~= questions_wire(qs@));
                    lemma_emit_err(next, questions_wire(qs@).skip(i + 1), BUF_LEN - start, e);
                    assert(next + questions_wire(qs@).skip(i + 1) =~= prior + questions_wire(qs@));
                }
                return Err(e);
            },
        }
        i = i + 1;
    }
    assert(questions_wire(qs@).take(i as int) =~= questions_wire(qs@));
    Ok(())
}

/// Writes the sections of `p` after what `prior` stands for, as `emit` says.
fn write_sections(
    p: &DnsPacket,
    buffer: &mut BytePacketBuffer,
    Ghost(b0): Ghost<Seq<u8>>,
    Ghost(start): Ghost<int>,
    Ghost(prior): Ghost<Seq<Option<Seq<u8>>>>,
) -> (r: Result<(), DnsError>)
    requires
        0 <= start <= BUF_LEN,
        b0.len() == BUF_LEN,
        emit(prior, BUF_LEN - start) matches Ok(w) && old(buffer).buf@ == splice(b0, start, w)
            && old(buffer).pos == start + w.len(),
    ensures
        match emit(prior + section_items(*p), BUF_LEN - start) {
            Ok(w) => r is Ok && final(buffer).buf@ == splice(b0, start, w) && final(buffer).pos == start + w.len(),
            Err(e) => r == Err::<(), DnsError>(e),
        },
{
    let ghost room = BUF_LEN - start;
    let ghost items = prior + section_items(*p);
    let ghost upto_header = prior;
    let ghost upto_questions = upto_header + questions_wire(p.questions@);
    let ghost upto_answers = upto_questions + records_wire(p.answers@);
    let ghost upto_authorities = upto_answers + records_wire(p.authorities@);
    assert(upto_authorities + records_wire(p.resources@) =~= items);
    assert(upto_questions + (records_wire(p.answers@) + records_wire(p.authorities@) + records_wire(p.resources@)) =~= items);
    assert(upto_answers + (records_wire(p.authorities@) + records_wire(p.resources@)) =~= items);
    if let Err(e) = write_questions(buffer, &p.questions, Ghost(b0), Ghost(start), Ghost(upto_header)) {
        proof {
            lemma_emit_err(upto_questions, items.skip(upto_questions.len() as int), room, e);
            assert(upto_questions + items.skip(upto_questions.len() as int) =~= items);
        }
        return Err(e);
    }
    if let Err(e) = write_records(buffer, &p.answers, Ghost(b0), Ghost(start), Ghost(upto_questions)) {
        proof {
            lemma_emit_err(upto_answers, items.skip(upto_answers.len() as int), room, e);
            assert(upto_answers + items.skip(upto_answers.len() as int) =~= items);
        }
        return Err(e);
    }
    if let Err(e) = write_records(buffer, &p.authorities, Ghost(b0), Ghost(start), Ghost(upto_answers)) {
        proof {
            lemma_emit_err(upto_authorities, items.skip(upto_authorities.len() as int), room, e);
            assert(upto_authorities + items.skip(upto_authorities.len() as int) =~= items);
        }
        return Err(e);
    }
    write_records(buffer, &p.resources, Ghost(b0), Ghost(start), Ghost(upto_authorities))
}

/// Whether `suffix` ends `s`, byte for byte.
pub open spec fn is_suffix(suffix: Seq<u8>, s: Seq<u8>) -> bool {
    suffix.len() <= s.len() && s.subrange(s.len() - suffix.len(), s.len() as int) == suffix
}

/// Whether the text `s` ends with the text `suffix`.
fn has_suffix(s: &str, suffix: &str) -> (r: bool)
    ensures
        r == is_suffix(encode_utf8(suffix@), encode_utf8(s@)),
{
    let a = s.as_bytes();
    let b = suffix.as_bytes();
    if b.len() > a.len() {
        return false;
    }
    let off = a.len() - b.len();
    let mut i: usize = 0;
    while i < b.len()
        invariant
            a@ == encode_utf8(s@),
            b@ == encode_utf8(suffix@),
            off == a@.len() - b@.len(),
            off + b@.len() == a@.len(),
            a@.len() == a.len(),
            0 <= i <= b@.len(),
            forall|j: int| 0 <= j < i ==> a@[off + j] == b@[j],
        decreases b@.len() - i,
    {
        if a[off + i] != b[i] {
            assert(a@.subrange(off as int, a@.len() as int)[i as int] != b@[i as int]);
            return false;
        }
        i = i + 1;
    }
    assert(a@.subrange(off as int, a@.len() as int) =~= b@);
    true
}

/// The first IPv4 address among `rs` that an A record holds.
pub open spec fn first_a(rs: Seq<RecordView>) -> Option<Seq<u8>>
    decreases rs.len(),
{
    if rs.len() == 0 {
        None
    } else {
        match rs[0] {
            RecordView::A { addr, .. } => Some(addr),
            _ => first_a(rs.drop_first()),
        }
    }
}

/// The name server that `r` names for `qname`: none unless it is an NS record whose
/// domain ends `qname`.
pub open spec fn ns_of(r: RecordView, qname: Seq<char>) -> Seq<(Seq<char>, Seq<char>)> {
    match r {
        RecordView::NS { domain, host, .. } => if is_suffix(encode_utf8(domain), encode_utf8(qname)) {
            seq![(domain, host)]
        } else {
            seq![]
        },
        _ => seq![],
    }
}

/// The (domain, host) pairs of the name servers among `rs` that serve `qname`, in order.
pub open spec fn ns_pairs(rs: Seq<RecordView>, qname: Seq<char>) -> Seq<(Seq<char>, Seq<char>)>
    decreases rs.len(),
{
    if rs.len() == 0 {
        seq![]
    } else {
        ns_pairs(rs.drop_last(), qname) + ns_of(rs.last(), qname)
    }
}

/// The address of the first A record among `rs` whose domain is `host`.
pub open spec fn glue(rs: Seq<RecordView>, host: Seq<char>) -> Option<Seq<u8>>
    decreases rs.len(),
{
    if rs.len() == 0 {
        None
    } else {
        match rs[0] {
            RecordView::A { domain, addr, .. } => if domain == host {
                Some(addr)
            } else {
                glue(rs.drop_first(), host)
            },
            _ => glue(rs.drop_first(), host),
        }
    }
}

/// The first glue address among `rs` for the hosts of `ns`, taken in order.
pub open spec fn first_glue(ns: Seq<(Seq<char>, Seq<char>)>, rs: Seq<RecordView>) -> Option<Seq<u8>>
    decreases ns.len(),
{
    if ns.len() == 0 {
        None
    } else {
        match glue(rs, ns[0].1) {
            Some(a) => Some(a),
            None => first_glue(ns.drop_first(), rs),
        }
    }
}

/// The address of the first A record among `rs` whose domain is `host`.
fn find_glue(rs: &Vec<DnsRecord>, host: &String) -> (r: Option<Ipv4Addr>)
    ensures
        match glue(records_view(rs@), host@) {
            Some(x) => r matches Some(a) && a@ == x,
            None => r is None,
        },
{
    let ghost v = records_view(rs@);
    let mut i: usize = 0;
    assert(v.skip(0) =~= v);
    while i < rs.len()
        invariant
            v == records_view(rs@),
            0 <= i <= rs@.len(),
            glue(v, host@) == glue(v.skip(i as int), host@),
        decreases rs@.len() - i,
    {
        assert(v[i as int] == rs@[i as int]@);
        assert(v.skip(i as int)[0] == rs@[i as int]@);
        assert(v.skip(i as int).drop_first() =~= v.skip(i + 1));
        match &rs[i] {
            DnsRecord::A { domain, addr, .. } => {
                if domain.eq(host) {
                    return Some(*addr);
                }
            },
            _ => {},
        }
        i = i + 1;
    }
    None
}

impl Default for DnsPacket {
    fn default() -> (r: Self)
        ensures
            r.header == DnsHeader::new_spec(),
            r.questions@.len() == 0,
            r.answers@.len() == 0,
            r.authorities@.len() == 0,
            r.resources@.len() == 0,
    {
        Self::new()
    }
}

impl DnsPacket {
    /// An empty message with a fresh header.
    pub fn new() -> (r: Self)
        ensures
            r.header == DnsHeader::new_spec(),
            r.questions@.len() == 0,
            r.answers@.len() == 0,
            r.authorities@.len() == 0,
            r.resources@.len() == 0,
    {
        DnsPacket {
            header: DnsHeader::new(),
            questions: Vec::new(),
            answers: Vec::new(),
            authorities: Vec::new(),
            resources: Vec::new(),
        }
    }

    /// Decodes the message at the buffer's position: the header, then exactly as many
    /// questions and records in each section as it counts. Any failure fails the whole.
    pub fn from_buffer(buffer: &mut BytePacketBuffer) -> (r: Result<Self, DnsError>)
        ensures
            final(buffer).buf == old(buffer).buf,
            match packet_at(old(buffer).buf@, old(buffer).pos as int) {
                Ok((v, e)) => r matches Ok(p) && p@ == v && final(buffer).pos == e,
                Err(e) => r == Err::<DnsPacket, DnsError>(e),
            },
    {
        let ghost b = buffer.buf@;
        let ghost start = buffer.pos as int;
        let mut result = DnsPacket::new();
        result.header.read(buffer)?;
        let n = result.header.questions;
        let mut i: u16 = 0;
        assert(result.questions@.map_values(|q: DnsQuestion| question_view(q)) =~= seq![]);
        while i < n
            invariant
                buffer.buf@ == b,
                buffer.buf == old(buffer).buf,
                b == old(buffer).buf@,
                start == old(buffer).pos,
                start + 12 <= BUF_LEN,
                result.header == header_at(b, start),
                n == result.header.questions,
                i <= n,
                result.answers@.len() == 0,
                result.authorities@.len() == 0,
                result.resources@.len() == 0,
                questions_at(b, start + 12, i as nat) == Ok::<(Seq<(Seq<char>, QueryType)>, int), DnsError>((
                    result.questions@.map_values(|q: DnsQuestion| question_view(q)),
                    buffer.pos as int,
                )),
            decreases n - i,
        {
            let mut question = DnsQuestion::new(String::new(), QueryType::Unknown(0));
            match question.read(buffer) {
                Ok(()) => {},
                Err(e) => {
                    proof {
                        lemma_questions_err(b, start + 12, (i + 1) as nat, n as nat, e);
                    }
                    return Err(e);
                },
            }
            let ghost before = result.questions@;
            result.questions.push(question);
            assert(result.questions@.map_values(|q: DnsQuestion| question_view(q)) =~= before.map_values(
                |q: DnsQuestion| question_view(q),
            ).push(question_view(question)));
            i = i + 1;
        }
        read_records(buffer, result.header.answers, &mut result.answers)?;
        read_records(buffer, result.header.authoritative_entries, &mut result.authorities)?;
        read_records(buffer, result.header.resource_entries, &mut result.resources)?;
        Ok(result)
    }

    /// Encodes the message at the buffer's position. The header's counts are first set to
    /// the lengths of the lists; then the header, questions, answers, authority and
    /// additional records are written in that order. Records of unknown type are dropped.
    pub fn write(&mut self, buffer: &mut BytePacketBuffer) -> (r: Result<(), DnsError>)
        ensures
            final(self).header == counted_header(*old(self)),
            final(self).questions == old(self).questions,
            final(self).answers == old(self).answers,
            final(self).authorities == old(self).authorities,
            final(self).resources == old(self).resources,
            old(buffer).pos <= BUF_LEN ==> match emit(packet_items(*old(self)), BUF_LEN - old(buffer).pos) {
                Ok(w) => r is Ok && final(buffer).buf@ == splice(old(buffer).buf@, old(buffer).pos as int, w)
                    && final(buffer).pos == old(buffer).pos + w.len(),
                Err(e) => r == Err::<(), DnsError>(e),
            },
            old(buffer).pos > BUF_LEN ==> r == Err::<(), DnsError>(DnsError::EndOfBuffer),
    {
        self.header.questions = self.questions.len() as u16;
        self.header.answers = self.answers.len() as u16;
        self.header.authoritative_entries = self.authorities.len() as u16;
        self.header.resource_entries = self.resources.len() as u16;
        if buffer.pos() > BUF_LEN {
            return Err(DnsError::EndOfBuffer);
        }
        let ghost b0 = buffer.buf@;
        let ghost start = buffer.pos as int;
        let ghost room = BUF_LEN - start;
        let ghost hdr = seq![Some(header_wire(self.header))];
        assert(hdr.drop_last() =~= seq![]);
        assert(self.header == counted_header(*old(self)));
        match self.header.write(buffer) {
            Ok(()) => {},
            Err(e) => {
                proof {
                    crate::header::lemma_header_wire_len(self.header);
                    assert(emit(hdr.drop_last(), room) == Ok::<Seq<u8>, DnsError>(seq![]));
                    lemma_emit_err(hdr, packet_items(*old(self)).skip(1), room, e);
                    assert(hdr + packet_items(*old(self)).skip(1) =~= packet_items(*old(self)));
                }
                return Err(e);
            },
        }
        proof {
            assert(splice(b0, start, seq![] + header_wire(self.header)) == buffer.buf@) by {
                assert(seq![] + header_wire(self.header) =~= header_wire(self.header));
            }
        }
        write_sections(self, buffer, Ghost(b0), Ghost(start), Ghost(hdr))?;
        assert(hdr + section_items(*old(self)) =~= packet_items(*old(self)));
        Ok(())
    }

    /// The address of the first A record among the answers, if any.
    pub fn get_random_a(&self) -> (r: Option<Ipv4Addr>)
        ensures
            match first_a(records_view(self.answers@)) {
                Some(x) => r matches Some(a) && a@ == x,
                None => r is None,
            },
    {
        let ghost v = records_view(self.answers@);
        let mut i: usize = 0;
        assert(v.skip(0) =~= v);
        while i < self.answers.len()
            invariant
                v == records_view(self.answers@),
                0 <= i <= self.answers@.len(),
                first_a(v) == first_a(v.skip(i as int)),
            decreases self.answers@.len() - i,
        {
            assert(v[i as int] == self.answers@[i as int]@);
            assert(v.skip(i as int)[0] == self.answers@[i as int]@);
            assert(v.skip(i as int).drop_first() =~= v.skip(i + 1));
            if let DnsRecord::A { addr, .. } = &self.answers[i] {
                return Some(*addr);
            }
            i = i + 1;
        }
        None
    }

    /// The (domain, host) pairs of the NS records among the authorities whose domain ends
    /// `qname`, in order.
    fn get_ns<'a>(&'a self, qname: &str) -> (r: Vec<(&'a String, &'a String)>)
        ensures
            r@.map_values(|p: (&'a String, &'a String)| (p.0@, p.1@)) == ns_pairs(
                records_view(self.authorities@),
                qname@,
            ),
    {
        let ghost v = records_view(self.authorities@);
        let mut out: Vec<(&'a String, &'a String)> = Vec::new();
        let mut i: usize = 0;
        while i < self.authorities.len()
            invariant
                v == records_view(self.authorities@),
                0 <= i <= self.authorities@.len(),
                out@.map_values(|p: (&'a String, &'a String)| (p.0@, p.1@)) == ns_pairs(v.take(i as int), qname@),
            decreases self.authorities@.len() - i,
        {
            let ghost before = out@;
            assert(v.take(i + 1).drop_last() =~= v.take(i as int));
            assert(v.take(i + 1).last() == self.authorities@[i as int]@);
            if let DnsRecord::NS { domain, host, .. } = &self.authorities[i] {
                if has_suffix(qname, domain.as_str()) {
                    out.push((domain, host));
                    assert(out@.map_values(|p: (&'a String, &'a String)| (p.0@, p.1@)) =~= before.map_values(
                        |p: (&'a String, &'a String)| (p.0@, p.1@),
                    ).push((domain@, host@)));
                } else {
                    assert(ns_of(v[i as int], qname@) =~= seq![]);
                }
            }
            proof {
                assert(ns_pairs(v.take(i + 1), qname@) == ns_pairs(v.take(i as int), qname@) + ns_of(v[i as int], qname@));
            }
            i = i + 1;
            assert(out@.map_values(|p: (&'a String, &'a String)| (p.0@, p.1@)) =~= ns_pairs(v.take(i as int), qname@));
        }
        assert(v.take(i as int) =~= v);
        out
    }

    /// The address glued in the additional section for the first name server of `qname`
    /// that has one: name servers are tried in order, each against the additional A records
    /// in order.
    pub fn get_resolved_ns(&self, qname: &str) -> (r: Option<Ipv4Addr>)
        ensures
            match first_glue(ns_pairs(records_view(self.authorities@), qname@), records_view(self.resources@)) {
                Some(x) => r matches Some(a) && a@ == x,
                None => r is None,
            },
    {
        let ns = self.get_ns(qname);
        let ghost pairs = ns@.map_values(|p: (&String, &String)| (p.0@, p.1@));
        let ghost rv = records_view(self.resources@);
        let mut k: usize = 0;
        assert(pairs.skip(0) =~= pairs);
        while k < ns.len()
            invariant
                pairs == ns@.map_values(|p: (&String, &String)| (p.0@, p.1@)),
                pairs == ns_pairs(records_view(self.authorities@), qname@),
                rv == records_view(self.resources@),
                0 <= k <= ns@.len(),
                first_glue(pairs, rv) == first_glue(pairs.skip(k as int), rv),
            decreases ns@.len() - k,
        {
            assert(pairs.skip(k as int)[0] == (ns@[k as int].0@, ns@[k as int].1@));
            assert(pairs.skip(k as int).drop_first() =~= pairs.skip(k + 1));
            let (_, host) = ns[k];
            if let Some(addr) = find_glue(&self.resources, host) {
                return Some(addr);
            }
            k = k + 1;
        }
        None
    }

    /// The host of the first name server of `qname` among the authorities, if any: the
    /// name to look up next when no address was glued for it.
    pub fn get_unresolved_ns<'a>(&'a self, qname: &'a str) -> (r: Option<&'a str>)
        ensures
            ns_pairs(records_view(self.authorities@), qname@).len() == 0 ==> r is None,
            ns_pairs(records_view(self.authorities@), qname@).len() > 0 ==> (r matches Some(h)
                && h@ == ns_pairs(records_view(self.authorities@), qname@)[0].1),
    {
        let ns = self.get_ns(qname);
        if ns.len() == 0 {
            return None;
        }
        let (_, host) = ns[0];
        assert(ns@.map_values(|p: (&String, &String)| (p.0@, p.1@))[0] == (ns@[0].0@, ns@[0].1@));
        Some(host.as_str())
    }
}

} // verus!

verus! {

/// Whether every question of `qs` has a plain name and a type that reads back as itself.
pub open spec fn questions_plain(qs: Seq<DnsQuestion>) -> bool {
    forall|k: int| 0 <= k < qs.len() ==> name_plain(#[trigger] qs[k].name@) && qs[k].qtype.is_canonical()
}

/// Whether every record of `rs` is of known type with plain names.
pub open spec fn records_plain(rs: Seq<DnsRecord>) -> bool {
    forall|k: int| 0 <= k < rs.len() ==> record_plain(#[trigger] rs[k]@)
}

/// Whether a message reads back as it was written, up to the normalizing of names: its
/// opcode fits four bits, its names are plain, its question types read back as themselves,
/// and it holds no record of unknown type, which would be dropped.
pub open spec fn packet_plain(p: DnsPacket) -> bool {
    &&& header_wf(p.header)
    &&& questions_plain(p.questions@)
    &&& records_plain(p.answers@)
    &&& records_plain(p.authorities@)
    &&& records_plain(p.resources@)
}

/// The questions as they read back once written.
pub open spec fn questions_read_back(qs: Seq<DnsQuestion>) -> Seq<(Seq<char>, QueryType)> {
    qs.map_values(|q: DnsQuestion| (normalized(q.name@), q.qtype))
}

/// The records as they read back once written.
pub open spec fn records_read_back(rs: Seq<DnsRecord>) -> Seq<RecordView> {
    rs.map_values(|r: DnsRecord| normalized_record(r@))
}

/// The message as it reads back once written: the recounted header, and every question
/// and record with its names normalized.
pub open spec fn packet_read_back(p: DnsPacket) -> PacketView {
    PacketView {
        header: counted_header(p),
        questions: questions_read_back(p.questions@),
        answers: records_read_back(p.answers@),
        authorities: records_read_back(p.authorities@),
        resources: records_read_back(p.resources@),
    }
}

proof fn lemma_emit_last(items: Seq<Option<Seq<u8>>>, room: int, w: Seq<u8>)
    requires
        items.len() > 0,
        emit(items, room) == Ok::<Seq<u8>, DnsError>(w),
    ensures
        emit(items.drop_last(), room) matches Ok(w0) && items.last() matches Some(x) && w == w0 + x
            && w.len() <= room,
{
}

proof fn lemma_questions_read_back(b: Seq<u8>, base: int, room: int, prior: Seq<Option<Seq<u8>>>, qs: Seq<DnsQuestion>)
    requires
        questions_plain(qs),
        0 <= base,
        base + room == BUF_LEN,
        b.len() == BUF_LEN,
        emit(prior, room) is Ok,
        emit(prior + questions_wire(qs), room) matches Ok(w) && b.subrange(base, base + w.len()) == w,
    ensures
        emit(prior, room) matches Ok(w0) && emit(prior + questions_wire(qs), room) matches Ok(w)
            && questions_at(b, base + w0.len(), qs.len()) == Ok::<(Seq<(Seq<char>, QueryType)>, int), DnsError>((
                questions_read_back(qs),
                base + w.len(),
            )) && w.len() >= w0.len() + qs.len(),
    decreases qs.len(),
{
    let w0 = emit(prior, room)->Ok_0;
    let all = prior + questions_wire(qs);
    let w = emit(all, room)->Ok_0;
    if qs.len() == 0 {
        assert(all =~= prior);
        assert(questions_read_back(qs) =~= seq![]);
    } else {
        let init = qs.drop_last();
        let q = qs.last();
        assert(all.drop_last() =~= prior + questions_wire(init));
        assert(all.last() == question_wire(q.name@, q.qtype));
        lemma_emit_last(all, room, w);
        let wi = emit(prior + questions_wire(init), room)->Ok_0;
        let x = question_wire(q.name@, q.qtype)->Some_0;
        lemma_sub_split(b, base, wi, x);
        assert(questions_plain(init)) by {
            assert forall|k: int| 0 <= k < init.len() implies name_plain(#[trigger] init[k].name@) && init[k].qtype.is_canonical() by {
                assert(init[k] == qs[k]);
            }
        }
        lemma_questions_read_back(b, base, room, prior, init);
        assert(name_plain(qs[qs.len() - 1].name@));
        lemma_question_read_back(b, base + wi.len(), q.name@, q.qtype);
        assert(questions_read_back(qs) =~= questions_read_back(init).push((normalized(q.name@), q.qtype)));
        assert((qs.len() - 1) as nat == init.len());
    }
}

proof fn lemma_records_read_back(b: Seq<u8>, base: int, room: int, prior: Seq<Option<Seq<u8>>>, rs: Seq<DnsRecord>)
    requires
        records_plain(rs),
        0 <= base,
        base + room == BUF_LEN,
        b.len() == BUF_LEN,
        emit(prior, room) is Ok,
        emit(prior + records_wire(rs), room) matches Ok(w) && b.subrange(base, base + w.len()) == w,
    ensures
        emit(prior, room) matches Ok(w0) && emit(prior + records_wire(rs), room) matches Ok(w)
            && records_at(b, base + w0.len(), rs.len()) == Ok::<(Seq<RecordView>, int), DnsError>((
                records_read_back(rs),
                base + w.len(),
            )) && w.len() >= w0.len() + rs.len(),
    decreases rs.len(),
{
    let w0 = emit(prior, room)->Ok_0;
    let all = prior + records_wire(rs);
    let w = emit(all, room)->Ok_0;
    if rs.len() == 0 {
        assert(all =~= prior);
        assert(records_read_back(rs) =~= seq![]);
    } else {
        let init = rs.drop_last();
        let r = rs.last();
        assert(all.drop_last() =~= prior + records_wire(init));
        assert(all.last() == record_wire(r@));
        lemma_emit_last(all, room, w);
        let wi = emit(prior + records_wire(init), room)->Ok_0;
        let x = record_wire(r@)->Some_0;
        lemma_sub_split(b, base, wi, x);
        assert(records_plain(init)) by {
            assert forall|k: int| 0 <= k < init.len() implies record_plain(#[trigger] init[k]@) by {
                assert(init[k] == rs[k]);
            }
        }
        lemma_records_read_back(b, base, room, prior, init);
        assert(record_plain(rs[rs.len() - 1]@));
        lemma_record_read_back(b, base + wi.len(), r@);
        assert(records_read_back(rs) =~= records_read_back(init).push(normalized_record(r@)));
        assert((rs.len() - 1) as nat == init.len());
    }
}

proof fn lemma_emit_prefix(pre: Seq<Option<Seq<u8>>>, more: Seq<Option<Seq<u8>>>, room: int)
    requires
        emit(pre + more, room) is Ok,
    ensures
        emit(pre, room) matches Ok(w0) && emit(pre + more, room) matches Ok(w) && w0.len() <= w.len()
            && w.subrange(0, w0.len() as int) == w0,
    decreases more.len(),
{
    let w = emit(pre + more, room)->Ok_0;
    if more.len() == 0 {
        assert(pre + more =~= pre);
        assert(w.subrange(0, w.len() as int) =~= w);
    } else {
        assert((pre + more).drop_last() =~= pre + more.drop_last());
        lemma_emit_last(pre + more, room, w);
        lemma_emit_prefix(pre, more.drop_last(), room);
        let w_header = emit(pre + more.drop_last(), room)->Ok_0;
        let w0 = emit(pre, room)->Ok_0;
        assert(w.subrange(0, w0.len() as int) =~= w_header.subrange(0, w0.len() as int));
    }
}

proof fn lemma_packet_at_parts(
    b: Seq<u8>,
    pos: int,
    v: PacketView,
    e1: int,
    e2: int,
    e3: int,
    e4: int,
)
    requires
        pos + 12 <= BUF_LEN,
        header_at(b, pos) == v.header,
        questions_at(b, pos + 12, v.header.questions as nat) == Ok::<(Seq<(Seq<char>, QueryType)>, int), DnsError>((v.questions, e1)),
        records_at(b, e1, v.header.answers as nat) == Ok::<(Seq<RecordView>, int), DnsError>((v.answers, e2)),
        records_at(b, e2, v.header.authoritative_entries as nat) == Ok::<(Seq<RecordView>, int), DnsError>((v.authorities, e3)),
        records_at(b, e3, v.header.resource_entries as nat) == Ok::<(Seq<RecordView>, int), DnsError>((v.resources, e4)),
    ensures
        packet_at(b, pos) == Ok::<(PacketView, int), DnsError>((v, e4)),
{
}

proof fn lemma_prefix_in_buffer(buf: Seq<u8>, pos: int, pre: Seq<Option<Seq<u8>>>, more: Seq<Option<Seq<u8>>>)
    requires
        0 <= pos <= BUF_LEN,
        buf.len() == BUF_LEN,
        emit(pre + more, BUF_LEN - pos) is Ok,
    ensures
        emit(pre + more, BUF_LEN - pos) matches Ok(w) && emit(pre, BUF_LEN - pos) matches Ok(w0) && {
            let b = splice(buf, pos, w);
            &&& pos + w.len() <= BUF_LEN
            &&& b.len() == BUF_LEN
            &&& b.subrange(pos, pos + w.len()) == w
            &&& b.subrange(pos, pos + w0.len()) == w0
        },
{
    let room = BUF_LEN - pos;
    let w = emit(pre + more, room)->Ok_0;
    lemma_emit_prefix(pre, more, room);
    let w0 = emit(pre, room)->Ok_0;
    if (pre + more).len() > 0 {
        lemma_emit_last(pre + more, room, w);
    } else {
        assert(w =~= seq![]);
    }
    let b = splice(buf, pos, w);
    assert(b.subrange(pos, pos + w.len()) =~= w);
    assert(b.subrange(pos, pos + w0.len()) =~= w.subrange(0, w0.len() as int));
}

proof fn lemma_header_in_buffer(b: Seq<u8>, pos: int, h: DnsHeader)
    requires
        0 <= pos,
        pos + 12 <= b.len(),
        b.subrange(pos, pos + 12) == header_wire(h),
    ensures
        header_at(b, pos).questions == h.questions,
        header_at(b, pos).answers == h.answers,
        header_at(b, pos).authoritative_entries == h.authoritative_entries,
        header_at(b, pos).resource_entries == h.resource_entries,
        header_wf(h) ==> header_at(b, pos) == h,
{
    lemma_header_wire_len(h);
    assert(splice(b, pos, header_wire(h)) =~= b);
    let op = h.opcode;
    assert((op & 0x0F) & 0x0F == op & 0x0F) by (bit_vector);
    assert(op & 0x0F < 16) by (bit_vector);
    let hz = DnsHeader { opcode: h.opcode & 0x0F, ..h };
    assert(header_wire(hz) =~= header_wire(h));
    lemma_header_round_trip(hz, b, pos);
    if header_wf(h) {
        lemma_header_round_trip(h, b, pos);
    }
}

proof fn lemma_header_first(p: DnsPacket, pos: int)
    requires
        0 <= pos <= BUF_LEN,
        emit(seq![Some(header_wire(counted_header(p)))], BUF_LEN - pos) is Ok,
    ensures
        emit(seq![Some(header_wire(counted_header(p)))], BUF_LEN - pos) == Ok::<Seq<u8>, DnsError>(
            header_wire(counted_header(p)),
        ),
        pos + 12 <= BUF_LEN,
{
    let upto_header = seq![Some(header_wire(counted_header(p)))];
    assert(upto_header.drop_last() =~= seq![]);
    assert(emit(upto_header.drop_last(), BUF_LEN - pos) == Ok::<Seq<u8>, DnsError>(seq![]));
    lemma_header_wire_len(counted_header(p));
    assert(seq![] + header_wire(counted_header(p)) =~= header_wire(counted_header(p)));
}

/// Writing a plain message and reading it back gives the same header flags, counts equal
/// to the lengths of its lists, and the same questions and records with their names
/// normalized; the read ends where the writing did.
#[verifier::rlimit(100)]
pub proof fn lemma_packet_round_trip(p: DnsPacket, buf: Seq<u8>, pos: int)
    requires
        packet_plain(p),
        0 <= pos <= BUF_LEN,
        buf.len() == BUF_LEN,
        emit(packet_items(p), BUF_LEN - pos) is Ok,
    ensures
        emit(packet_items(p), BUF_LEN - pos) matches Ok(w) && packet_at(splice(buf, pos, w), pos) == Ok::<
            (PacketView, int),
            DnsError,
        >((packet_read_back(p), pos + w.len())),
{
    let room = BUF_LEN - pos;
    let h = counted_header(p);
    let upto_header = seq![Some(header_wire(h))];
    let qw = questions_wire(p.questions@);
    let aw = records_wire(p.answers@);
    let uw = records_wire(p.authorities@);
    let rw = records_wire(p.resources@);
    let upto_questions = upto_header + qw;
    let upto_answers = upto_questions + aw;
    let upto_authorities = upto_answers + uw;
    let items = upto_authorities + rw;
    assert(items =~= packet_items(p));
    let w = emit(items, room)->Ok_0;
    let b = splice(buf, pos, w);
    lemma_prefix_in_buffer(buf, pos, upto_authorities, rw);
    assert(upto_answers + (uw + rw) =~= items);
    lemma_prefix_in_buffer(buf, pos, upto_answers, uw + rw);
    assert(upto_questions + (aw + uw + rw) =~= items);
    lemma_prefix_in_buffer(buf, pos, upto_questions, aw + uw + rw);
    assert(upto_header + (qw + aw + uw + rw) =~= items);
    lemma_prefix_in_buffer(buf, pos, upto_header, qw + aw + uw + rw);
    let w_questions = emit(upto_questions, room)->Ok_0;
    let w_answers = emit(upto_answers, room)->Ok_0;
    let w_authorities = emit(upto_authorities, room)->Ok_0;
    lemma_header_first(p, pos);
    lemma_header_in_buffer(b, pos, h);
    lemma_questions_read_back(b, pos, room, upto_header, p.questions@);
    lemma_records_read_back(b, pos, room, upto_questions, p.answers@);
    lemma_records_read_back(b, pos, room, upto_answers, p.authorities@);
    lemma_records_read_back(b, pos, room, upto_authorities, p.resources@);
    lemma_packet_at_parts(b, pos, packet_read_back(p), pos + w_questions.len(), pos + w_answers.len(), pos + w_authorities.len(), pos + w.len());
}

/// Whatever counts the header held, a message written in full carries counts equal to the
/// lengths of its lists.
pub proof fn lemma_counts_recomputed(p: DnsPacket, buf: Seq<u8>, pos: int)
    requires
        0 <= pos <= BUF_LEN,
        buf.len() == BUF_LEN,
        emit(packet_items(p), BUF_LEN - pos) is Ok,
        p.questions@.len() <= u16::MAX,
        p.answers@.len() <= u16::MAX,
        p.authorities@.len() <= u16::MAX,
        p.resources@.len() <= u16::MAX,
    ensures
        emit(packet_items(p), BUF_LEN - pos) matches Ok(w) && {
            let h = header_at(splice(buf, pos, w), pos);
            &&& h.questions == p.questions@.len()
            &&& h.answers == p.answers@.len()
            &&& h.authoritative_entries == p.authorities@.len()
            &&& h.resource_entries == p.resources@.len()
        },
{
    let h = counted_header(p);
    let upto_header = seq![Some(header_wire(h))];
    assert(upto_header + section_items(p) =~= packet_items(p));
    lemma_prefix_in_buffer(buf, pos, upto_header, section_items(p));
    lemma_header_first(p, pos);
    let w = emit(packet_items(p), BUF_LEN - pos)->Ok_0;
    lemma_header_in_buffer(splice(buf, pos, w), pos, h);
}

/// A record of unknown type is written as nothing: writing one more of them changes no
/// byte and never fails, though the section's count includes it.
pub proof fn lemma_unknown_written_as_nothing(items: Seq<Option<Seq<u8>>>, room: int, r: DnsRecord)
    requires
        r is Unknown,
        room >= 0,
    ensures
        emit(items.push(record_wire(r@)), room) == emit(items, room),
    decreases items.len(),
{
    assert(items.push(record_wire(r@)).drop_last() =~= items);
    if let Ok(w) = emit(items, room) {
        assert(w + seq![] =~= w);
        if items.len() > 0 {
            lemma_emit_last(items, room, w);
        }
    }
}

} // verus!
