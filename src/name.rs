//! Domain names on the wire: length-prefixed labels, with compression pointers on read.
use vstd::prelude::*;
use crate::buffer::{BytePacketBuffer, DnsError, BUF_LEN, splice};
use crate::text::{utf8_lossy, lower_of, lossy_text, lowercase, push_text};
use vstd::utf8::encode_utf8;

verus! {

/// Most compression pointers that one name may follow.
pub const MAX_JUMPS: usize = 5;

/// Longest label that fits a 6-bit length.
pub const MAX_LABEL_LEN: usize = 63;

/// The byte `.`, which separates labels.
pub const DOT: u8 = 46;

/// Whether a length byte is a compression pointer: its two high bits are set.
pub open spec fn is_pointer(b: u8) -> bool {
    b >= 0xC0
}

/// The offset that the pointer starting with bytes `b1`, `b2` refers to: their low 14 bits.
pub open spec fn pointer_target(b1: u8, b2: u8) -> int {
    (b1 - 0xC0) * 256 + b2
}

/// Reads the name at `pos` of `buf`, with `jumps` pointers already followed.
/// On success gives its labels and the position just after the name as written at `pos`:
/// past the terminating zero byte, or past the first pointer met.
pub open spec fn parse_name(buf: Seq<u8>, pos: int, jumps: int) -> Result<(Seq<Seq<u8>>, int), DnsError>
    decreases 6 - jumps, BUF_LEN - pos,
{
    if jumps > MAX_JUMPS {
        Err(DnsError::TooManyJumps)
    } else if pos < 0 || pos >= BUF_LEN {
        Err(DnsError::EndOfBuffer)
    } else if is_pointer(buf[pos]) {
        if pos + 1 >= BUF_LEN {
            Err(DnsError::EndOfBuffer)
        } else {
            match parse_name(buf, pointer_target(buf[pos], buf[pos + 1]), jumps + 1) {
                Ok((ls, _)) => Ok((ls, pos + 2)),
                Err(e) => Err(e),
            }
        }
    } else if buf[pos] == 0 {
        Ok((seq![], pos + 1))
    } else {
        let len = buf[pos] as int;
        if pos + 1 + len > BUF_LEN {
            Err(DnsError::EndOfBuffer)
        } else {
            match parse_name(buf, pos + 1 + len, jumps) {
                Ok((ls, e)) => Ok((seq![buf.subrange(pos + 1, pos + 1 + len)] + ls, e)),
                Err(e) => Err(e),
            }
        }
    }
}

/// The text of one label: its bytes decoded leniently as UTF-8, then lowercased.
pub open spec fn label_text(l: Seq<u8>) -> Seq<char> {
    lower_of(utf8_lossy(l))
}

/// The text of a name: its labels' texts joined by dots.
pub open spec fn name_text(ls: Seq<Seq<u8>>) -> Seq<char>
    decreases ls.len(),
{
    if ls.len() == 0 {
        seq![]
    } else if ls.len() == 1 {
        label_text(ls[0])
    } else {
        name_text(ls.drop_last()) + seq!['.'] + label_text(ls.last())
    }
}

/// Folds what a name read from a later point gives into what was read before it:
/// labels `acc` were read, and `end` is the caller's position if a pointer was followed.
pub open spec fn resume(
    acc: Seq<Seq<u8>>,
    jumped: bool,
    end: int,
    rest: Result<(Seq<Seq<u8>>, int), DnsError>,
) -> Result<(Seq<Seq<u8>>, int), DnsError> {
    match rest {
        Ok((ls, e)) => Ok((acc + ls, if jumped { end } else { e })),
        Err(e) => Err(e),
    }
}

/// The labels of a name given as bytes: the pieces between dots.
pub open spec fn split_labels(b: Seq<u8>) -> Seq<Seq<u8>>
    decreases b.len(),
{
    if b.len() == 0 {
        seq![seq![]]
    } else {
        let p = split_labels(b.drop_last());
        if b.last() == DOT {
            p.push(seq![])
        } else {
            p.update(p.len() - 1, p.last().push(b.last()))
        }
    }
}

/// The wire form of a list of labels, each as its length byte and its bytes.
pub open spec fn labels_wire(ls: Seq<Seq<u8>>) -> Seq<u8>
    decreases ls.len(),
{
    if ls.len() == 0 {
        seq![]
    } else {
        labels_wire(ls.drop_last()) + seq![ls.last().len() as u8] + ls.last()
    }
}

/// Whether every label fits a 6-bit length.
pub open spec fn labels_fit(ls: Seq<Seq<u8>>) -> bool {
    forall|k: int| 0 <= k < ls.len() ==> #[trigger] ls[k].len() <= MAX_LABEL_LEN
}

/// The wire form of the name whose text has the UTF-8 bytes `b`, or none when a label
/// is too long.
pub open spec fn name_wire(b: Seq<u8>) -> Option<Seq<u8>> {
    let ls = split_labels(b);
    if labels_fit(ls) {
        Some(labels_wire(ls) + seq![0u8])
    } else {
        None
    }
}

/// Splits the bytes of a name into its labels.
fn split_name(b: &[u8]) -> (r: Vec<Vec<u8>>)
    ensures
        r.deep_view() == split_labels(b@),
{
    let mut done: Vec<Vec<u8>> = Vec::new();
    let mut cur: Vec<u8> = Vec::new();
    let mut i: usize = 0;
    while i < b.len()
        invariant
            0 <= i <= b@.len(),
            split_labels(b@.subrange(0, i as int)) == done.deep_view().push(cur@),
        decreases b@.len() - i,
    {
        let c = b[i];
        proof {
            let t = b@.subrange(0, i + 1);
            assert(t.drop_last() =~= b@.subrange(0, i as int));
            assert(t.last() == c);
        }
        if c == DOT {
            let ghost old_done = done.deep_view();
            let ghost old_cur = cur@;
            assert(cur.deep_view() =~= cur@);
            done.push(cur);
            cur = Vec::new();
            assert(done.deep_view() =~= old_done.push(old_cur));
        } else {
            let ghost old_done = done.deep_view();
            let ghost old_cur = cur@;
            cur.push(c);
            assert(old_done.push(old_cur).update(old_done.len() as int, old_cur.push(c))
                =~= old_done.push(cur@));
        }
        i = i + 1;
    }
    assert(b@.subrange(0, i as int) =~= b@);
    let ghost old_done = done.deep_view();
    let ghost old_cur = cur@;
    assert(cur.deep_view() =~= cur@);
    done.push(cur);
    assert(done.deep_view() =~= old_done.push(old_cur));
    done
}

proof fn lemma_labels_wire_front(l: Seq<u8>, rest: Seq<Seq<u8>>)
    ensures
        labels_wire(seq![l] + rest) == seq![l.len() as u8] + l + labels_wire(rest),
    decreases rest.len(),
{
    let all = seq![l] + rest;
    if rest.len() == 0 {
        assert(all.drop_last() =~= seq![]);
        assert(labels_wire(all.drop_last()) =~= seq![]);
        assert(labels_wire(rest) =~= seq![]);
        assert(all.last() == l);
        assert(labels_wire(all) =~= seq![l.len() as u8] + l + labels_wire(rest));
    } else {
        lemma_labels_wire_front(l, rest.drop_last());
        assert(all.drop_last() =~= seq![l] + rest.drop_last());
        assert(all.last() == rest.last());
        assert(labels_wire(all) =~= seq![l.len() as u8] + l + labels_wire(rest));
    }
}

/// Whether every label has between 1 and 63 bytes: what a name needs to be read back
/// exactly as it was written.
pub open spec fn labels_plain(ls: Seq<Seq<u8>>) -> bool {
    forall|k: int| 0 <= k < ls.len() ==> 1 <= #[trigger] ls[k].len() <= MAX_LABEL_LEN
}

/// A name written in full, with labels of 1 to 63 bytes, reads back as the same labels,
/// and the read ends just after its zero byte.
pub proof fn lemma_parse_written_name(buf: Seq<u8>, pos: int, ls: Seq<Seq<u8>>, jumps: int)
    requires
        labels_plain(ls),
        0 <= jumps <= MAX_JUMPS,
        0 <= pos,
        pos + labels_wire(ls).len() + 1 <= BUF_LEN,
        buf.len() == BUF_LEN,
        buf.subrange(pos, pos + labels_wire(ls).len() + 1) == labels_wire(ls) + seq![0u8],
    ensures
        parse_name(buf, pos, jumps) == Ok::<(Seq<Seq<u8>>, int), DnsError>((ls, pos + labels_wire(ls).len() + 1)),
    decreases ls.len(),
{
    let w = labels_wire(ls) + seq![0u8];
    if ls.len() == 0 {
        assert(buf[pos] == w[0]);
        assert(ls =~= seq![]);
    } else {
        let l = ls[0];
        let rest = ls.drop_first();
        assert(seq![l] + rest =~= ls);
        lemma_labels_wire_front(l, rest);
        let n = l.len() as int;
        assert(buf[pos] == w[0]);
        assert(w[0] == n as u8);
        let rw = labels_wire(rest);
        assert(w =~= seq![n as u8] + l + (rw + seq![0u8]));
        assert(buf.subrange(pos + 1, pos + 1 + n) =~= w.subrange(1, 1 + n));
        assert(w.subrange(1, 1 + n) =~= l);
        assert(buf.subrange(pos + 1 + n, pos + 1 + n + rw.len() + 1) =~= w.subrange(1 + n, w.len() as int));
        assert(w.subrange(1 + n, w.len() as int) =~= rw + seq![0u8]);
        assert(labels_plain(rest)) by {
            assert forall|k: int| 0 <= k < rest.len() implies 1 <= #[trigger] rest[k].len() <= MAX_LABEL_LEN by {
                assert(rest[k] == ls[k + 1]);
            }
        }
        lemma_parse_written_name(buf, pos + 1 + n, rest, jumps);
        assert(seq![buf.subrange(pos + 1, pos + 1 + n)] + rest =~= ls);
    }
}

proof fn lemma_cycle_from(buf: Seq<u8>, x: int, y: int, n: int, jumps: int)
    requires
        0 <= x < BUF_LEN - 1,
        0 <= y,
        y + 1 + n < BUF_LEN - 1,
        is_pointer(buf[x]),
        pointer_target(buf[x], buf[x + 1]) == y,
        buf[y] == n,
        0 < n,
        !is_pointer(buf[y]),
        is_pointer(buf[y + 1 + n]),
        pointer_target(buf[y + 1 + n], buf[y + 2 + n]) == x,
        0 <= jumps,
    ensures
        parse_name(buf, x, jumps) == Err::<(Seq<Seq<u8>>, int), DnsError>(DnsError::TooManyJumps),
    decreases 7 - jumps,
{
    if jumps <= MAX_JUMPS {
        if jumps + 1 <= MAX_JUMPS {
            lemma_cycle_from(buf, x, y, n, jumps + 2);
            assert(parse_name(buf, y + 1 + n, jumps + 1) == Err::<(Seq<Seq<u8>>, int), DnsError>(
                DnsError::TooManyJumps,
            ));
            assert(parse_name(buf, y, jumps + 1) == Err::<(Seq<Seq<u8>>, int), DnsError>(
                DnsError::TooManyJumps,
            ));
        }
    }
}

/// A pointer at `x` to a label at `y` that is followed by a pointer back to `x` makes the
/// name at `x` fail with too many jumps, rather than be read forever.
pub proof fn lemma_pointer_cycle_fails(buf: Seq<u8>, x: int, y: int)
    requires
        0 <= x < BUF_LEN - 1,
        0 <= y < BUF_LEN - 2,
        is_pointer(buf[x]),
        pointer_target(buf[x], buf[x + 1]) == y,
        0 < buf[y] && !is_pointer(buf[y]),
        y + 1 + buf[y] < BUF_LEN - 1,
        is_pointer(buf[y + 1 + buf[y]]),
        pointer_target(buf[y + 1 + buf[y]], buf[y + 2 + buf[y]]) == x,
    ensures
        parse_name(buf, x, 0) == Err::<(Seq<Seq<u8>>, int), DnsError>(DnsError::TooManyJumps),
{
    lemma_cycle_from(buf, x, y, buf[y] as int, 0);
}

/// The text that a name reads back as once written: its labels, each decoded and
/// lowercased, joined by dots.
pub open spec fn normalized(name: Seq<char>) -> Seq<char> {
    name_text(split_labels(encode_utf8(name)))
}

/// Whether a name is written in a form that reads back: no label of it is empty or longer
/// than 63 bytes.
pub open spec fn name_plain(name: Seq<char>) -> bool {
    labels_plain(split_labels(encode_utf8(name)))
}

/// A plain name written at `pos` reads back as its labels.
pub proof fn lemma_name_read_back(buf: Seq<u8>, pos: int, name: Seq<char>)
    requires
        name_plain(name),
        0 <= pos,
        buf.len() == BUF_LEN,
        name_wire(encode_utf8(name)) matches Some(w) && pos + w.len() <= BUF_LEN
            && buf.subrange(pos, pos + w.len()) == w,
    ensures
        name_wire(encode_utf8(name)) matches Some(w)
            && parse_name(buf, pos, 0) == Ok::<(Seq<Seq<u8>>, int), DnsError>((split_labels(encode_utf8(name)), pos + w.len())),
{
    lemma_parse_written_name(buf, pos, split_labels(encode_utf8(name)), 0);
}

/// The wire form of the name with text `name`: its labels and a terminating zero byte.
pub(crate) fn encode_name(name: &str) -> (r: Result<Vec<u8>, DnsError>)
    ensures
        name_wire(encode_utf8(name@)) matches Some(w) ==> r matches Ok(v) && v@ == w,
        name_wire(encode_utf8(name@)) is None ==> r == Err::<Vec<u8>, DnsError>(
            DnsError::LabelTooLong,
        ),
{
    let bytes = name.as_bytes();
    assert(bytes@ == encode_utf8(name@));
    let labels = split_name(bytes);
    let ghost ls = labels.deep_view();
    let mut out: Vec<u8> = Vec::new();
    let mut k: usize = 0;
    while k < labels.len()
        invariant
            ls == labels.deep_view(),
            ls == split_labels(encode_utf8(name@)),
            0 <= k <= ls.len(),
            out@ == labels_wire(ls.take(k as int)),
            labels_fit(ls.take(k as int)),
        decreases ls.len() - k,
    {
        let label = &labels[k];
        assert(label@ =~= ls[k as int]);
        if label.len() > MAX_LABEL_LEN {
            assert(!labels_fit(ls));
            return Err(DnsError::LabelTooLong);
        }
        let ghost before = out@;
        out.push(label.len() as u8);
        let mut j: usize = 0;
        while j < label.len()
            invariant
                0 <= j <= label@.len(),
                out@ == before + seq![label@.len() as u8] + label@.take(j as int),
            decreases label@.len() - j,
        {
            out.push(label[j]);
            j = j + 1;
            assert(out@ =~= before + seq![label@.len() as u8] + label@.take(j as int));
        }
        k = k + 1;
        assert(ls.take(k as int).drop_last() =~= ls.take(k - 1));
        assert(label@.take(j as int) =~= label@);
        assert(labels_fit(ls.take(k as int)));
    }
    assert(ls.take(k as int) =~= ls);
    out.push(0u8);
    Ok(out)
}

impl BytePacketBuffer {
    /// Writes `qname` in full, label by label, at the position and moves past it.
    /// Nothing is written when a label is longer than 63 bytes or the name does not fit.
    pub fn write_qname(&mut self, qname: &str) -> (r: Result<(), DnsError>)
        ensures
            match name_wire(encode_utf8(qname@)) {
                None => r == Err::<(), DnsError>(DnsError::LabelTooLong) && *final(self) == *old(self),
                Some(w) => if old(self).pos + w.len() <= BUF_LEN {
                    r is Ok && final(self).buf@ == splice(old(self).buf@, old(self).pos as int, w)
                        && final(self).pos == old(self).pos + w.len()
                } else {
                    r == Err::<(), DnsError>(DnsError::EndOfBuffer) && *final(self) == *old(self)
                },
            },
    {
        let wire = encode_name(qname)?;
        self.write_bytes(wire.as_slice())
    }

    /// Reads the name at the position, following compression pointers, and appends its text
    /// to `outstr`. The position moves past the name as written here: past its zero byte, or
    /// past the first pointer.
    pub fn read_qname(&mut self, outstr: &mut String) -> (r: Result<(), DnsError>)
        ensures
            final(self).buf == old(self).buf,
            match parse_name(old(self).buf@, old(self).pos as int, 0) {
                Ok((ls, e)) => r is Ok && final(self).pos == e
                    && final(outstr)@ == old(outstr)@ + name_text(ls),
                Err(e) => r == Err::<(), DnsError>(e),
            },
    {
        let ghost start = self.pos as int;
        let mut pos: usize = self.pos;
        let mut jumped = false;
        let mut jumps: usize = 0;
        let mut delim = "";
        let ghost mut acc: Seq<Seq<u8>> = seq![];
        proof {
            reveal_strlit("");
            reveal_strlit(".");
            assert(acc + seq![] =~= acc);
        }
        loop
            invariant_except_break
                parse_name(self.buf@, start, 0) == resume(acc, jumped, self.pos as int, parse_name(self.buf@, pos as int, jumps as int)),
                outstr@ == old(outstr)@ + name_text(acc),
                delim@ == (if acc.len() == 0 { seq![] } else { seq!['.'] }),
            invariant
                self.buf == old(self).buf,
                start == old(self).pos,
                jumps <= MAX_JUMPS + 1,
                !jumped ==> self.pos == start && jumps == 0,
            ensures
                self.buf == old(self).buf,
                !jumped ==> self.pos == start && pos <= BUF_LEN,
                parse_name(self.buf@, start, 0) == Ok::<(Seq<Seq<u8>>, int), DnsError>((acc, if jumped { self.pos as int } else { pos as int })),
                outstr@ == old(outstr)@ + name_text(acc),
            decreases MAX_JUMPS + 1 - jumps, BUF_LEN - pos,
        {
            if jumps > MAX_JUMPS {
                return Err(DnsError::TooManyJumps);
            }
            let len = match self.get(pos) {
                Ok(b) => b,
                Err(e) => {
                    return Err(e);
                },
            };
            if len >= 0xC0 {
                if pos >= BUF_LEN - 1 {
                    return Err(DnsError::EndOfBuffer);
                }
                if !jumped {
                    let _ = self.seek(pos + 2);
                }
                let b2 = self.buf[pos + 1];
                pos = (len - 0xC0) as usize * 256 + b2 as usize;
                jumped = true;
                jumps = jumps + 1;
            } else {
                pos = pos + 1;
                if len == 0 {
                    assert(acc + seq![] =~= acc);
                    break;
                }
                let bytes = match self.get_range(pos, len as usize) {
                    Ok(b) => b,
                    Err(e) => {
                        return Err(e);
                    },
                };
                push_text(outstr, delim);
                let text = lossy_text(bytes);
                let low = lowercase(text.as_str());
                push_text(outstr, low.as_str());
                proof {
                    let l = bytes@;
                    let nacc = acc.push(l);
                    assert(nacc.drop_last() =~= acc);
                    assert(seq![l] + seq![] =~= seq![l]);
                    assert(outstr@ =~= old(outstr)@ + name_text(nacc));
                    assert forall|x: Seq<Seq<u8>>| acc + (seq![l] + x) =~= nacc + x by {}
                    acc = nacc;
                }
                delim = ".";
                proof {
                    reveal_strlit(".");
                }
                pos = pos + len as usize;
            }
        }
        if !jumped {
            let _ = self.seek(pos);
        }
        Ok(())
    }
}

} // verus!
