//! Questions and resource records.
use vstd::prelude::*;
use crate::error::CodecError;
use crate::message::Message;
use crate::text::{decimal, literal, push_decimal};
use crate::name::{
    encode_name, label_cut, lemma_read_literal_name, lemma_read_literal_name_cut,
    lemma_read_name_end, name_bytes, name_ok, parse_name, write_name,
};
use crate::wire::{
    be16, be32, get_u16, get_u32, lemma_read16_be16, lemma_read32_be32, lemma_subrange_part, push_all,
    push_u16, push_u32, read16, read32,
};

verus! {

/// Type of a resource record: the types this codec knows by name, and any
/// other value carried through unchanged. `Unknown` is meant for values
/// without a name (see `wf`).
#[derive(Debug, Clone, Copy, PartialEq, Eq, Structural)]
pub enum RecordType {
    A,
    AAAA,
    CNAME,
    MX,
    NS,
    PTR,
    SOA,
    SRV,
    TXT,
    Unknown(u16),
}

/// The record type whose value on the wire is `v`.
pub open spec fn type_of(v: u16) -> RecordType {
    match v {
        1 => RecordType::A,
        28 => RecordType::AAAA,
        5 => RecordType::CNAME,
        15 => RecordType::MX,
        2 => RecordType::NS,
        12 => RecordType::PTR,
        6 => RecordType::SOA,
        33 => RecordType::SRV,
        16 => RecordType::TXT,
        _ => RecordType::Unknown(v),
    }
}

/// The name of a record type, or `TYPE` and its value for a type without one.
pub open spec fn rtype_name(code: u16) -> Seq<char> {
    match code {
        1 => "A"@,
        28 => "AAAA"@,
        5 => "CNAME"@,
        15 => "MX"@,
        2 => "NS"@,
        12 => "PTR"@,
        6 => "SOA"@,
        33 => "SRV"@,
        16 => "TXT"@,
        _ => "TYPE"@ + decimal(code as nat),
    }
}

impl RecordType {
    /// `Unknown` holds only a value that no named type has.
    pub open spec fn wf(self) -> bool {
        self is Unknown ==> type_of(self.code()) == self
    }

    /// The value of the type on the wire.
    pub open spec fn code(self) -> u16 {
        match self {
            RecordType::A => 1,
            RecordType::AAAA => 28,
            RecordType::CNAME => 5,
            RecordType::MX => 15,
            RecordType::NS => 2,
            RecordType::PTR => 12,
            RecordType::SOA => 6,
            RecordType::SRV => 33,
            RecordType::TXT => 16,
            RecordType::Unknown(v) => v,
        }
    }

    pub fn to_u16(&self) -> (r: u16)
        ensures
            r == self.code(),
            self.wf() ==> type_of(r) == *self,
    {
        match self {
            RecordType::A => 1,
            RecordType::AAAA => 28,
            RecordType::CNAME => 5,
            RecordType::MX => 15,
            RecordType::NS => 2,
            RecordType::PTR => 12,
            RecordType::SOA => 6,
            RecordType::SRV => 33,
            RecordType::TXT => 16,
            RecordType::Unknown(v) => *v,
        }
    }

    /// The type with value `value`: a named one where there is one, else
    /// `Unknown(value)`.
    pub fn from_u16(value: u16) -> (r: RecordType)
        ensures
            r == type_of(value),
            r.code() == value,
            r.wf(),
    {
        match value {
            1 => RecordType::A,
            28 => RecordType::AAAA,
            5 => RecordType::CNAME,
            15 => RecordType::MX,
            2 => RecordType::NS,
            12 => RecordType::PTR,
            6 => RecordType::SOA,
            33 => RecordType::SRV,
            16 => RecordType::TXT,
            _ => RecordType::Unknown(value),
        }
    }
    /// The name of the type, or `TYPE` and its value for a type without one.
    pub fn to_string(&self) -> (r: String)
        ensures
            r@ == rtype_name(self.code()),
    {
        match self.to_u16() {
            1 => literal("A"),
            28 => literal("AAAA"),
            5 => literal("CNAME"),
            15 => literal("MX"),
            2 => literal("NS"),
            12 => literal("PTR"),
            6 => literal("SOA"),
            33 => literal("SRV"),
            16 => literal("TXT"),
            code => {
                let mut s = literal("TYPE");
                push_decimal(&mut s, code as u32);
                s
            },
        }
    }
}

/// An entry of the question section.
#[derive(Debug, Clone)]
pub struct Question {
    /// The labels of the name asked about.
    pub qname: Vec<String>,
    /// Type of the query.
    pub qtype: u16,
    /// Class of the query.
    pub qclass: u16,
}

/// A question as a value.
pub struct QuestionView {
    pub qname: Seq<Seq<char>>,
    pub qtype: u16,
    pub qclass: u16,
}

impl View for Question {
    type V = QuestionView;

    open spec fn view(&self) -> QuestionView {
        QuestionView { qname: self.qname.deep_view(), qtype: self.qtype, qclass: self.qclass }
    }
}

/// The octets of a question, or why it cannot be written.
pub open spec fn encode_question(q: QuestionView) -> Result<Seq<u8>, CodecError> {
    match encode_name(q.qname) {
        Err(e) => Err(e),
        Ok(n) => Ok(n + be16(q.qtype) + be16(q.qclass)),
    }
}

/// The question that starts at `pos`, and the offset just past it.
pub open spec fn parse_question(b: Seq<u8>, pos: nat) -> Result<(QuestionView, nat), CodecError> {
    match parse_name(b, pos) {
        Err(e) => Err(e),
        Ok((qname, p)) => if p + 4 > b.len() {
            Err(CodecError::TruncatedQuestion { offset: p as usize })
        } else {
            Ok(
                (
                    QuestionView {
                        qname,
                        qtype: read16(b, p as int),
                        qclass: read16(b, p + 2int),
                    },
                    p + 4,
                ),
            )
        },
    }
}

pub open spec fn question_result_view(r: Result<(Question, usize), CodecError>) -> Result<
    (QuestionView, nat),
    CodecError,
> {
    match r {
        Ok((q, e)) => Ok((q@, e as nat)),
        Err(err) => Err(err),
    }
}

impl Question {
    /// Appends the octets of the question to `out`.
    pub fn write(&self, out: &mut Vec<u8>) -> (r: Result<(), CodecError>)
        ensures
            match encode_question(self@) {
                Ok(bytes) => r is Ok && final(out)@ == old(out)@ + bytes,
                Err(e) => r == Err::<(), CodecError>(e),
            },
    {
        let ghost start = out@;
        write_name(&self.qname, out)?;
        let ghost after_name = out@;
        push_u16(out, self.qtype);
        push_u16(out, self.qclass);
        proof {
            let n = after_name.subrange(start.len() as int, after_name.len() as int);
            assert(start + n =~= after_name);
            assert(out@ =~= start + (n + be16(self.qtype) + be16(self.qclass)));
        }
        Ok(())
    }

    /// The octets of the question.
    pub fn serialize(&self) -> (r: Result<Vec<u8>, CodecError>)
        ensures
            match encode_question(self@) {
                Ok(bytes) => r matches Ok(v) && v@ == bytes,
                Err(e) => r == Err::<Vec<u8>, CodecError>(e),
            },
    {
        let mut bytes: Vec<u8> = Vec::new();
        self.write(&mut bytes)?;
        proof {
            assert(Seq::<u8>::empty() + bytes@ =~= bytes@);
        }
        Ok(bytes)
    }

    /// The question that starts at `start_offset` in `data`, and the offset
    /// just past it.
    pub fn deserialize(data: &[u8], start_offset: usize) -> (r: Result<(Question, usize), CodecError>)
        ensures
            question_result_view(r) == parse_question(data@, start_offset as nat),
    {
        let (qname, offset) = Message::parse_qname(data, start_offset)?;
        proof {
            lemma_read_name_end(data@, start_offset as nat, start_offset as nat, data@.len(), 0, None);
        }
        if data.len() - offset < 4 {
            return Err(CodecError::TruncatedQuestion { offset });
        }
        let qtype = get_u16(data, offset);
        let qclass = get_u16(data, offset + 2);
        Ok((Question { qname, qtype, qclass }, offset + 4))
    }
}

/// A record of the answer, authority or additional section.
#[derive(Debug, Clone)]
pub struct ResourceRecord {
    /// The labels of the name the record belongs to.
    pub name: Vec<String>,
    pub rtype: RecordType,
    pub rclass: u16,
    /// Seconds the record may be cached.
    pub ttl: u32,
    /// Length of `rdata`; encoding writes the actual length.
    pub rdlength: u16,
    /// The data, as octets whatever the type.
    pub rdata: Vec<u8>,
}

/// A record as a value.
pub struct RecordView {
    pub name: Seq<Seq<char>>,
    pub rtype: RecordType,
    pub rclass: u16,
    pub ttl: u32,
    pub rdlength: u16,
    pub rdata: Seq<u8>,
}

impl View for ResourceRecord {
    type V = RecordView;

    open spec fn view(&self) -> RecordView {
        RecordView {
            name: self.name.deep_view(),
            rtype: self.rtype,
            rclass: self.rclass,
            ttl: self.ttl,
            rdlength: self.rdlength,
            rdata: self.rdata@,
        }
    }
}

/// The octets of a record, or why it cannot be written. The length field is
/// that of the data.
pub open spec fn encode_record(r: RecordView) -> Result<Seq<u8>, CodecError> {
    match encode_name(r.name) {
        Err(e) => Err(e),
        Ok(n) => if r.rdata.len() > 0xffff {
            Err(CodecError::RDataNotEncodable)
        } else {
            Ok(
                n + be16(r.rtype.code()) + be16(r.rclass) + be32(r.ttl) + be16(r.rdata.len() as u16)
                    + r.rdata,
            )
        },
    }
}

/// The record that starts at `pos`, and the offset just past it.
pub open spec fn parse_record(b: Seq<u8>, pos: nat) -> Result<(RecordView, nat), CodecError> {
    match parse_name(b, pos) {
        Err(e) => Err(e),
        Ok((name, p)) => if p + 10 > b.len() {
            Err(CodecError::TruncatedRecordHeader { offset: p as usize })
        } else {
            let rdlength = read16(b, p + 8int);
            let s = p + 10;
            if s + rdlength > b.len() {
                Err(CodecError::TruncatedRData { offset: s as usize, rdlength })
            } else {
                Ok(
                    (
                        RecordView {
                            name,
                            rtype: type_of(read16(b, p as int)),
                            rclass: read16(b, p + 2int),
                            ttl: read32(b, p + 4int),
                            rdlength,
                            rdata: b.subrange(s as int, s + rdlength),
                        },
                        (s + rdlength) as nat,
                    ),
                )
            }
        },
    }
}

pub open spec fn record_result_view(r: Result<(ResourceRecord, usize), CodecError>) -> Result<
    (RecordView, nat),
    CodecError,
> {
    match r {
        Ok((rr, e)) => Ok((rr@, e as nat)),
        Err(err) => Err(err),
    }
}

impl ResourceRecord {
    /// Appends the octets of the record to `out`.
    pub fn write(&self, out: &mut Vec<u8>) -> (r: Result<(), CodecError>)
        ensures
            match encode_record(self@) {
                Ok(bytes) => r is Ok && final(out)@ == old(out)@ + bytes,
                Err(e) => r == Err::<(), CodecError>(e),
            },
    {
        let ghost start = out@;
        write_name(&self.name, out)?;
        let ghost after_name = out@;
        if self.rdata.len() > 0xffff {
            return Err(CodecError::RDataNotEncodable);
        }
        push_u16(out, self.rtype.to_u16());
        push_u16(out, self.rclass);
        push_u32(out, self.ttl);
        push_u16(out, self.rdata.len() as u16);
        push_all(out, self.rdata.as_slice());
        proof {
            let n = after_name.subrange(start.len() as int, after_name.len() as int);
            assert(start + n =~= after_name);
            assert(out@ =~= start + (n + be16(self.rtype.code()) + be16(self.rclass) + be32(self.ttl)
                + be16(self.rdata@.len() as u16) + self.rdata@));
        }
        Ok(())
    }

    /// The octets of the record.
    pub fn serialize(&self) -> (r: Result<Vec<u8>, CodecError>)
        ensures
            match encode_record(self@) {
                Ok(bytes) => r matches Ok(v) && v@ == bytes,
                Err(e) => r == Err::<Vec<u8>, CodecError>(e),
            },
    {
        let mut bytes: Vec<u8> = Vec::new();
        self.write(&mut bytes)?;
        proof {
            assert(Seq::<u8>::empty() + bytes@ =~= bytes@);
        }
        Ok(bytes)
    }

    /// The record that starts at `start_offset` in `data`, and the offset just
    /// past it.
    pub fn deserialize(data: &[u8], start_offset: usize) -> (r: Result<
        (ResourceRecord, usize),
        CodecError,
    >)
        ensures
            record_result_view(r) == parse_record(data@, start_offset as nat),
    {
        let (name, offset) = Message::parse_qname(data, start_offset)?;
        proof {
            lemma_read_name_end(data@, start_offset as nat, start_offset as nat, data@.len(), 0, None);
        }
        if data.len() - offset < 10 {
            return Err(CodecError::TruncatedRecordHeader { offset });
        }
        let rtype = RecordType::from_u16(get_u16(data, offset));
        let rclass = get_u16(data, offset + 2);
        let ttl = get_u32(data, offset + 4);
        let rdlength = get_u16(data, offset + 8);
        let s = offset + 10;
        if data.len() - s < rdlength as usize {
            return Err(CodecError::TruncatedRData { offset: s, rdlength });
        }
        let e = s + rdlength as usize;
        let mut rdata: Vec<u8> = Vec::new();
        push_all(&mut rdata, &data[s..e]);
        proof {
            assert(Seq::<u8>::empty() + data@.subrange(s as int, e as int) =~= rdata@);
        }
        Ok((ResourceRecord { name, rtype, rclass, ttl, rdlength, rdata }, e))
    }
}

/// A question can be written.
pub open spec fn question_ok(q: QuestionView) -> bool {
    name_ok(q.qname)
}

/// The octets of a question that can be written.
pub open spec fn question_bytes(q: QuestionView) -> Seq<u8> {
    name_bytes(q.qname) + be16(q.qtype) + be16(q.qclass)
}

/// A record can be written, its type is well formed, and its length field is
/// the length of its data.
pub open spec fn record_ok(r: RecordView) -> bool {
    &&& name_ok(r.name)
    &&& r.rtype.wf()
    &&& r.rdata.len() <= 0xffff
    &&& r.rdlength == r.rdata.len()
}

/// The octets of a record that can be written.
pub open spec fn record_bytes(r: RecordView) -> Seq<u8> {
    name_bytes(r.name) + be16(r.rtype.code()) + be16(r.rclass) + be32(r.ttl) + be16(r.rdata.len() as u16)
        + r.rdata
}

/// A question that can be written decodes, from its octets found anywhere in
/// a buffer, back to itself.
pub proof fn lemma_question_round_trip(b: Seq<u8>, pos: nat, q: QuestionView)
    requires
        question_ok(q),
        pos + question_bytes(q).len() <= b.len(),
        b.subrange(pos as int, (pos + question_bytes(q).len()) as int) == question_bytes(q),
    ensures
        encode_question(q) == Ok::<Seq<u8>, CodecError>(question_bytes(q)),
        parse_question(b, pos) == Ok::<(QuestionView, nat), CodecError>(
            (q, pos + question_bytes(q).len()),
        ),
{
    let qb = question_bytes(q);
    let nb = name_bytes(q.qname);
    let p: int = (pos + nb.len()) as int;
    let n = nb.len() as int;
    assert(!(exists|i: int| 0 <= i < q.qname.len() && !crate::name::label_ok(#[trigger] q.qname[i])));
    assert(qb.subrange(0, nb.len() as int) =~= nb);
    lemma_subrange_part(b, pos as int, qb, 0, nb);
    assert(qb.subrange(n, n + 2) =~= be16(q.qtype));
    lemma_subrange_part(b, pos as int, qb, n, be16(q.qtype));
    assert(qb.subrange(n + 2, n + 4) =~= be16(q.qclass));
    lemma_subrange_part(b, pos as int, qb, n + 2, be16(q.qclass));
    lemma_read_literal_name(b, pos, pos, b.len(), 0, None, q.qname);
    lemma_read16_be16(b, p, q.qtype);
    lemma_read16_be16(b, p + 2, q.qclass);
}

/// A record that can be written decodes, from its octets found anywhere in a
/// buffer, back to itself: the type value, known or not, and the data pass
/// through unchanged, and writing the decoded record gives the same octets.
pub proof fn lemma_record_round_trip(b: Seq<u8>, pos: nat, r: RecordView)
    requires
        record_ok(r),
        pos + record_bytes(r).len() <= b.len(),
        b.subrange(pos as int, (pos + record_bytes(r).len()) as int) == record_bytes(r),
    ensures
        encode_record(r) == Ok::<Seq<u8>, CodecError>(record_bytes(r)),
        parse_record(b, pos) == Ok::<(RecordView, nat), CodecError>(
            (r, pos + record_bytes(r).len()),
        ),
{
    let rb = record_bytes(r);
    let nb = name_bytes(r.name);
    let p: int = (pos + nb.len()) as int;
    let n = nb.len() as int;
    assert(!(exists|i: int| 0 <= i < r.name.len() && !crate::name::label_ok(#[trigger] r.name[i])));
    assert(rb.subrange(0, n) =~= nb);
    lemma_subrange_part(b, pos as int, rb, 0, nb);
    assert(rb.subrange(n, n + 2) =~= be16(r.rtype.code()));
    lemma_subrange_part(b, pos as int, rb, n, be16(r.rtype.code()));
    assert(rb.subrange(n + 2, n + 4) =~= be16(r.rclass));
    lemma_subrange_part(b, pos as int, rb, n + 2, be16(r.rclass));
    assert(rb.subrange(n + 4, n + 8) =~= be32(r.ttl));
    lemma_subrange_part(b, pos as int, rb, n + 4, be32(r.ttl));
    assert(rb.subrange(n + 8, n + 10) =~= be16(r.rdata.len() as u16));
    lemma_subrange_part(b, pos as int, rb, n + 8, be16(r.rdata.len() as u16));
    assert(rb.subrange(n + 10, n + 10 + r.rdata.len()) =~= r.rdata);
    lemma_subrange_part(b, pos as int, rb, n + 10, r.rdata);
    lemma_read_literal_name(b, pos, pos, b.len(), 0, None, r.name);
    lemma_read16_be16(b, p, r.rtype.code());
    lemma_read16_be16(b, p + 2, r.rclass);
    lemma_read32_be32(b, p + 4, r.ttl);
    lemma_read16_be16(b, p + 8, r.rdata.len() as u16);
}

/// A question that can be written, cut short before its last octet, fails
/// to decode with a truncation error or inside a label.
pub proof fn lemma_question_cut(b: Seq<u8>, pos: nat, q: QuestionView)
    requires
        question_ok(q),
        b.len() <= usize::MAX,
        pos <= b.len() < pos + question_bytes(q).len(),
        b.subrange(pos as int, b.len() as int) == question_bytes(q).subrange(0, b.len() - pos),
    ensures
        parse_question(b, pos) matches Err(e) && (e.is_truncation() || label_cut(b, e)),
{
    let qb = question_bytes(q);
    let nb = name_bytes(q.qname);
    let k: int = b.len() - pos;
    if b.len() < pos + nb.len() {
        assert(b.subrange(pos as int, b.len() as int) =~= nb.subrange(0, k));
        lemma_read_literal_name_cut(b, pos, pos, b.len(), 0, None, q.qname);
    } else {
        assert(b.subrange(pos as int, (pos + nb.len()) as int) =~= qb.subrange(0, k).subrange(
            0,
            nb.len() as int,
        ));
        assert(qb.subrange(0, k).subrange(0, nb.len() as int) =~= nb);
        lemma_read_literal_name(b, pos, pos, b.len(), 0, None, q.qname);
    }
}

/// A record that can be written, cut short before its last octet, fails to
/// decode with a truncation error or inside a label.
pub proof fn lemma_record_cut(b: Seq<u8>, pos: nat, r: RecordView)
    requires
        record_ok(r),
        b.len() <= usize::MAX,
        pos <= b.len() < pos + record_bytes(r).len(),
        b.subrange(pos as int, b.len() as int) == record_bytes(r).subrange(0, b.len() - pos),
    ensures
        parse_record(b, pos) matches Err(e) && (e.is_truncation() || label_cut(b, e)),
{
    let rb = record_bytes(r);
    let nb = name_bytes(r.name);
    let n = nb.len() as int;
    let k: int = b.len() - pos;
    let p: int = pos + n;
    if b.len() < pos + n {
        assert(b.subrange(pos as int, b.len() as int) =~= nb.subrange(0, k));
        lemma_read_literal_name_cut(b, pos, pos, b.len(), 0, None, r.name);
    } else {
        assert(b.subrange(pos as int, p) =~= rb.subrange(0, k).subrange(0, n));
        assert(rb.subrange(0, k).subrange(0, n) =~= nb);
        lemma_read_literal_name(b, pos, pos, b.len(), 0, None, r.name);
        if p + 10 <= b.len() {
            assert(b.subrange(p + 8, p + 10) =~= rb.subrange(0, k).subrange(n + 8, n + 10));
            assert(rb.subrange(0, k).subrange(n + 8, n + 10) =~= be16(r.rdata.len() as u16));
            lemma_read16_be16(b, p + 8, r.rdata.len() as u16);
        }
    }
}

} // verus!
