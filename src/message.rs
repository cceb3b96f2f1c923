//! Whole messages: the header and the four sections in wire order.
use vstd::prelude::*;
use crate::error::CodecError;
use crate::header::{
    encode_header, lemma_header_round_trip, parse_header, query_header, MessageHeader,
};
use crate::name::{
    encode_name, label_cut, name_bytes, name_ok, name_result_view, opt_nat, parse_name, prepend,
    read_name, split_domain, split_labels, utf8_text, write_name,
};
use vstd::utf8::{decode_utf8, decode_utf8_encode_utf8, encode_utf8_decode_utf8};
use crate::record::{
    encode_question, encode_record, lemma_question_cut, lemma_question_round_trip,
    lemma_record_cut, lemma_record_round_trip,
    parse_question, parse_record, question_bytes, question_ok, record_bytes, record_ok, Question,
    QuestionView, RecordView, ResourceRecord,
};
use crate::wire::{be16, lemma_subrange_part};

verus! {

/// A DNS message: header, questions, and the answer, authority and additional
/// records.
#[derive(Debug, Clone)]
pub struct Message {
    pub header: MessageHeader,
    pub question: Vec<Question>,
    pub answer: Vec<ResourceRecord>,
    pub authority: Vec<ResourceRecord>,
    pub extra: Vec<ResourceRecord>,
}

/// A message as a value.
pub struct MessageView {
    pub header: MessageHeader,
    pub question: Seq<QuestionView>,
    pub answer: Seq<RecordView>,
    pub authority: Seq<RecordView>,
    pub extra: Seq<RecordView>,
}

pub open spec fn question_views(qs: Seq<Question>) -> Seq<QuestionView> {
    qs.map_values(|q: Question| q@)
}

pub open spec fn record_views(rs: Seq<ResourceRecord>) -> Seq<RecordView> {
    rs.map_values(|r: ResourceRecord| r@)
}

impl View for Message {
    type V = MessageView;

    open spec fn view(&self) -> MessageView {
        MessageView {
            header: self.header,
            question: question_views(self.question@),
            answer: record_views(self.answer@),
            authority: record_views(self.authority@),
            extra: record_views(self.extra@),
        }
    }
}

/// The octets of a list of questions in order, or the first reason one of
/// them cannot be written.
pub open spec fn encode_questions(qs: Seq<QuestionView>) -> Result<Seq<u8>, CodecError>
    decreases qs.len(),
{
    if qs.len() == 0 {
        Ok(seq![])
    } else {
        match encode_questions(qs.drop_last()) {
            Err(e) => Err(e),
            Ok(p) => match encode_question(qs.last()) {
                Err(e) => Err(e),
                Ok(b) => Ok(p + b),
            },
        }
    }
}

/// The octets of a list of records in order, or the first reason one of them
/// cannot be written.
pub open spec fn encode_records(rs: Seq<RecordView>) -> Result<Seq<u8>, CodecError>
    decreases rs.len(),
{
    if rs.len() == 0 {
        Ok(seq![])
    } else {
        match encode_records(rs.drop_last()) {
            Err(e) => Err(e),
            Ok(p) => match encode_record(rs.last()) {
                Err(e) => Err(e),
                Ok(b) => Ok(p + b),
            },
        }
    }
}

/// The header as written: its counts are the lengths of the sections.
pub open spec fn wire_header(m: MessageView) -> MessageHeader {
    MessageHeader {
        qdcount: m.question.len() as u16,
        ancount: m.answer.len() as u16,
        nscount: m.authority.len() as u16,
        arcount: m.extra.len() as u16,
        ..m.header
    }
}

/// The octets of a message, or why it cannot be written.
pub open spec fn encode_message(m: MessageView) -> Result<Seq<u8>, CodecError> {
    if m.question.len() > 0xffff || m.answer.len() > 0xffff || m.authority.len() > 0xffff
        || m.extra.len() > 0xffff {
        Err(CodecError::SectionNotEncodable)
    } else {
        match (
            encode_questions(m.question),
            encode_records(m.answer),
            encode_records(m.authority),
            encode_records(m.extra),
        ) {
            (Err(e), _, _, _) => Err(e),
            (Ok(_), Err(e), _, _) => Err(e),
            (Ok(_), Ok(_), Err(e), _) => Err(e),
            (Ok(_), Ok(_), Ok(_), Err(e)) => Err(e),
            (Ok(q), Ok(an), Ok(ns), Ok(ar)) => Ok(encode_header(wire_header(m)) + q + an + ns + ar),
        }
    }
}

/// `n` questions from `pos` on, and the offset just past the last.
pub open spec fn parse_questions(b: Seq<u8>, pos: nat, n: nat) -> Result<
    (Seq<QuestionView>, nat),
    CodecError,
>
    decreases n,
{
    if n == 0 {
        Ok((seq![], pos))
    } else if pos >= b.len() {
        Err(CodecError::IncompleteMessage { offset: pos as usize })
    } else {
        match parse_question(b, pos) {
            Err(e) => Err(e),
            Ok((q, p)) => match parse_questions(b, p, (n - 1) as nat) {
                Err(e) => Err(e),
                Ok((qs, e)) => Ok((seq![q] + qs, e)),
            },
        }
    }
}

/// `n` records from `pos` on, and the offset just past the last.
pub open spec fn parse_records(b: Seq<u8>, pos: nat, n: nat) -> Result<
    (Seq<RecordView>, nat),
    CodecError,
>
    decreases n,
{
    if n == 0 {
        Ok((seq![], pos))
    } else if pos >= b.len() {
        Err(CodecError::IncompleteMessage { offset: pos as usize })
    } else {
        match parse_record(b, pos) {
            Err(e) => Err(e),
            Ok((r, p)) => match parse_records(b, p, (n - 1) as nat) {
                Err(e) => Err(e),
                Ok((rs, e)) => Ok((seq![r] + rs, e)),
            },
        }
    }
}

/// The message in `b`: the header's counts say how many entries each section
/// holds.
pub open spec fn parse_message(b: Seq<u8>) -> Result<MessageView, CodecError> {
    match parse_header(b) {
        Err(e) => Err(e),
        Ok(h) => match parse_questions(b, 12, h.qdcount as nat) {
            Err(e) => Err(e),
            Ok((qs, p1)) => match parse_records(b, p1, h.ancount as nat) {
                Err(e) => Err(e),
                Ok((an, p2)) => match parse_records(b, p2, h.nscount as nat) {
                    Err(e) => Err(e),
                    Ok((ns, p3)) => match parse_records(b, p3, h.arcount as nat) {
                        Err(e) => Err(e),
                        Ok((ar, _)) => Ok(
                            MessageView {
                                header: h,
                                question: qs,
                                answer: an,
                                authority: ns,
                                extra: ar,
                            },
                        ),
                    },
                },
            },
        },
    }
}

pub open spec fn prepend_questions(
    qs: Seq<QuestionView>,
    r: Result<(Seq<QuestionView>, nat), CodecError>,
) -> Result<(Seq<QuestionView>, nat), CodecError> {
    match r {
        Ok((rest, e)) => Ok((qs + rest, e)),
        Err(err) => Err(err),
    }
}

pub open spec fn prepend_records(rs: Seq<RecordView>, r: Result<(Seq<RecordView>, nat), CodecError>) -> Result<
    (Seq<RecordView>, nat),
    CodecError,
> {
    match r {
        Ok((rest, e)) => Ok((rs + rest, e)),
        Err(err) => Err(err),
    }
}

pub open spec fn records_result_view(r: Result<(Vec<ResourceRecord>, usize), CodecError>) -> Result<
    (Seq<RecordView>, nat),
    CodecError,
> {
    match r {
        Ok((rs, e)) => Ok((record_views(rs@), e as nat)),
        Err(err) => Err(err),
    }
}

pub open spec fn message_result_view(r: Result<Message, CodecError>) -> Result<MessageView, CodecError> {
    match r {
        Ok(m) => Ok(m@),
        Err(err) => Err(err),
    }
}

proof fn lemma_questions_prefix_err(qs: Seq<QuestionView>, i: int)
    requires
        0 <= i <= qs.len(),
        encode_questions(qs.subrange(0, i)) is Err,
    ensures
        encode_questions(qs) == encode_questions(qs.subrange(0, i)),
    decreases qs.len() - i,
{
    if i < qs.len() {
        let longer = qs.subrange(0, i + 1);
        assert(longer.drop_last() =~= qs.subrange(0, i));
        lemma_questions_prefix_err(qs, i + 1);
    } else {
        assert(qs.subrange(0, i) =~= qs);
    }
}

proof fn lemma_records_prefix_err(rs: Seq<RecordView>, i: int)
    requires
        0 <= i <= rs.len(),
        encode_records(rs.subrange(0, i)) is Err,
    ensures
        encode_records(rs) == encode_records(rs.subrange(0, i)),
    decreases rs.len() - i,
{
    if i < rs.len() {
        let longer = rs.subrange(0, i + 1);
        assert(longer.drop_last() =~= rs.subrange(0, i));
        lemma_records_prefix_err(rs, i + 1);
    } else {
        assert(rs.subrange(0, i) =~= rs);
    }
}

fn write_questions(qs: &Vec<Question>, out: &mut Vec<u8>) -> (r: Result<(), CodecError>)
    ensures
        match encode_questions(question_views(qs@)) {
            Ok(bytes) => r is Ok && final(out)@ == old(out)@ + bytes,
            Err(e) => r == Err::<(), CodecError>(e),
        },
{
    let ghost start = out@;
    let ghost all = question_views(qs@);
    let mut i: usize = 0;
    proof {
        assert(out@.subrange(start.len() as int, out@.len() as int) =~= seq![]);
        assert(out@.subrange(0, start.len() as int) =~= start);
    }
    while i < qs.len()
        invariant
            i <= qs@.len(),
            all == question_views(qs@),
            encode_questions(all.subrange(0, i as int)) == Ok::<Seq<u8>, CodecError>(
                out@.subrange(start.len() as int, out@.len() as int),
            ),
            out@.subrange(0, start.len() as int) == start,
            start.len() <= out@.len(),
        decreases qs@.len() - i,
    {
        let ghost before = out@;
        let res = qs[i].write(out);
        proof {
            let pre = all.subrange(0, i + 1);
            assert(pre.drop_last() =~= all.subrange(0, i as int));
            assert(pre.last() == qs@[i as int]@);
        }
        match res {
            Err(e) => {
                proof {
                    let pre = all.subrange(0, i + 1);
                    assert(encode_questions(pre) == Err::<Seq<u8>, CodecError>(e));
                    lemma_questions_prefix_err(all, i + 1);
                }
                return Err(e);
            },
            Ok(()) => {},
        }
        proof {
            let b = out@.subrange(before.len() as int, out@.len() as int);
            let pre = all.subrange(0, i + 1);
            assert(before + b =~= out@);
            match encode_question(pre.last()) {
                Ok(bytes) => {
                    assert(b =~= bytes);
                },
                Err(_) => {},
            }
            assert(out@.subrange(start.len() as int, out@.len() as int) =~= before.subrange(
                start.len() as int,
                before.len() as int,
            ) + b);
            assert(out@.subrange(0, start.len() as int) =~= before.subrange(0, start.len() as int));
        }
        i = i + 1;
    }
    proof {
        assert(all.subrange(0, i as int) =~= all);
        assert(out@ =~= start + out@.subrange(start.len() as int, out@.len() as int));
    }
    Ok(())
}

fn write_records(rs: &Vec<ResourceRecord>, out: &mut Vec<u8>) -> (r: Result<(), CodecError>)
    ensures
        match encode_records(record_views(rs@)) {
            Ok(bytes) => r is Ok && final(out)@ == old(out)@ + bytes,
            Err(e) => r == Err::<(), CodecError>(e),
        },
{
    let ghost start = out@;
    let ghost all = record_views(rs@);
    let mut i: usize = 0;
    proof {
        assert(out@.subrange(start.len() as int, out@.len() as int) =~= seq![]);
        assert(out@.subrange(0, start.len() as int) =~= start);
    }
    while i < rs.len()
        invariant
            i <= rs@.len(),
            all == record_views(rs@),
            encode_records(all.subrange(0, i as int)) == Ok::<Seq<u8>, CodecError>(
                out@.subrange(start.len() as int, out@.len() as int),
            ),
            out@.subrange(0, start.len() as int) == start,
            start.len() <= out@.len(),
        decreases rs@.len() - i,
    {
        let ghost before = out@;
        let res = rs[i].write(out);
        proof {
            let pre = all.subrange(0, i + 1);
            assert(pre.drop_last() =~= all.subrange(0, i as int));
            assert(pre.last() == rs@[i as int]@);
        }
        match res {
            Err(e) => {
                proof {
                    let pre = all.subrange(0, i + 1);
                    assert(encode_records(pre) == Err::<Seq<u8>, CodecError>(e));
                    lemma_records_prefix_err(all, i + 1);
                }
                return Err(e);
            },
            Ok(()) => {},
        }
        proof {
            let b = out@.subrange(before.len() as int, out@.len() as int);
            let pre = all.subrange(0, i + 1);
            assert(before + b =~= out@);
            match encode_record(pre.last()) {
                Ok(bytes) => {
                    assert(b =~= bytes);
                },
                Err(_) => {},
            }
            assert(out@.subrange(start.len() as int, out@.len() as int) =~= before.subrange(
                start.len() as int,
                before.len() as int,
            ) + b);
            assert(out@.subrange(0, start.len() as int) =~= before.subrange(0, start.len() as int));
        }
        i = i + 1;
    }
    proof {
        assert(all.subrange(0, i as int) =~= all);
        assert(out@ =~= start + out@.subrange(start.len() as int, out@.len() as int));
    }
    Ok(())
}

/// Reads `n` records from `start` on.
fn read_records(data: &[u8], start: usize, n: u16) -> (r: Result<(Vec<ResourceRecord>, usize), CodecError>)
    ensures
        records_result_view(r) == parse_records(data@, start as nat, n as nat),
{
    let mut records: Vec<ResourceRecord> = Vec::new();
    let mut offset: usize = start;
    let mut left: u16 = n;
    while left > 0
        invariant
            parse_records(data@, start as nat, n as nat) == prepend_records(
                record_views(records@),
                parse_records(data@, offset as nat, left as nat),
            ),
        decreases left,
    {
        if offset >= data.len() {
            return Err(CodecError::IncompleteMessage { offset });
        }
        let (record, next) = ResourceRecord::deserialize(data, offset)?;
        proof {
            let rest = parse_records(data@, next as nat, (left - 1) as nat);
            match rest {
                Ok((rl, e)) => {
                    assert(record_views(records@) + (seq![record@] + rl) =~= record_views(
                        records@.push(record),
                    ) + rl);
                },
                Err(_) => {},
            }
        }
        records.push(record);
        offset = next;
        left = left - 1;
    }
    proof {
        assert(record_views(records@) + seq![] =~= record_views(records@));
    }
    Ok((records, offset))
}

impl Message {
    /// Decodes the name that starts at `start_offset`, following compression
    /// pointers: its labels, and the offset just past the name where it
    /// starts.
    pub fn parse_qname(data: &[u8], start_offset: usize) -> (r: Result<(Vec<String>, usize), CodecError>)
        ensures
            name_result_view(r) == parse_name(data@, start_offset as nat),
    {
        let mut labels: Vec<String> = Vec::new();
        let mut pos: usize = start_offset;
        let mut floor: usize = start_offset;
        let mut limit: usize = data.len();
        let mut total: usize = 0;
        let mut end: Option<usize> = None;
        // Every offset read so far lies at or above `floor`. A pointer must
        // jump below it, and what is read after the jump must stay below
        // `limit`, the floor from before the jump: no offset is read twice,
        // and the loop ends.
        loop
            invariant
                total <= 254,
                floor <= start_offset,
                limit <= data@.len(),
                pos >= floor,
                opt_nat(end) matches Some(e) ==> e <= data@.len(),
                parse_name(data@, start_offset as nat) == prepend(
                    labels.deep_view(),
                    read_name(data@, pos as nat, floor as nat, limit as nat, total as nat, opt_nat(end)),
                ),
            decreases floor, data@.len() - pos,
        {
            proof {
                assert(labels.deep_view() + seq![] =~= labels.deep_view());
            }
            if pos >= data.len() {
                return Err(CodecError::IncompleteMessage { offset: pos });
            }
            if pos >= limit {
                return Err(CodecError::CompressionLoop { offset: pos });
            }
            let len: u8 = data[pos];
            if len == 0 {
                let e = match end {
                    Some(e) => e,
                    None => pos + 1,
                };
                return Ok((labels, e));
            } else if len < 64 {
                let n = len as usize;
                if n > data.len() - pos - 1 {
                    return Err(CodecError::InvalidLabel { offset: pos });
                }
                if n > limit - pos - 1 {
                    return Err(CodecError::CompressionLoop { offset: pos });
                }
                if total + n + 2 > 255 {
                    return Err(CodecError::NameTooLong { offset: pos });
                }
                let next = pos + 1 + n;
                let text = match utf8_text(&data[pos + 1..next]) {
                    Some(t) => t,
                    None => {
                        return Err(CodecError::InvalidLabel { offset: pos });
                    },
                };
                let label: String = text.to_owned();
                proof {
                    let lb = data@.subrange(pos + 1, next as int);
                    assert(label@ == decode_utf8(lb)) by {
                        decode_utf8_encode_utf8(lb);
                        encode_utf8_decode_utf8(label@);
                    }
                    let old_ls = labels.deep_view();
                    let rest = read_name(
                        data@,
                        next as nat,
                        floor as nat,
                        limit as nat,
                        (total + 1 + n) as nat,
                        opt_nat(end),
                    );
                    match rest {
                        Ok((rl, e)) => {
                            assert(old_ls + (seq![label@] + rl) =~= old_ls.push(label@) + rl);
                        },
                        Err(_) => {},
                    }
                }
                let ghost before = labels.deep_view();
                let ghost label_view = label@;
                labels.push(label);
                proof {
                    assert(labels.deep_view() =~= before.push(label_view));
                }
                total = total + 1 + n;
                pos = next;
            } else if len >= 192 {
                if data.len() - pos < 2 {
                    return Err(CodecError::IncompleteMessage { offset: pos });
                }
                if limit - pos < 2 {
                    return Err(CodecError::CompressionLoop { offset: pos });
                }
                let target: usize = ((len - 192) as usize) * 256 + data[pos + 1] as usize;
                if target >= data.len() {
                    return Err(CodecError::InvalidPointer { offset: pos });
                }
                if target >= floor {
                    return Err(CodecError::CompressionLoop { offset: pos });
                }
                if end.is_none() {
                    end = Some(pos + 2);
                }
                pos = target;
                limit = floor;
                floor = target;
            } else {
                return Err(CodecError::InvalidLabelLength { offset: pos });
            }
        }
    }

    /// The octets of the message. The header's counts are written as the
    /// lengths of the sections, and each record's length field as the length
    /// of its data.
    pub fn serialize(&self) -> (r: Result<Vec<u8>, CodecError>)
        ensures
            match encode_message(self@) {
                Ok(bytes) => r matches Ok(v) && v@ == bytes,
                Err(e) => r == Err::<Vec<u8>, CodecError>(e),
            },
    {
        if self.question.len() > 0xffff || self.answer.len() > 0xffff || self.authority.len()
            > 0xffff || self.extra.len() > 0xffff {
            return Err(CodecError::SectionNotEncodable);
        }
        let mut header = self.header;
        header.qdcount = self.question.len() as u16;
        header.ancount = self.answer.len() as u16;
        header.nscount = self.authority.len() as u16;
        header.arcount = self.extra.len() as u16;
        let mut bytes = header.serialize();
        let ghost h = bytes@;
        write_questions(&self.question, &mut bytes)?;
        let ghost q = bytes@;
        write_records(&self.answer, &mut bytes)?;
        let ghost an = bytes@;
        write_records(&self.authority, &mut bytes)?;
        let ghost ns = bytes@;
        write_records(&self.extra, &mut bytes)?;
        proof {
            assert(header == wire_header(self@));
            let qb = q.subrange(h.len() as int, q.len() as int);
            let anb = an.subrange(q.len() as int, an.len() as int);
            let nsb = ns.subrange(an.len() as int, ns.len() as int);
            let arb = bytes@.subrange(ns.len() as int, bytes@.len() as int);
            assert(q =~= h + qb);
            assert(an =~= q + anb);
            assert(ns =~= an + nsb);
            assert(bytes@ =~= ns + arb);
            assert(bytes@ =~= h + qb + anb + nsb + arb);
        }
        Ok(bytes)
    }

    /// The message in `data`. The header's counts say how many entries each
    /// section holds; octets after the last entry are not read.
    pub fn deserialize(data: &[u8]) -> (r: Result<Message, CodecError>)
        ensures
            message_result_view(r) == parse_message(data@),
    {
        let header = MessageHeader::deserialize(data)?;
        let mut question: Vec<Question> = Vec::new();
        let mut offset: usize = 12;
        let mut left: u16 = header.qdcount;
        while left > 0
            invariant
                parse_header(data@) == Ok::<MessageHeader, CodecError>(header),
                parse_questions(data@, 12, header.qdcount as nat) == prepend_questions(
                    question_views(question@),
                    parse_questions(data@, offset as nat, left as nat),
                ),
            decreases left,
        {
            if offset >= data.len() {
                return Err(CodecError::IncompleteMessage { offset });
            }
            let (q, next) = Question::deserialize(data, offset)?;
            proof {
                let rest = parse_questions(data@, next as nat, (left - 1) as nat);
                match rest {
                    Ok((rl, e)) => {
                        assert(question_views(question@) + (seq![q@] + rl) =~= question_views(
                            question@.push(q),
                        ) + rl);
                    },
                    Err(_) => {},
                }
            }
            question.push(q);
            offset = next;
            left = left - 1;
        }
        proof {
            assert(question_views(question@) + seq![] =~= question_views(question@));
        }
        let (answer, offset) = read_records(data, offset, header.ancount)?;
        let (authority, offset) = read_records(data, offset, header.nscount)?;
        let (extra, _) = read_records(data, offset, header.arcount)?;
        Ok(Message { header, question, answer, authority, extra })
    }
}

/// A message can be written and read back: the header's fields fit their
/// widths, its counts are the lengths of the sections, and every entry can be
/// written.
pub open spec fn message_ok(m: MessageView) -> bool {
    &&& m.header.wf()
    &&& m.header.qdcount == m.question.len()
    &&& m.header.ancount == m.answer.len()
    &&& m.header.nscount == m.authority.len()
    &&& m.header.arcount == m.extra.len()
    &&& forall|i: int| 0 <= i < m.question.len() ==> question_ok(#[trigger] m.question[i])
    &&& forall|i: int| 0 <= i < m.answer.len() ==> record_ok(#[trigger] m.answer[i])
    &&& forall|i: int| 0 <= i < m.authority.len() ==> record_ok(#[trigger] m.authority[i])
    &&& forall|i: int| 0 <= i < m.extra.len() ==> record_ok(#[trigger] m.extra[i])
}

/// The octets of questions that can all be written, in order.
pub open spec fn questions_bytes(qs: Seq<QuestionView>) -> Seq<u8> {
    qs.map_values(|q: QuestionView| question_bytes(q)).flatten()
}

/// The octets of records that can all be written, in order.
pub open spec fn records_bytes(rs: Seq<RecordView>) -> Seq<u8> {
    rs.map_values(|r: RecordView| record_bytes(r)).flatten()
}

proof fn lemma_encode_questions_ok(qs: Seq<QuestionView>)
    requires
        forall|i: int| 0 <= i < qs.len() ==> question_ok(#[trigger] qs[i]),
    ensures
        encode_questions(qs) == Ok::<Seq<u8>, CodecError>(questions_bytes(qs)),
    decreases qs.len(),
{
    broadcast use Seq::lemma_flatten_push;

    if qs.len() > 0 {
        let init = qs.drop_last();
        assert forall|i: int| 0 <= i < init.len() implies question_ok(#[trigger] init[i]) by {
            assert(init[i] == qs[i]);
        }
        lemma_encode_questions_ok(init);
        assert(question_bytes(qs.last()).subrange(0, question_bytes(qs.last()).len() as int)
            =~= question_bytes(qs.last()));
        lemma_question_round_trip(question_bytes(qs.last()), 0, qs.last());
        let f = |q: QuestionView| question_bytes(q);
        assert(qs.map_values(f) =~= init.map_values(f).push(question_bytes(qs.last())));
    } else {
        assert(qs.map_values(|q: QuestionView| question_bytes(q)) =~= seq![]);
    }
}

proof fn lemma_encode_records_ok(rs: Seq<RecordView>)
    requires
        forall|i: int| 0 <= i < rs.len() ==> record_ok(#[trigger] rs[i]),
    ensures
        encode_records(rs) == Ok::<Seq<u8>, CodecError>(records_bytes(rs)),
    decreases rs.len(),
{
    broadcast use Seq::lemma_flatten_push;

    if rs.len() > 0 {
        let init = rs.drop_last();
        assert forall|i: int| 0 <= i < init.len() implies record_ok(#[trigger] init[i]) by {
            assert(init[i] == rs[i]);
        }
        lemma_encode_records_ok(init);
        assert(record_bytes(rs.last()).subrange(0, record_bytes(rs.last()).len() as int)
            =~= record_bytes(rs.last()));
        lemma_record_round_trip(record_bytes(rs.last()), 0, rs.last());
        let f = |r: RecordView| record_bytes(r);
        assert(rs.map_values(f) =~= init.map_values(f).push(record_bytes(rs.last())));
    } else {
        assert(rs.map_values(|r: RecordView| record_bytes(r)) =~= seq![]);
    }
}

proof fn lemma_parse_questions_ok(b: Seq<u8>, pos: nat, qs: Seq<QuestionView>)
    requires
        forall|i: int| 0 <= i < qs.len() ==> question_ok(#[trigger] qs[i]),
        pos + questions_bytes(qs).len() <= b.len(),
        b.subrange(pos as int, (pos + questions_bytes(qs).len()) as int) == questions_bytes(qs),
    ensures
        parse_questions(b, pos, qs.len()) == Ok::<(Seq<QuestionView>, nat), CodecError>(
            (qs, pos + questions_bytes(qs).len()),
        ),
    decreases qs.len(),
{
    let f = |q: QuestionView| question_bytes(q);
    let all = questions_bytes(qs);
    if qs.len() == 0 {
        assert(qs.map_values(f) =~= seq![]);
        assert(qs =~= seq![]);
    } else {
        let rest = qs.drop_first();
        let qb = question_bytes(qs[0]);
        assert(qs.map_values(f).drop_first() =~= rest.map_values(f));
        assert(all == qb + questions_bytes(rest));
        assert(all.subrange(0, qb.len() as int) =~= qb);
        assert(all.subrange(qb.len() as int, all.len() as int) =~= questions_bytes(rest));
        lemma_subrange_part(b, pos as int, all, 0, qb);
        lemma_subrange_part(b, pos as int, all, qb.len() as int, questions_bytes(rest));
        assert forall|i: int| 0 <= i < rest.len() implies question_ok(#[trigger] rest[i]) by {
            assert(rest[i] == qs[i + 1]);
        }
        lemma_question_round_trip(b, pos, qs[0]);
        lemma_parse_questions_ok(b, (pos + qb.len()) as nat, rest);
        assert(seq![qs[0]] + rest =~= qs);
    }
}

proof fn lemma_parse_records_ok(b: Seq<u8>, pos: nat, rs: Seq<RecordView>)
    requires
        forall|i: int| 0 <= i < rs.len() ==> record_ok(#[trigger] rs[i]),
        pos + records_bytes(rs).len() <= b.len(),
        b.subrange(pos as int, (pos + records_bytes(rs).len()) as int) == records_bytes(rs),
    ensures
        parse_records(b, pos, rs.len()) == Ok::<(Seq<RecordView>, nat), CodecError>(
            (rs, pos + records_bytes(rs).len()),
        ),
    decreases rs.len(),
{
    let f = |r: RecordView| record_bytes(r);
    let all = records_bytes(rs);
    if rs.len() == 0 {
        assert(rs.map_values(f) =~= seq![]);
        assert(rs =~= seq![]);
    } else {
        let rest = rs.drop_first();
        let rb = record_bytes(rs[0]);
        assert(rs.map_values(f).drop_first() =~= rest.map_values(f));
        assert(all == rb + records_bytes(rest));
        assert(all.subrange(0, rb.len() as int) =~= rb);
        assert(all.subrange(rb.len() as int, all.len() as int) =~= records_bytes(rest));
        lemma_subrange_part(b, pos as int, all, 0, rb);
        lemma_subrange_part(b, pos as int, all, rb.len() as int, records_bytes(rest));
        assert forall|i: int| 0 <= i < rest.len() implies record_ok(#[trigger] rest[i]) by {
            assert(rest[i] == rs[i + 1]);
        }
        lemma_record_round_trip(b, pos, rs[0]);
        lemma_parse_records_ok(b, (pos + rb.len()) as nat, rest);
        assert(seq![rs[0]] + rest =~= rs);
    }
}

/// The octets of a message that can be written.
pub open spec fn message_bytes(m: MessageView) -> Seq<u8> {
    encode_header(wire_header(m)) + questions_bytes(m.question) + records_bytes(m.answer)
        + records_bytes(m.authority) + records_bytes(m.extra)
}

proof fn lemma_encode_message_ok(m: MessageView)
    requires
        message_ok(m),
    ensures
        encode_message(m) == Ok::<Seq<u8>, CodecError>(message_bytes(m)),
{
    lemma_encode_questions_ok(m.question);
    lemma_encode_records_ok(m.answer);
    lemma_encode_records_ok(m.authority);
    lemma_encode_records_ok(m.extra);
}

proof fn lemma_five_parts(h: Seq<u8>, q: Seq<u8>, an: Seq<u8>, ns: Seq<u8>, ar: Seq<u8>)
    ensures
        ({
            let bytes = h + q + an + ns + ar;
            let p1 = h.len() + q.len();
            let p2 = p1 + an.len();
            let p3 = p2 + ns.len();
            &&& bytes == h + (q + an + ns + ar)
            &&& bytes.subrange(h.len() as int, p1 as int) == q
            &&& bytes.subrange(p1 as int, p2 as int) == an
            &&& bytes.subrange(p2 as int, p3 as int) == ns
            &&& bytes.subrange(p3 as int, bytes.len() as int) == ar
        }),
{
    let bytes = h + q + an + ns + ar;
    let p1 = h.len() + q.len();
    let p2 = p1 + an.len();
    let p3 = p2 + ns.len();
    assert(bytes =~= h + (q + an + ns + ar));
    assert(bytes.subrange(h.len() as int, p1 as int) =~= q);
    assert(bytes.subrange(p1 as int, p2 as int) =~= an);
    assert(bytes.subrange(p2 as int, p3 as int) =~= ns);
    assert(bytes.subrange(p3 as int, bytes.len() as int) =~= ar);
}

proof fn lemma_parse_sections(b: Seq<u8>, m: MessageView, p1: nat, p2: nat, p3: nat)
    requires
        message_ok(m),
        parse_header(b) == Ok::<MessageHeader, CodecError>(m.header),
        p1 == 12 + questions_bytes(m.question).len(),
        p2 == p1 + records_bytes(m.answer).len(),
        p3 == p2 + records_bytes(m.authority).len(),
        p3 + records_bytes(m.extra).len() <= b.len(),
        b.subrange(12, p1 as int) == questions_bytes(m.question),
        b.subrange(p1 as int, p2 as int) == records_bytes(m.answer),
        b.subrange(p2 as int, p3 as int) == records_bytes(m.authority),
        b.subrange(p3 as int, (p3 + records_bytes(m.extra).len()) as int) == records_bytes(m.extra),
    ensures
        parse_message(b) == Ok::<MessageView, CodecError>(m),
{
    lemma_parse_questions_ok(b, 12, m.question);
    lemma_parse_records_ok(b, p1, m.answer);
    lemma_parse_records_ok(b, p2, m.authority);
    lemma_parse_records_ok(b, p3, m.extra);
}

proof fn lemma_parse_message_bytes(m: MessageView)
    requires
        message_ok(m),
    ensures
        parse_message(message_bytes(m)) == Ok::<MessageView, CodecError>(m),
{
    let h = encode_header(wire_header(m));
    let q = questions_bytes(m.question);
    let an = records_bytes(m.answer);
    let ns = records_bytes(m.authority);
    let ar = records_bytes(m.extra);
    let bytes = message_bytes(m);
    assert(h.len() == 12);
    let p1 = 12 + q.len();
    let p2 = p1 + an.len();
    let p3 = p2 + ns.len();
    assert(parse_header(bytes) == Ok::<MessageHeader, CodecError>(m.header)) by {
        assert(wire_header(m) == m.header);
        lemma_five_parts(h, q, an, ns, ar);
        lemma_header_round_trip(m.header, q + an + ns + ar);
    }
    assert(bytes.subrange(12, p1 as int) == q && bytes.subrange(p1 as int, p2 as int) == an
        && bytes.subrange(p2 as int, p3 as int) == ns && bytes.subrange(
        p3 as int,
        (p3 + ar.len()) as int,
    ) == ar && p3 + ar.len() <= bytes.len()) by {
        lemma_five_parts(h, q, an, ns, ar);
    }
    lemma_parse_sections(bytes, m, p1, p2, p3);
}

/// Round trip: a message that can be written is written without error, and
/// decoding its octets gives the same message back.
pub proof fn lemma_message_round_trip(m: MessageView)
    requires
        message_ok(m),
    ensures
        encode_message(m) matches Ok(bytes) && parse_message(bytes) == Ok::<
            MessageView,
            CodecError,
        >(m),
{
    lemma_encode_message_ok(m);
    lemma_parse_message_bytes(m);
}

/// A domain a query can be made for: not empty, and its labels make a name
/// that can be written.
pub open spec fn domain_ok(d: Seq<char>) -> bool {
    d.len() > 0 && name_ok(split_labels(d))
}

/// The query for `d` with identifier `id`: one question of type A (1) and
/// class IN (1), and no records.
pub open spec fn query_view(id: u16, d: Seq<char>) -> MessageView {
    MessageView {
        header: query_header(id),
        question: seq![QuestionView { qname: split_labels(d), qtype: 1, qclass: 1 }],
        answer: seq![],
        authority: seq![],
        extra: seq![],
    }
}

/// Why no query can be made for `d`, in words.
pub open spec fn domain_error(d: Seq<char>) -> Seq<char> {
    if d.len() == 0 {
        "Domain cannot be empty"@
    } else if encode_name(split_labels(d)) == Err::<Seq<u8>, CodecError>(
        CodecError::LabelNotEncodable,
    ) {
        "Domain has an empty label or one longer than 63 octets"@
    } else {
        "Domain name is longer than 255 octets"@
    }
}

impl Message {
    /// A query for `domain` with identifier `id`, type A and class IN, asking
    /// for recursion.
    pub fn with_id(domain: &String, id: u16) -> (r: Result<Message, String>)
        ensures
            r is Ok <==> domain_ok(domain@),
            r matches Ok(m) ==> m@ == query_view(id, domain@),
            r matches Err(s) ==> s@ == domain_error(domain@),
    {
        if domain.as_str().is_empty() {
            return Err("Domain cannot be empty".to_owned());
        }
        let qname = split_domain(domain.as_str());
        let mut scratch: Vec<u8> = Vec::new();
        match write_name(&qname, &mut scratch) {
            Err(CodecError::LabelNotEncodable) => {
                return Err("Domain has an empty label or one longer than 63 octets".to_owned());
            },
            Err(_) => {
                return Err("Domain name is longer than 255 octets".to_owned());
            },
            Ok(()) => {},
        }
        let question = vec![Question { qname, qtype: 1, qclass: 1 }];
        let m = Message {
            header: MessageHeader::query(id),
            question,
            answer: Vec::new(),
            authority: Vec::new(),
            extra: Vec::new(),
        };
        proof {
            assert(m@.question =~= query_view(id, domain@).question);
            assert(m@.answer =~= seq![]);
            assert(m@.authority =~= seq![]);
            assert(m@.extra =~= seq![]);
        }
        Ok(m)
    }

    /// A query for `domain` with a random identifier, type A and class IN,
    /// asking for recursion.
    pub fn new(domain: &String) -> (r: Result<Message, String>)
        ensures
            r is Ok <==> domain_ok(domain@),
            r matches Ok(m) ==> m@ == query_view(m.header.id, domain@),
            r matches Err(s) ==> s@ == domain_error(domain@),
    {
        Self::with_id(domain, MessageHeader::generate_id())
    }
}

proof fn lemma_parse_questions_cut(b: Seq<u8>, pos: nat, qs: Seq<QuestionView>)
    requires
        forall|i: int| 0 <= i < qs.len() ==> question_ok(#[trigger] qs[i]),
        b.len() <= usize::MAX,
        pos <= b.len() < pos + questions_bytes(qs).len(),
        b.subrange(pos as int, b.len() as int) == questions_bytes(qs).subrange(0, b.len() - pos),
    ensures
        parse_questions(b, pos, qs.len()) matches Err(e) && (e.is_truncation() || label_cut(b, e)),
    decreases qs.len(),
{
    let f = |q: QuestionView| question_bytes(q);
    let all = questions_bytes(qs);
    let k: int = b.len() - pos;
    if qs.len() == 0 {
        assert(qs.map_values(f) =~= seq![]);
    } else if pos < b.len() {
        let rest = qs.drop_first();
        let qb = question_bytes(qs[0]);
        assert(qs.map_values(f).drop_first() =~= rest.map_values(f));
        assert(all == qb + questions_bytes(rest));
        if b.len() < pos + qb.len() {
            assert(all.subrange(0, k) =~= qb.subrange(0, k));
            lemma_question_cut(b, pos, qs[0]);
        } else {
            let n = qb.len() as int;
            assert(b.subrange(pos as int, pos + n) =~= all.subrange(0, k).subrange(0, n));
            assert(all.subrange(0, k).subrange(0, n) =~= qb);
            assert(b.subrange(pos + n, b.len() as int) =~= all.subrange(0, k).subrange(n, k));
            assert(all.subrange(0, k).subrange(n, k) =~= questions_bytes(rest).subrange(0, k - n));
            assert forall|i: int| 0 <= i < rest.len() implies question_ok(#[trigger] rest[i]) by {
                assert(rest[i] == qs[i + 1]);
            }
            lemma_question_round_trip(b, pos, qs[0]);
            lemma_parse_questions_cut(b, (pos + n) as nat, rest);
        }
    }
}

proof fn lemma_parse_records_cut(b: Seq<u8>, pos: nat, rs: Seq<RecordView>)
    requires
        forall|i: int| 0 <= i < rs.len() ==> record_ok(#[trigger] rs[i]),
        b.len() <= usize::MAX,
        pos <= b.len() < pos + records_bytes(rs).len(),
        b.subrange(pos as int, b.len() as int) == records_bytes(rs).subrange(0, b.len() - pos),
    ensures
        parse_records(b, pos, rs.len()) matches Err(e) && (e.is_truncation() || label_cut(b, e)),
    decreases rs.len(),
{
    let f = |r: RecordView| record_bytes(r);
    let all = records_bytes(rs);
    let k: int = b.len() - pos;
    if rs.len() == 0 {
        assert(rs.map_values(f) =~= seq![]);
    } else if pos < b.len() {
        let rest = rs.drop_first();
        let rb = record_bytes(rs[0]);
        assert(rs.map_values(f).drop_first() =~= rest.map_values(f));
        assert(all == rb + records_bytes(rest));
        if b.len() < pos + rb.len() {
            assert(all.subrange(0, k) =~= rb.subrange(0, k));
            lemma_record_cut(b, pos, rs[0]);
        } else {
            let n = rb.len() as int;
            assert(b.subrange(pos as int, pos + n) =~= all.subrange(0, k).subrange(0, n));
            assert(all.subrange(0, k).subrange(0, n) =~= rb);
            assert(b.subrange(pos + n, b.len() as int) =~= all.subrange(0, k).subrange(n, k));
            assert(all.subrange(0, k).subrange(n, k) =~= records_bytes(rest).subrange(0, k - n));
            assert forall|i: int| 0 <= i < rest.len() implies record_ok(#[trigger] rest[i]) by {
                assert(rest[i] == rs[i + 1]);
            }
            lemma_record_round_trip(b, pos, rs[0]);
            lemma_parse_records_cut(b, (pos + n) as nat, rest);
        }
    }
}

/// The buffer `b` holds the first octets of `full`, from `pos` up to its end,
/// and `full` holds `part` at `pos`.
pub open spec fn cut_of(b: Seq<u8>, full: Seq<u8>, pos: int, part: Seq<u8>) -> bool {
    &&& 0 <= pos <= b.len() <= full.len()
    &&& pos + part.len() <= full.len()
    &&& b == full.subrange(0, b.len() as int)
    &&& full.subrange(pos, pos + part.len()) == part
}

proof fn lemma_cut_part(b: Seq<u8>, full: Seq<u8>, pos: int, part: Seq<u8>)
    requires
        cut_of(b, full, pos, part),
    ensures
        b.len() < pos + part.len() ==> b.subrange(pos, b.len() as int) == part.subrange(
            0,
            b.len() - pos,
        ),
        b.len() >= pos + part.len() ==> b.subrange(pos, pos + part.len()) == part,
{
    if b.len() < pos + part.len() {
        assert(b.subrange(pos, b.len() as int) =~= part.subrange(0, b.len() - pos));
    } else {
        assert(b.subrange(pos, pos + part.len()) =~= part);
    }
}

proof fn lemma_sections_cut(b: Seq<u8>, full: Seq<u8>, m: MessageView, p1: nat, p2: nat, p3: nat)
    requires
        message_ok(m),
        b.len() <= usize::MAX,
        12 <= b.len() < full.len(),
        full.len() == p3 + records_bytes(m.extra).len(),
        parse_header(b) == Ok::<MessageHeader, CodecError>(m.header),
        p1 == 12 + questions_bytes(m.question).len(),
        p2 == p1 + records_bytes(m.answer).len(),
        p3 == p2 + records_bytes(m.authority).len(),
        cut_of(b, full, 12, questions_bytes(m.question)) || b.len() < 12,
        b.len() >= p1 ==> cut_of(b, full, p1 as int, records_bytes(m.answer)),
        b.len() >= p2 ==> cut_of(b, full, p2 as int, records_bytes(m.authority)),
        b.len() >= p3 ==> cut_of(b, full, p3 as int, records_bytes(m.extra)),
    ensures
        parse_message(b) matches Err(e) && (e.is_truncation() || label_cut(b, e)),
{
    let q = questions_bytes(m.question);
    let an = records_bytes(m.answer);
    let ns = records_bytes(m.authority);
    let ar = records_bytes(m.extra);
    lemma_cut_part(b, full, 12, q);
    if b.len() < p1 {
        lemma_parse_questions_cut(b, 12, m.question);
    } else {
        lemma_parse_questions_ok(b, 12, m.question);
        lemma_cut_part(b, full, p1 as int, an);
        if b.len() < p2 {
            lemma_parse_records_cut(b, p1, m.answer);
        } else {
            lemma_parse_records_ok(b, p1, m.answer);
            lemma_cut_part(b, full, p2 as int, ns);
            if b.len() < p3 {
                lemma_parse_records_cut(b, p2, m.authority);
            } else {
                lemma_parse_records_ok(b, p2, m.authority);
                lemma_cut_part(b, full, p3 as int, ar);
                lemma_parse_records_cut(b, p3, m.extra);
            }
        }
    }
}

proof fn lemma_cut_buffer(full: Seq<u8>, m: MessageView, k: nat, p1: nat, p2: nat, p3: nat)
    requires
        message_ok(m),
        full.len() <= usize::MAX,
        k < full.len(),
        p1 == 12 + questions_bytes(m.question).len(),
        p2 == p1 + records_bytes(m.answer).len(),
        p3 == p2 + records_bytes(m.authority).len(),
        full.len() == p3 + records_bytes(m.extra).len(),
        full.subrange(0, 12) == encode_header(m.header),
        full.subrange(12, p1 as int) == questions_bytes(m.question),
        full.subrange(p1 as int, p2 as int) == records_bytes(m.answer),
        full.subrange(p2 as int, p3 as int) == records_bytes(m.authority),
        full.subrange(p3 as int, full.len() as int) == records_bytes(m.extra),
    ensures
        parse_message(full.subrange(0, k as int)) matches Err(e) && (e.is_truncation() || label_cut(
            full.subrange(0, k as int),
            e,
        )),
{
    let b = full.subrange(0, k as int);
    if k >= 12 {
        assert(parse_header(b) == Ok::<MessageHeader, CodecError>(m.header)) by {
            assert(b =~= encode_header(m.header) + b.subrange(12, k as int));
            lemma_header_round_trip(m.header, b.subrange(12, k as int));
        }
        assert(b =~= full.subrange(0, b.len() as int));
        lemma_sections_cut(b, full, m, p1, p2, p3);
    }
}

/// Truncation: the octets of a message that can be written, cut anywhere
/// before the last octet, fail to decode. The error says the buffer ended
/// (`TruncatedHeader`, `TruncatedQuestion`, `TruncatedRecordHeader`,
/// `TruncatedRData` or `IncompleteMessage`), unless the cut falls inside a
/// label: then it is `InvalidLabel` at that label's length octet.
pub proof fn lemma_truncation(m: MessageView, k: nat)
    requires
        message_ok(m),
        message_bytes(m).len() <= usize::MAX,
        k < message_bytes(m).len(),
    ensures
        parse_message(message_bytes(m).subrange(0, k as int)) matches Err(e) && (e.is_truncation()
            || label_cut(message_bytes(m).subrange(0, k as int), e)),
{
    let h = encode_header(wire_header(m));
    let q = questions_bytes(m.question);
    let an = records_bytes(m.answer);
    let ns = records_bytes(m.authority);
    let ar = records_bytes(m.extra);
    let full = message_bytes(m);
    let p1 = 12 + q.len();
    let p2 = p1 + an.len();
    let p3 = p2 + ns.len();
    assert({
        &&& full.len() == p3 + ar.len()
        &&& full.subrange(0, 12) == encode_header(m.header)
        &&& full.subrange(12, p1 as int) == q
        &&& full.subrange(p1 as int, p2 as int) == an
        &&& full.subrange(p2 as int, p3 as int) == ns
        &&& full.subrange(p3 as int, full.len() as int) == ar
    }) by {
        assert(wire_header(m) == m.header);
        assert(h.len() == 12);
        lemma_five_parts(h, q, an, ns, ar);
        assert(full.subrange(0, 12) =~= h);
    }
    lemma_cut_buffer(full, m, k, p1 as nat, p2 as nat, p3 as nat);
}

/// A new query for a domain that can be written is written as: the
/// identifier, the flag octets `0x01 0x00` (only recursion desired), counts
/// 1, 0, 0, 0, then the name, type A (1) and class IN (1).
pub proof fn lemma_query_bytes(id: u16, d: Seq<char>)
    requires
        domain_ok(d),
    ensures
        encode_message(query_view(id, d)) == Ok::<Seq<u8>, CodecError>(
            be16(id) + seq![0x01u8, 0x00u8] + be16(1) + be16(0) + be16(0) + be16(0) + name_bytes(
                split_labels(d),
            ) + seq![0x00u8, 0x01u8, 0x00u8, 0x01u8],
        ),
{
    let m = query_view(id, d);
    let q = m.question[0];
    assert(message_ok(m));
    lemma_encode_message_ok(m);
    let f = |x: QuestionView| question_bytes(x);
    assert(m.question.map_values(f) =~= seq![question_bytes(q)]);
    assert(seq![question_bytes(q)].flatten() == question_bytes(q)) by {
        seq![question_bytes(q)].lemma_flatten_one_element();
    }
    let g = |x: RecordView| record_bytes(x);
    assert(m.answer.map_values(g) =~= Seq::<Seq<u8>>::empty());
    assert(wire_header(m) == query_header(id));
    assert(message_bytes(m) =~= be16(id) + seq![0x01u8, 0x00u8] + be16(1) + be16(0) + be16(0)
        + be16(0) + name_bytes(split_labels(d)) + seq![0x00u8, 0x01u8, 0x00u8, 0x01u8]);
}

} // verus!
