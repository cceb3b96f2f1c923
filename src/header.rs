//! The fixed twelve-octet header.
use vstd::prelude::*;
use crate::error::CodecError;
use crate::text::literal;
use crate::wire::{be16, get_u16, push_u16, read16, lemma_read16_be16};

verus! {

/// Response code of a message: the closed set this codec accepts.
#[derive(Debug, Clone, Copy, PartialEq, Eq, Structural)]
pub enum ResponseCode {
    /// The query completed successfully.
    NOERROR,
    /// The query was malformed.
    FORMERR,
    /// The server failed to complete the request.
    SERVFAIL,
    /// The domain name does not exist.
    NXDOMAIN,
    /// The function is not implemented.
    NOTIMP,
    /// The server refused to answer.
    REFUSED,
    /// A name that should not exist does exist.
    YXDOMAIN,
    /// An RRset that should not exist does exist.
    XRRSET,
    /// The server is not authoritative for the zone.
    NOTAUTH,
    /// The name is not in the zone.
    NOTZONE,
}

/// The response code whose value is `v`, if it is one of the supported set.
pub open spec fn rcode_of(v: u8) -> Option<ResponseCode> {
    match v {
        0 => Some(ResponseCode::NOERROR),
        1 => Some(ResponseCode::FORMERR),
        2 => Some(ResponseCode::SERVFAIL),
        3 => Some(ResponseCode::NXDOMAIN),
        4 => Some(ResponseCode::NOTIMP),
        5 => Some(ResponseCode::REFUSED),
        6 => Some(ResponseCode::YXDOMAIN),
        7 => Some(ResponseCode::XRRSET),
        9 => Some(ResponseCode::NOTAUTH),
        10 => Some(ResponseCode::NOTZONE),
        _ => None,
    }
}

/// The name of a response code.
pub open spec fn rcode_name(c: ResponseCode) -> Seq<char> {
    match c {
        ResponseCode::NOERROR => "NOERROR"@,
        ResponseCode::FORMERR => "FORMERR"@,
        ResponseCode::SERVFAIL => "SERVFAIL"@,
        ResponseCode::NXDOMAIN => "NXDOMAIN"@,
        ResponseCode::NOTIMP => "NOTIMP"@,
        ResponseCode::REFUSED => "REFUSED"@,
        ResponseCode::YXDOMAIN => "YXDOMAIN"@,
        ResponseCode::XRRSET => "XRRSET"@,
        ResponseCode::NOTAUTH => "NOTAUTH"@,
        ResponseCode::NOTZONE => "NOTZONE"@,
    }
}

impl ResponseCode {
    /// The four-bit value of the code on the wire.
    pub open spec fn code(self) -> u8 {
        match self {
            ResponseCode::NOERROR => 0,
            ResponseCode::FORMERR => 1,
            ResponseCode::SERVFAIL => 2,
            ResponseCode::NXDOMAIN => 3,
            ResponseCode::NOTIMP => 4,
            ResponseCode::REFUSED => 5,
            ResponseCode::YXDOMAIN => 6,
            ResponseCode::XRRSET => 7,
            ResponseCode::NOTAUTH => 9,
            ResponseCode::NOTZONE => 10,
        }
    }

    pub fn to_u8(&self) -> (r: u8)
        ensures
            r == self.code(),
            r < 16,
    {
        match self {
            ResponseCode::NOERROR => 0,
            ResponseCode::FORMERR => 1,
            ResponseCode::SERVFAIL => 2,
            ResponseCode::NXDOMAIN => 3,
            ResponseCode::NOTIMP => 4,
            ResponseCode::REFUSED => 5,
            ResponseCode::YXDOMAIN => 6,
            ResponseCode::XRRSET => 7,
            ResponseCode::NOTAUTH => 9,
            ResponseCode::NOTZONE => 10,
        }
    }

    /// The code whose value is `value`; `None` when no supported code has it.
    pub fn from_u8(value: u8) -> (r: Option<ResponseCode>)
        ensures
            r == rcode_of(value),
            r matches Some(c) ==> c.code() == value,
            r is None <==> forall|c: ResponseCode| c.code() != value,
    {
        match value {
            0 => Some(ResponseCode::NOERROR),
            1 => Some(ResponseCode::FORMERR),
            2 => Some(ResponseCode::SERVFAIL),
            3 => Some(ResponseCode::NXDOMAIN),
            4 => Some(ResponseCode::NOTIMP),
            5 => Some(ResponseCode::REFUSED),
            6 => Some(ResponseCode::YXDOMAIN),
            7 => Some(ResponseCode::XRRSET),
            9 => Some(ResponseCode::NOTAUTH),
            10 => Some(ResponseCode::NOTZONE),
            _ => None,
        }
    }
    /// The name of the code.
    pub fn to_string(&self) -> (r: String)
        ensures
            r@ == rcode_name(*self),
    {
        match self {
            ResponseCode::NOERROR => literal("NOERROR"),
            ResponseCode::FORMERR => literal("FORMERR"),
            ResponseCode::SERVFAIL => literal("SERVFAIL"),
            ResponseCode::NXDOMAIN => literal("NXDOMAIN"),
            ResponseCode::NOTIMP => literal("NOTIMP"),
            ResponseCode::REFUSED => literal("REFUSED"),
            ResponseCode::YXDOMAIN => literal("YXDOMAIN"),
            ResponseCode::XRRSET => literal("XRRSET"),
            ResponseCode::NOTAUTH => literal("NOTAUTH"),
            ResponseCode::NOTZONE => literal("NOTZONE"),
        }
    }
}

/// The header section of a message.
#[derive(Debug, Clone, Copy, PartialEq, Eq, Structural)]
pub struct MessageHeader {
    /// Chosen by the querier and copied into the response.
    pub id: u16,
    /// Query (0) or response (1).
    pub qr: u8,
    /// Kind of query, four bits; 0 is a standard query.
    pub opcode: u8,
    /// Authoritative answer.
    pub aa: u8,
    /// Truncation.
    pub tc: u8,
    /// Recursion desired.
    pub rd: u8,
    /// Recursion available.
    pub ra: u8,
    /// Three reserved bits.
    pub z: u8,
    /// Response code.
    pub rcode: ResponseCode,
    /// Number of entries in the question section.
    pub qdcount: u16,
    /// Number of records in the answer section.
    pub ancount: u16,
    /// Number of records in the authority section.
    pub nscount: u16,
    /// Number of records in the additional section.
    pub arcount: u16,
}

impl MessageHeader {
    /// Every bit-packed field fits its width on the wire.
    pub open spec fn wf(self) -> bool {
        &&& self.qr < 2
        &&& self.opcode < 16
        &&& self.aa < 2
        &&& self.tc < 2
        &&& self.rd < 2
        &&& self.ra < 2
        &&& self.z < 8
    }
}

/// The first flags octet: `qr`, `opcode`, `aa`, `tc`, `rd`, each cut to its width.
pub open spec fn flags_hi(h: MessageHeader) -> u8 {
    ((h.qr % 2) * 128 + (h.opcode % 16) * 8 + (h.aa % 2) * 4 + (h.tc % 2) * 2 + h.rd % 2) as u8
}

/// The second flags octet: `ra`, `z`, `rcode`, each cut to its width.
pub open spec fn flags_lo(h: MessageHeader) -> u8 {
    ((h.ra % 2) * 128 + (h.z % 8) * 16 + h.rcode.code()) as u8
}

/// The twelve octets of a header.
pub open spec fn encode_header(h: MessageHeader) -> Seq<u8> {
    be16(h.id) + seq![flags_hi(h), flags_lo(h)] + be16(h.qdcount) + be16(h.ancount) + be16(
        h.nscount,
    ) + be16(h.arcount)
}

/// The header at the start of `b`.
pub open spec fn parse_header(b: Seq<u8>) -> Result<MessageHeader, CodecError> {
    if b.len() < 12 {
        Err(CodecError::TruncatedHeader { length: b.len() as usize })
    } else {
        match rcode_of(b[3] % 16) {
            None => Err(CodecError::UnknownResponseCode { rcode: b[3] % 16 }),
            Some(rcode) => Ok(
                MessageHeader {
                    id: read16(b, 0),
                    qr: b[2] / 128,
                    opcode: (b[2] / 8) % 16,
                    aa: (b[2] / 4) % 2,
                    tc: (b[2] / 2) % 2,
                    rd: b[2] % 2,
                    ra: b[3] / 128,
                    z: (b[3] / 16) % 8,
                    rcode,
                    qdcount: read16(b, 4),
                    ancount: read16(b, 6),
                    nscount: read16(b, 8),
                    arcount: read16(b, 10),
                },
            ),
        }
    }
}

proof fn lemma_flags_hi(qr: u8, opcode: u8, aa: u8, tc: u8, rd: u8)
    requires
        qr < 2,
        opcode < 16,
        aa < 2,
        tc < 2,
        rd < 2,
    ensures
        ({
            let f = (qr * 128 + opcode * 8 + aa * 4 + tc * 2 + rd) as u8;
            &&& f / 128 == qr
            &&& (f / 8) % 16 == opcode
            &&& (f / 4) % 2 == aa
            &&& (f / 2) % 2 == tc
            &&& f % 2 == rd
        }),
{
}

proof fn lemma_flags_lo(ra: u8, z: u8, rcode: u8)
    requires
        ra < 2,
        z < 8,
        rcode < 16,
    ensures
        ({
            let f = (ra * 128 + z * 16 + rcode) as u8;
            &&& f / 128 == ra
            &&& (f / 16) % 8 == z
            &&& f % 16 == rcode
        }),
{
}

/// Decoding the octets of a well-formed header gives it back, whatever follows it.
pub proof fn lemma_header_round_trip(h: MessageHeader, rest: Seq<u8>)
    requires
        h.wf(),
    ensures
        parse_header(encode_header(h) + rest) == Ok::<MessageHeader, CodecError>(h),
{
    let b = encode_header(h) + rest;
    assert(b.subrange(0, 2) == be16(h.id));
    assert(b.subrange(4, 6) == be16(h.qdcount));
    assert(b.subrange(6, 8) == be16(h.ancount));
    assert(b.subrange(8, 10) == be16(h.nscount));
    assert(b.subrange(10, 12) == be16(h.arcount));
    lemma_read16_be16(b, 0, h.id);
    lemma_read16_be16(b, 4, h.qdcount);
    lemma_read16_be16(b, 6, h.ancount);
    lemma_read16_be16(b, 8, h.nscount);
    lemma_read16_be16(b, 10, h.arcount);
    lemma_flags_hi(h.qr, h.opcode, h.aa, h.tc, h.rd);
    lemma_flags_lo(h.ra, h.z, h.rcode.code());
    assert(b[2] == flags_hi(h));
    assert(b[3] == flags_lo(h));
}

impl MessageHeader {
    /// The twelve octets of the header, counts as they stand in the fields;
    /// each bit-packed field is cut to its width.
    pub fn serialize(&self) -> (r: Vec<u8>)
        ensures
            r@ == encode_header(*self),
    {
        let mut bytes: Vec<u8> = Vec::new();
        push_u16(&mut bytes, self.id);
        let hi: u8 = (self.qr % 2) * 128 + (self.opcode % 16) * 8 + (self.aa % 2) * 4 + (self.tc
            % 2) * 2 + self.rd % 2;
        let lo: u8 = (self.ra % 2) * 128 + (self.z % 8) * 16 + self.rcode.to_u8();
        bytes.push(hi);
        bytes.push(lo);
        push_u16(&mut bytes, self.qdcount);
        push_u16(&mut bytes, self.ancount);
        push_u16(&mut bytes, self.nscount);
        push_u16(&mut bytes, self.arcount);
        assert(bytes@ =~= encode_header(*self));
        bytes
    }

    /// The header at the start of `data`.
    pub fn deserialize(data: &[u8]) -> (r: Result<MessageHeader, CodecError>)
        ensures
            r == parse_header(data@),
    {
        if data.len() < 12 {
            return Err(CodecError::TruncatedHeader { length: data.len() });
        }
        let rcode = match ResponseCode::from_u8(data[3] % 16) {
            Some(c) => c,
            None => {
                return Err(CodecError::UnknownResponseCode { rcode: data[3] % 16 });
            },
        };
        Ok(
            MessageHeader {
                id: get_u16(data, 0),
                qr: data[2] / 128,
                opcode: (data[2] / 8) % 16,
                aa: (data[2] / 4) % 2,
                tc: (data[2] / 2) % 2,
                rd: data[2] % 2,
                ra: data[3] / 128,
                z: (data[3] / 16) % 8,
                rcode,
                qdcount: get_u16(data, 4),
                ancount: get_u16(data, 6),
                nscount: get_u16(data, 8),
                arcount: get_u16(data, 10),
            },
        )
    }
}

/// The header of a new query with identifier `id`: a standard query asking
/// for recursion, with one question.
pub open spec fn query_header(id: u16) -> MessageHeader {
    MessageHeader {
        id,
        qr: 0,
        opcode: 0,
        aa: 0,
        tc: 0,
        rd: 1,
        ra: 0,
        z: 0,
        rcode: ResponseCode::NOERROR,
        qdcount: 1,
        ancount: 0,
        nscount: 0,
        arcount: 0,
    }
}

impl MessageHeader {
    /// Relies on `rand::thread_rng` and `Rng::gen`: any 16-bit value may come.
    #[verifier::external_body]
    pub(crate) fn generate_id() -> u16 {
        rand::Rng::gen::<u16>(&mut rand::thread_rng())
    }

    /// The header of a new query with identifier `id`.
    pub fn query(id: u16) -> (r: MessageHeader)
        ensures
            r == query_header(id),
    {
        MessageHeader {
            id,
            qr: 0,
            opcode: 0,
            aa: 0,
            tc: 0,
            rd: 1,
            ra: 0,
            z: 0,
            rcode: ResponseCode::NOERROR,
            qdcount: 1,
            ancount: 0,
            nscount: 0,
            arcount: 0,
        }
    }

    /// The header of a new query with a random identifier.
    pub fn new() -> (r: MessageHeader)
        ensures
            r == query_header(r.id),
    {
        Self::query(Self::generate_id())
    }
}

} // verus!
