use till::{CodecError, Message, MessageHeader, Question, RecordType, ResourceRecord, ResponseCode};

fn labels(parts: &[&str]) -> Vec<String> {
    parts.iter().map(|p| p.to_string()).collect()
}

fn header(qd: u16, an: u16, ns: u16, ar: u16) -> MessageHeader {
    MessageHeader {
        id: 0x1234,
        qr: 1,
        opcode: 0,
        aa: 1,
        tc: 0,
        rd: 1,
        ra: 1,
        z: 0,
        rcode: ResponseCode::NOERROR,
        qdcount: qd,
        ancount: an,
        nscount: ns,
        arcount: ar,
    }
}

fn record(name: &[&str], rtype: RecordType, rdata: Vec<u8>) -> ResourceRecord {
    ResourceRecord {
        name: labels(name),
        rtype,
        rclass: 1,
        ttl: 3600,
        rdlength: rdata.len() as u16,
        rdata,
    }
}

fn sample_message() -> Message {
    Message {
        header: header(1, 2, 1, 1),
        question: vec![Question { qname: labels(&["example", "com"]), qtype: 1, qclass: 1 }],
        answer: vec![
            record(&["example", "com"], RecordType::A, vec![93, 184, 216, 34]),
            record(&["example", "com"], RecordType::AAAA, vec![0x26, 0x06, 0x28, 0x00, 0, 0, 0, 0, 0, 0, 0, 0, 0, 0, 0, 1]),
        ],
        authority: vec![record(&["com"], RecordType::NS, vec![1, b'a', 0])],
        extra: vec![record(&["a"], RecordType::TXT, vec![3, b'x', b'y', b'z'])],
    }
}

fn assert_same_message(a: &Message, b: &Message) {
    assert_eq!(a.header, b.header);
    assert_eq!(a.question.len(), b.question.len());
    for (x, y) in a.question.iter().zip(b.question.iter()) {
        assert_eq!(x.qname, y.qname);
        assert_eq!(x.qtype, y.qtype);
        assert_eq!(x.qclass, y.qclass);
    }
    for (xs, ys) in [(&a.answer, &b.answer), (&a.authority, &b.authority), (&a.extra, &b.extra)] {
        assert_eq!(xs.len(), ys.len());
        for (x, y) in xs.iter().zip(ys.iter()) {
            assert_eq!(x.name, y.name);
            assert_eq!(x.rtype, y.rtype);
            assert_eq!(x.rclass, y.rclass);
            assert_eq!(x.ttl, y.ttl);
            assert_eq!(x.rdlength, y.rdlength);
            assert_eq!(x.rdata, y.rdata);
        }
    }
}

#[test]
fn message_round_trip() {
    let m = sample_message();
    let bytes = m.serialize().unwrap();
    let back = Message::deserialize(&bytes).unwrap();
    assert_same_message(&m, &back);
    assert_eq!(back.serialize().unwrap(), bytes);
}

#[test]
fn round_trip_keeps_utf8_labels() {
    let mut m = sample_message();
    m.question[0].qname = labels(&["bücher", "example"]);
    let bytes = m.serialize().unwrap();
    assert_eq!(bytes[12], 7);
    let back = Message::deserialize(&bytes).unwrap();
    assert_eq!(back.question[0].qname, labels(&["bücher", "example"]));
}

#[test]
fn header_flag_combinations_round_trip() {
    for bits in 0u8..32 {
        for z in 0u8..8 {
            let h = MessageHeader {
                id: 0xBEEF,
                qr: bits & 1,
                opcode: 5,
                aa: (bits >> 1) & 1,
                tc: (bits >> 2) & 1,
                rd: (bits >> 3) & 1,
                ra: (bits >> 4) & 1,
                z,
                rcode: ResponseCode::NOTZONE,
                qdcount: 1,
                ancount: 2,
                nscount: 3,
                arcount: 4,
            };
            let bytes = h.serialize();
            assert_eq!(bytes.len(), 12);
            assert_eq!(MessageHeader::deserialize(&bytes).unwrap(), h);
        }
    }
}

#[test]
fn header_bits_are_packed_as_described() {
    let h = MessageHeader {
        id: 0x0102,
        qr: 1,
        opcode: 2,
        aa: 1,
        tc: 0,
        rd: 1,
        ra: 1,
        z: 5,
        rcode: ResponseCode::NXDOMAIN,
        qdcount: 0x0304,
        ancount: 5,
        nscount: 6,
        arcount: 7,
    };
    assert_eq!(h.serialize(), vec![0x01, 0x02, 0x95, 0xD3, 0x03, 0x04, 0, 5, 0, 6, 0, 7]);
}

fn two_question_buffer(second: &[u8]) -> Vec<u8> {
    let mut b = vec![0xAB, 0xCD, 0x01, 0x00, 0x00, 0x02, 0, 0, 0, 0, 0, 0];
    b.extend_from_slice(&[7, b'e', b'x', b'a', b'm', b'p', b'l', b'e', 3, b'c', b'o', b'm', 0, 0, 1, 0, 1]);
    b.extend_from_slice(second);
    b
}

#[test]
fn compressed_name_matches_literal() {
    let compressed = two_question_buffer(&[0xC0, 0x0C, 0, 28, 0, 1]);
    let m = Message::deserialize(&compressed).unwrap();
    assert_eq!(m.question.len(), 2);
    assert_eq!(m.question[0].qname, labels(&["example", "com"]));
    assert_eq!(m.question[1].qname, m.question[0].qname);
    assert_eq!(m.question[1].qtype, 28);
    let literal = two_question_buffer(&[7, b'e', b'x', b'a', b'm', b'p', b'l', b'e', 3, b'c', b'o', b'm', 0, 0, 28, 0, 1]);
    let n = Message::deserialize(&literal).unwrap();
    assert_eq!(n.question[1].qname, m.question[1].qname);
}

#[test]
fn pointer_after_labels_ends_the_name() {
    let b = two_question_buffer(&[3, b'w', b'w', b'w', 0xC0, 0x0C, 0, 1, 0, 1]);
    let (q, end) = Question::deserialize(&b, 29).unwrap();
    assert_eq!(q.qname, labels(&["www", "example", "com"]));
    assert_eq!(end, 29 + 6 + 4);
    assert_eq!(Message::parse_qname(&b, 29).unwrap(), (labels(&["www", "example", "com"]), 35));
}

#[test]
fn self_pointer_is_compression_loop() {
    let mut b = vec![0, 1, 0, 0, 0, 1, 0, 0, 0, 0, 0, 0];
    b.extend_from_slice(&[0xC0, 12, 0, 1, 0, 1]);
    assert_eq!(Message::deserialize(&b).unwrap_err(), CodecError::CompressionLoop { offset: 12 });
}

#[test]
fn two_pointer_cycle_is_compression_loop() {
    let mut b = vec![0, 1, 0, 0, 0, 1, 0, 0, 0, 0, 0, 0];
    // offset 12 points to 14, offset 14 points back to 12
    b.extend_from_slice(&[0xC0, 14, 0xC0, 12, 0, 1, 0, 1]);
    assert!(matches!(Message::deserialize(&b), Err(CodecError::CompressionLoop { .. })));
    let (e, _) = (Question::deserialize(&b, 14).unwrap_err(), 0);
    assert!(matches!(e, CodecError::CompressionLoop { .. }));
}

#[test]
fn truncation_at_every_cut() {
    let bytes = sample_message().serialize().unwrap();
    for k in 0..bytes.len() {
        let cut = &bytes[..k];
        match Message::deserialize(cut) {
            Ok(_) => panic!("a cut at {} decoded", k),
            Err(CodecError::TruncatedHeader { .. })
            | Err(CodecError::TruncatedQuestion { .. })
            | Err(CodecError::TruncatedRecordHeader { .. })
            | Err(CodecError::TruncatedRData { .. })
            | Err(CodecError::IncompleteMessage { .. }) => {}
            Err(CodecError::InvalidLabel { offset }) => {
                assert!(offset < k && k <= offset + cut[offset] as usize);
            }
            Err(e) => panic!("a cut at {} gave {:?}", k, e),
        }
    }
}

#[test]
fn unknown_type_passthrough() {
    let rdata = vec![0xDE, 0xAD, 0x00, 0xBE, 0xEF, 0xFF];
    let mut m = sample_message();
    m.header.ancount = 1;
    m.answer = vec![record(&["private", "test"], RecordType::Unknown(65280), rdata.clone())];
    let bytes = m.serialize().unwrap();
    let back = Message::deserialize(&bytes).unwrap();
    assert_eq!(back.answer[0].rtype, RecordType::Unknown(65280));
    assert_eq!(back.answer[0].rdata, rdata);
    assert_eq!(back.serialize().unwrap(), bytes);
}

#[test]
fn query_example_com_bytes() {
    let m = Message::with_id(&"example.com".to_string(), 0x4A7F).unwrap();
    let bytes = m.serialize().unwrap();
    assert_eq!(&bytes[0..2], &[0x4A, 0x7F]);
    assert_eq!(bytes[2], 0x01);
    assert_eq!(bytes[3], 0x00);
    assert_eq!(&bytes[4..12], &[0, 1, 0, 0, 0, 0, 0, 0]);
    assert_eq!(
        &bytes[12..],
        &[0x07, 0x65, 0x78, 0x61, 0x6D, 0x70, 0x6C, 0x65, 0x03, 0x63, 0x6F, 0x6D, 0x00, 0x00, 0x01, 0x00, 0x01]
    );
}

#[test]
fn new_query_has_one_question() {
    let m = Message::new(&"example.com".to_string()).unwrap();
    assert_eq!(m.header.rd, 1);
    assert_eq!(m.header.qdcount, 1);
    assert_eq!(m.question[0].qname, labels(&["example", "com"]));
    assert_eq!((m.question[0].qtype, m.question[0].qclass), (1, 1));
    assert!(m.answer.is_empty() && m.authority.is_empty() && m.extra.is_empty());
    let h = MessageHeader::new();
    assert_eq!(h, MessageHeader::query(h.id));
}

#[test]
fn new_query_rejects_bad_domains() {
    assert_eq!(Message::new(&String::new()).unwrap_err(), "Domain cannot be empty");
    assert_eq!(
        Message::with_id(&"a..b".to_string(), 1).unwrap_err(),
        "Domain has an empty label or one longer than 63 octets"
    );
    assert_eq!(
        Message::with_id(&"example.com.".to_string(), 1).unwrap_err(),
        "Domain has an empty label or one longer than 63 octets"
    );
    let long = vec!["abcdefghij"; 30].join(".");
    assert_eq!(
        Message::with_id(&long, 1).unwrap_err(),
        "Domain name is longer than 255 octets"
    );
}

#[test]
fn decode_errors() {
    assert_eq!(Message::deserialize(&[0; 5]).unwrap_err(), CodecError::TruncatedHeader { length: 5 });
    let mut b = vec![0, 1, 0, 8, 0, 0, 0, 0, 0, 0, 0, 0];
    assert_eq!(Message::deserialize(&b).unwrap_err(), CodecError::UnknownResponseCode { rcode: 8 });
    b[3] = 0;
    b[5] = 1;
    assert_eq!(Message::deserialize(&b).unwrap_err(), CodecError::IncompleteMessage { offset: 12 });
    let mut q = b.clone();
    q.extend_from_slice(&[1, b'a', 0, 0, 1]);
    assert_eq!(Message::deserialize(&q).unwrap_err(), CodecError::TruncatedQuestion { offset: 15 });
    let mut l = b.clone();
    l.extend_from_slice(&[2, 0xFF, 0xFE, 0, 0, 1, 0, 1]);
    assert_eq!(Message::deserialize(&l).unwrap_err(), CodecError::InvalidLabel { offset: 12 });
    let mut r = b.clone();
    r.extend_from_slice(&[0x40, 0, 0, 1, 0, 1]);
    assert_eq!(Message::deserialize(&r).unwrap_err(), CodecError::InvalidLabelLength { offset: 12 });
    let mut p = b.clone();
    p.extend_from_slice(&[0xC1, 0x00, 0, 1, 0, 1]);
    assert_eq!(Message::deserialize(&p).unwrap_err(), CodecError::InvalidPointer { offset: 12 });
    let mut long = b.clone();
    for _ in 0..5 {
        long.push(63);
        long.extend_from_slice(&[b'a'; 63]);
    }
    long.extend_from_slice(&[0, 0, 1, 0, 1]);
    assert_eq!(Message::deserialize(&long).unwrap_err(), CodecError::NameTooLong { offset: 12 + 3 * 64 });
}

#[test]
fn record_decode_errors() {
    let mut b = vec![0, 1, 0x80, 0, 0, 0, 0, 1, 0, 0, 0, 0];
    b.extend_from_slice(&[0, 0, 1, 0, 1]);
    assert_eq!(Message::deserialize(&b).unwrap_err(), CodecError::TruncatedRecordHeader { offset: 13 });
    b.extend_from_slice(&[0, 0, 0, 10, 0, 4, 1, 2]);
    assert_eq!(
        Message::deserialize(&b).unwrap_err(),
        CodecError::TruncatedRData { offset: 23, rdlength: 4 }
    );
    b.extend_from_slice(&[3, 4]);
    let m = Message::deserialize(&b).unwrap();
    assert_eq!(m.answer[0].rtype, RecordType::A);
    assert_eq!(m.answer[0].ttl, 10);
    assert_eq!(m.answer[0].rdata, vec![1, 2, 3, 4]);
    let (rr, end) = ResourceRecord::deserialize(&b, 12).unwrap();
    assert_eq!((rr.rdlength, end), (4, b.len()));
}

#[test]
fn encode_errors() {
    let mut m = sample_message();
    m.question[0].qname = labels(&["a".repeat(64).as_str()]);
    assert_eq!(m.serialize().unwrap_err(), CodecError::LabelNotEncodable);
    m.question[0].qname = labels(&["", "com"]);
    assert_eq!(m.serialize().unwrap_err(), CodecError::LabelNotEncodable);
    m.question[0].qname = vec!["a".repeat(63); 4];
    assert_eq!(m.serialize().unwrap_err(), CodecError::NameNotEncodable);
    let mut r = sample_message();
    r.answer[0].rdata = vec![0; 70000];
    assert_eq!(r.serialize().unwrap_err(), CodecError::RDataNotEncodable);
    let mut s = sample_message();
    s.question = vec![Question { qname: labels(&["a"]), qtype: 1, qclass: 1 }; 65536];
    assert_eq!(s.serialize().unwrap_err(), CodecError::SectionNotEncodable);
}

#[test]
fn encode_writes_actual_lengths_and_counts() {
    let mut m = sample_message();
    m.header.qdcount = 9;
    m.answer[0].rdlength = 99;
    let bytes = m.serialize().unwrap();
    assert_eq!(&bytes[4..6], &[0, 1]);
    let back = Message::deserialize(&bytes).unwrap();
    assert_eq!(back.header.qdcount, 1);
    assert_eq!(back.answer[0].rdlength, 4);
}

#[test]
fn question_and_record_serialize() {
    let q = Question { qname: labels(&["a", "b"]), qtype: 15, qclass: 1 };
    assert_eq!(q.serialize().unwrap(), vec![1, b'a', 1, b'b', 0, 0, 15, 0, 1]);
    let r = record(&["a"], RecordType::MX, vec![0, 10]);
    assert_eq!(
        r.serialize().unwrap(),
        vec![1, b'a', 0, 0, 15, 0, 1, 0, 0, 0x0E, 0x10, 0, 2, 0, 10]
    );
}

#[test]
fn record_type_values() {
    let known = [
        (RecordType::A, 1),
        (RecordType::AAAA, 28),
        (RecordType::CNAME, 5),
        (RecordType::MX, 15),
        (RecordType::NS, 2),
        (RecordType::PTR, 12),
        (RecordType::SOA, 6),
        (RecordType::SRV, 33),
        (RecordType::TXT, 16),
    ];
    for (t, v) in known {
        assert_eq!(t.to_u16(), v);
        assert_eq!(RecordType::from_u16(v), t);
    }
    assert_eq!(RecordType::from_u16(65280), RecordType::Unknown(65280));
    assert_eq!(RecordType::Unknown(99).to_u16(), 99);
}

#[test]
fn response_code_values() {
    for v in 0u8..16 {
        match ResponseCode::from_u8(v) {
            Some(c) => assert_eq!(c.to_u8(), v),
            None => assert!(v == 8 || v >= 11),
        }
    }
    assert_eq!(ResponseCode::from_u8(9), Some(ResponseCode::NOTAUTH));
}

#[test]
fn reading_back_into_visited_octets_is_compression_loop() {
    let mut b = vec![0u8; 36];
    for c in [b'a', b'b', b'c'] {
        b.push(63);
        b.extend_from_slice(&[c; 63]);
    }
    // the name at 100 reads two labels, then jumps to 36, whose label ends at 100
    b.extend_from_slice(&[0xC0, 36, 0, 1, 0, 1]);
    assert_eq!(b.len(), 234);
    assert_eq!(
        Question::deserialize(&b, 100).unwrap_err(),
        CodecError::CompressionLoop { offset: 100 }
    );
    let mut ok = b.clone();
    ok[228] = 0xC0;
    ok[229] = 0;
    ok[0] = 0;
    assert_eq!(Message::parse_qname(&ok, 100).unwrap(), (labels(&[&"b".repeat(63), &"c".repeat(63)]), 230));
}

#[test]
fn known_type_codes_decode_to_named_types() {
    for v in 0u16..=1024 {
        let t = RecordType::from_u16(v);
        assert_eq!(t.to_u16(), v);
        assert_eq!(RecordType::from_u16(t.to_u16()), t);
    }
    let data = [0x01, 0x61, 0x00, 0x00, 0x01, 0x00, 0x01, 0x00, 0x00, 0x0E, 0x10, 0x00, 0x04, 0xC0, 0x00, 0x02, 0x01];
    let (rr, end) = ResourceRecord::deserialize(&data, 0).unwrap();
    assert_eq!(rr.rtype, RecordType::A);
    assert_eq!((rr.rclass, rr.ttl, rr.rdlength, end), (1, 3600, 4, 17));
    assert_eq!(rr.rdata, vec![192, 0, 2, 1]);
}
