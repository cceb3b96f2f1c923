use till::text::{to_debug_list, to_decimal, to_dotted, to_hex_list};
use till::{Message, MessageHeader, Output, Question, RecordType, ResourceRecord, ResponseCode};

fn pairs(rows: &[(String, String)]) -> Vec<(&str, &str)> {
    rows.iter().map(|(a, b)| (a.as_str(), b.as_str())).collect()
}

fn response() -> Message {
    let rec = |name: &[&str], rtype: RecordType, rdata: Vec<u8>| ResourceRecord {
        name: name.iter().map(|s| s.to_string()).collect(),
        rtype,
        rclass: 1,
        ttl: 300,
        rdlength: rdata.len() as u16,
        rdata,
    };
    Message {
        header: MessageHeader {
            id: 4660,
            qr: 1,
            opcode: 0,
            aa: 0,
            tc: 0,
            rd: 1,
            ra: 1,
            z: 0,
            rcode: ResponseCode::NXDOMAIN,
            qdcount: 1,
            ancount: 2,
            nscount: 1,
            arcount: 0,
        },
        question: vec![Question { qname: vec!["example".to_string(), "com".to_string()], qtype: 1, qclass: 1 }],
        answer: vec![
            rec(&["example", "com"], RecordType::A, vec![93, 184, 216, 34]),
            rec(&["example", "com"], RecordType::Unknown(65280), vec![1, 2, 255]),
        ],
        authority: vec![rec(&["com"], RecordType::NS, vec![0x0A, 0xFF, 0x00])],
        extra: vec![],
    }
}

#[test]
fn header_rows_show_every_field() {
    let out = Output::new(response());
    let rows = out.header_rows();
    assert_eq!(
        pairs(&rows),
        vec![
            ("ID", "4660"),
            ("QR", "1"),
            ("Opcode", "0"),
            ("AA", "0"),
            ("TC", "0"),
            ("RD", "1"),
            ("RA", "1"),
            ("Z", "0"),
            ("RCode", "NXDOMAIN"),
            ("QDCount", "1"),
            ("ANCount", "2"),
            ("NSCount", "1"),
            ("ARCount", "0"),
        ]
    );
}

#[test]
fn question_rows_join_labels() {
    let out = Output::new(response());
    assert_eq!(
        pairs(&out.question_rows()),
        vec![("QName", "example.com"), ("QType", "1"), ("QClass", "1")]
    );
}

#[test]
fn answer_rows_show_ipv4_and_octets() {
    let out = Output::new(response());
    let rows = out.answer_rows();
    assert_eq!(rows.len(), 12);
    assert_eq!(
        pairs(&rows[0..6]),
        vec![
            ("Name", "example.com"),
            ("Type", "A"),
            ("Class", "1"),
            ("TTL", "300"),
            ("RDLength", "4"),
            ("RData", "93.184.216.34"),
        ]
    );
    assert_eq!(pairs(&rows[6..8]), vec![("Name", "example.com"), ("Type", "TYPE65280")]);
    assert_eq!(pairs(&rows[11..12]), vec![("RData", "[1, 2, 255]")]);
}

#[test]
fn answer_with_short_address_is_flagged() {
    let mut m = response();
    m.answer[0].rdata = vec![1, 2, 3];
    m.answer[0].rdlength = 3;
    let rows = Output::new(m).answer_rows();
    assert_eq!(rows[5].1, "Invalid IPv4 address format");
}

#[test]
fn authority_rows_show_hex() {
    let m = response();
    let rows = Output::record_rows(&m.authority);
    assert_eq!(pairs(&rows[0..2]), vec![("Name", "com"), ("Type", "NS")]);
    assert_eq!(rows[5].1, "0A FF 00");
    assert!(Output::record_rows(&m.extra).is_empty());
}

#[test]
fn render_draws_each_section() {
    let text = Output::new(response()).render();
    assert!(text.starts_with("Header\n"));
    let titles = ["Header\n", "Questions\n", "Answers\n", "Authority\n", "Additional\n"];
    let mut at = 0;
    for t in titles {
        let i = text[at..].find(t).expect("section title");
        at += i + t.len();
    }
    assert!(text.contains("NXDOMAIN"));
    assert!(text.contains("93.184.216.34"));
    assert!(text.contains("| ID "));
    assert!(!text.contains("(\"ID\""));
}

#[test]
fn formatting_helpers() {
    assert_eq!(to_decimal(0), "0");
    assert_eq!(to_decimal(4294967295), "4294967295");
    assert_eq!(to_hex_list(&[]), "");
    assert_eq!(to_hex_list(&[0, 0xAB, 7]), "00 AB 07");
    assert_eq!(to_debug_list(&[]), "[]");
    assert_eq!(to_debug_list(&[10, 0]), "[10, 0]");
    assert_eq!(to_dotted(&vec!["a".to_string(), "b".to_string(), "c".to_string()]), "a.b.c");
    assert_eq!(to_dotted(&vec![]), "");
    assert_eq!(RecordType::AAAA.to_string(), "AAAA");
    assert_eq!(RecordType::Unknown(99).to_string(), "TYPE99");
    assert_eq!(ResponseCode::REFUSED.to_string(), "REFUSED");
}
