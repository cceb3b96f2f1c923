//! Tables that show a message: one per section, each a list of name and value
//! rows, drawn by tabled.
use vstd::prelude::*;
use vstd::string::*;
use crate::header::{rcode_name, MessageHeader};
use crate::message::{Message, MessageView};
use crate::record::{rtype_name, QuestionView, RecordView, ResourceRecord};
use crate::text::{
    debug_list, decimal, dotted, hex_list, ipv4, ipv4_text, literal, to_debug_list, to_decimal,
    to_dotted, to_hex_list,
};

verus! {

/// A table row: a name and a value.
pub type Row = (String, String);

pub open spec fn rows_view(rows: Seq<Row>) -> Seq<(Seq<char>, Seq<char>)> {
    rows.map_values(|r: Row| (r.0@, r.1@))
}

/// The text of the table tabled draws for `rows` in its rounded ASCII style.
pub uninterp spec fn ascii_table(rows: Seq<(Seq<char>, Seq<char>)>) -> Seq<char>;

/// Relies on tabled: `Builder` collects the rows and `Style::ascii_rounded`
/// draws them; the text depends on the rows alone.
#[verifier::external_body]
fn render_table(rows: &Vec<Row>) -> (r: String)
    ensures
        r@ == ascii_table(rows_view(rows@)),
{
    let builder: tabled::builder::Builder = rows.iter().map(|r| [r.0.clone(), r.1.clone()]).collect();
    builder.build().with(tabled::settings::Style::ascii_rounded()).to_string()
}

/// The rows that show a header.
pub open spec fn header_rows(h: MessageHeader) -> Seq<(Seq<char>, Seq<char>)> {
    seq![
        ("ID"@, decimal(h.id as nat)),
        ("QR"@, decimal(h.qr as nat)),
        ("Opcode"@, decimal(h.opcode as nat)),
        ("AA"@, decimal(h.aa as nat)),
        ("TC"@, decimal(h.tc as nat)),
        ("RD"@, decimal(h.rd as nat)),
        ("RA"@, decimal(h.ra as nat)),
        ("Z"@, decimal(h.z as nat)),
        ("RCode"@, rcode_name(h.rcode)),
        ("QDCount"@, decimal(h.qdcount as nat)),
        ("ANCount"@, decimal(h.ancount as nat)),
        ("NSCount"@, decimal(h.nscount as nat)),
        ("ARCount"@, decimal(h.arcount as nat)),
    ]
}

/// The rows that show questions, three for each.
pub open spec fn question_rows(qs: Seq<QuestionView>) -> Seq<(Seq<char>, Seq<char>)>
    decreases qs.len(),
{
    if qs.len() == 0 {
        seq![]
    } else {
        let q = qs.last();
        question_rows(qs.drop_last()) + seq![
            ("QName"@, dotted(q.qname)),
            ("QType"@, decimal(q.qtype as nat)),
            ("QClass"@, decimal(q.qclass as nat)),
        ]
    }
}

/// How an answer shows its data: an A record with four octets as an IPv4
/// address, any other as a list of octets.
pub open spec fn answer_data(r: RecordView) -> Seq<char> {
    if r.rtype.code() == 1 {
        if r.rdlength == 4 && r.rdata.len() >= 4 {
            ipv4_text(r.rdata)
        } else {
            "Invalid IPv4 address format"@
        }
    } else {
        debug_list(r.rdata)
    }
}

/// The six rows that show a record, with its data shown as `data`.
pub open spec fn record_rows_with(r: RecordView, data: Seq<char>) -> Seq<(Seq<char>, Seq<char>)> {
    seq![
        ("Name"@, dotted(r.name)),
        ("Type"@, rtype_name(r.rtype.code())),
        ("Class"@, decimal(r.rclass as nat)),
        ("TTL"@, decimal(r.ttl as nat)),
        ("RDLength"@, decimal(r.rdlength as nat)),
        ("RData"@, data),
    ]
}

/// The rows that show answers.
pub open spec fn answer_rows(rs: Seq<RecordView>) -> Seq<(Seq<char>, Seq<char>)>
    decreases rs.len(),
{
    if rs.len() == 0 {
        seq![]
    } else {
        answer_rows(rs.drop_last()) + record_rows_with(rs.last(), answer_data(rs.last()))
    }
}

/// The rows that show authority or additional records, data in hexadecimal.
pub open spec fn record_rows(rs: Seq<RecordView>) -> Seq<(Seq<char>, Seq<char>)>
    decreases rs.len(),
{
    if rs.len() == 0 {
        seq![]
    } else {
        record_rows(rs.drop_last()) + record_rows_with(rs.last(), hex_list(rs.last().rdata))
    }
}

/// The whole text: each section's title on a line, then its table.
pub open spec fn output_text(m: MessageView) -> Seq<char> {
    "Header\n"@ + ascii_table(header_rows(m.header)) + "\n"@ + "Questions\n"@ + ascii_table(
        question_rows(m.question),
    ) + "\n"@ + "Answers\n"@ + ascii_table(answer_rows(m.answer)) + "\n"@ + "Authority\n"@
        + ascii_table(record_rows(m.authority)) + "\n"@ + "Additional\n"@ + ascii_table(
        record_rows(m.extra),
    ) + "\n"@
}

fn row(name: &str, value: String) -> (r: Row)
    ensures
        r.0@ == name@,
        r.1@ == value@,
{
    (name.to_owned(), value)
}

fn push_record_rows(rows: &mut Vec<Row>, r: &ResourceRecord, data: String)
    ensures
        rows_view(final(rows)@) == rows_view(old(rows)@) + record_rows_with(r@, data@),
{
    let ghost start = rows@;
    rows.push(row("Name", to_dotted(&r.name)));
    rows.push(row("Type", r.rtype.to_string()));
    rows.push(row("Class", to_decimal(r.rclass as u32)));
    rows.push(row("TTL", to_decimal(r.ttl)));
    rows.push(row("RDLength", to_decimal(r.rdlength as u32)));
    rows.push(row("RData", data));
    assert(rows_view(rows@) =~= rows_view(start) + record_rows_with(r@, data@));
}

/// Shows a message as tables.
pub struct Output {
    message: Message,
}

impl View for Output {
    type V = MessageView;

    closed spec fn view(&self) -> MessageView {
        self.message@
    }
}

impl Output {
    pub fn new(msg: Message) -> (r: Output)
        ensures
            r@ == msg@,
    {
        Output { message: msg }
    }

    /// The rows that show the header.
    pub fn header_rows(&self) -> (r: Vec<Row>)
        ensures
            rows_view(r@) == header_rows(self@.header),
    {
        let h = self.message.header;
        let mut rows: Vec<Row> = Vec::new();
        rows.push(row("ID", to_decimal(h.id as u32)));
        rows.push(row("QR", to_decimal(h.qr as u32)));
        rows.push(row("Opcode", to_decimal(h.opcode as u32)));
        rows.push(row("AA", to_decimal(h.aa as u32)));
        rows.push(row("TC", to_decimal(h.tc as u32)));
        rows.push(row("RD", to_decimal(h.rd as u32)));
        rows.push(row("RA", to_decimal(h.ra as u32)));
        rows.push(row("Z", to_decimal(h.z as u32)));
        rows.push(row("RCode", h.rcode.to_string()));
        rows.push(row("QDCount", to_decimal(h.qdcount as u32)));
        rows.push(row("ANCount", to_decimal(h.ancount as u32)));
        rows.push(row("NSCount", to_decimal(h.nscount as u32)));
        rows.push(row("ARCount", to_decimal(h.arcount as u32)));
        assert(rows_view(rows@) =~= header_rows(self@.header));
        rows
    }

    /// The rows that show the questions.
    pub fn question_rows(&self) -> (r: Vec<Row>)
        ensures
            rows_view(r@) == question_rows(self@.question),
    {
        let qs = &self.message.question;
        let ghost all = self@.question;
        let mut rows: Vec<Row> = Vec::new();
        let mut i: usize = 0;
        while i < qs.len()
            invariant
                i <= qs@.len(),
                all == self@.question,
                qs == &self.message.question,
                rows_view(rows@) == question_rows(all.subrange(0, i as int)),
            decreases qs@.len() - i,
        {
            let ghost start = rows@;
            let q = &qs[i];
            rows.push(row("QName", to_dotted(&q.qname)));
            rows.push(row("QType", to_decimal(q.qtype as u32)));
            rows.push(row("QClass", to_decimal(q.qclass as u32)));
            proof {
                let pre = all.subrange(0, i + 1);
                assert(pre.drop_last() =~= all.subrange(0, i as int));
                assert(pre.last() == q@);
                assert(rows_view(rows@) =~= question_rows(pre));
            }
            i = i + 1;
        }
        assert(all.subrange(0, i as int) =~= all);
        rows
    }

    /// The rows that show the answers.
    pub fn answer_rows(&self) -> (r: Vec<Row>)
        ensures
            rows_view(r@) == answer_rows(self@.answer),
    {
        let rs = &self.message.answer;
        let ghost all = self@.answer;
        let mut rows: Vec<Row> = Vec::new();
        let mut i: usize = 0;
        while i < rs.len()
            invariant
                i <= rs@.len(),
                all == self@.answer,
                rs == &self.message.answer,
                rows_view(rows@) == answer_rows(all.subrange(0, i as int)),
            decreases rs@.len() - i,
        {
            let r = &rs[i];
            let data = if r.rtype.to_u16() == 1 {
                if r.rdlength == 4 && r.rdata.len() >= 4 {
                    ipv4(r.rdata.as_slice())
                } else {
                    literal("Invalid IPv4 address format")
                }
            } else {
                to_debug_list(r.rdata.as_slice())
            };
            push_record_rows(&mut rows, r, data);
            proof {
                let pre = all.subrange(0, i + 1);
                assert(pre.drop_last() =~= all.subrange(0, i as int));
                assert(pre.last() == r@);
            }
            i = i + 1;
        }
        assert(all.subrange(0, i as int) =~= all);
        rows
    }

    /// The rows that show authority or additional records, data in
    /// hexadecimal.
    pub fn record_rows(records: &Vec<ResourceRecord>) -> (r: Vec<Row>)
        ensures
            rows_view(r@) == record_rows(crate::message::record_views(records@)),
    {
        let ghost all = crate::message::record_views(records@);
        let mut rows: Vec<Row> = Vec::new();
        let mut i: usize = 0;
        while i < records.len()
            invariant
                i <= records@.len(),
                all == crate::message::record_views(records@),
                rows_view(rows@) == record_rows(all.subrange(0, i as int)),
            decreases records@.len() - i,
        {
            let r = &records[i];
            push_record_rows(&mut rows, r, to_hex_list(r.rdata.as_slice()));
            proof {
                let pre = all.subrange(0, i + 1);
                assert(pre.drop_last() =~= all.subrange(0, i as int));
                assert(pre.last() == r@);
            }
            i = i + 1;
        }
        assert(all.subrange(0, i as int) =~= all);
        rows
    }

    /// The text that shows the message: for each section its title on a
    /// line, then its table.
    pub fn render(&self) -> (r: String)
        ensures
            r@ == output_text(self@),
    {
        let mut s = String::new();
        s.append("Header\n");
        s.append(render_table(&self.header_rows()).as_str());
        s.append("\n");
        s.append("Questions\n");
        s.append(render_table(&self.question_rows()).as_str());
        s.append("\n");
        s.append("Answers\n");
        s.append(render_table(&self.answer_rows()).as_str());
        s.append("\n");
        s.append("Authority\n");
        s.append(render_table(&Self::record_rows(&self.message.authority)).as_str());
        s.append("\n");
        s.append("Additional\n");
        s.append(render_table(&Self::record_rows(&self.message.extra)).as_str());
        s.append("\n");
        assert(s@ =~= output_text(self@));
        s
    }
}

} // verus!
