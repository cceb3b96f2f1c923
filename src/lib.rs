//! A codec for the DNS message wire format of RFC 1035: it turns a structured
//! message into octets and back, following compression pointers on decode.

pub mod error;
pub mod header;
pub mod message;
pub mod name;
pub mod output;
pub mod query;
pub mod record;
pub mod text;
pub mod wire;

pub use error::CodecError;
pub use header::{MessageHeader, ResponseCode};
pub use record::{Question, RecordType, ResourceRecord};
pub use message::Message;
pub use output::Output;
pub use query::DNSQuery;
