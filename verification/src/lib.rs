//! Parser for Internet Message Format (RFC 5322) messages and their MIME
//! (RFC 2045/2046) extensions. The parser is byte-oriented: an input buffer
//! goes in, a structured `Message` — header fields, MIME tree, decoded leaf
//! bodies — comes out, or an `EmailError` describing the first failure.

use vstd::prelude::*;

pub mod address;
pub mod codec;
pub mod datetime;
pub mod error;
pub mod header;
pub mod laws;
pub mod lex;
pub mod message;
pub mod mime;
pub mod util;

pub use address::{Address, AddrSpec, DomainPart, LocalPart, Mailbox};
pub use datetime::DateTime;
pub use error::EmailError;
pub use header::{HeaderField, HeaderFieldInner};
pub use message::{parse_message, Body, Message, MimeParseControl};
pub use mime::{ContentDecodeError, ContentTransferEncoding, ContentType};

verus! {

/// An owned byte vector; the value type for decoded header content.
#[derive(Clone, Debug)]
pub struct ByteString(pub Vec<u8>);

impl View for ByteString {
    type V = Seq<u8>;

    open spec fn view(&self) -> Seq<u8> {
        self.0@
    }
}

/// The envelope addresses an SMTP transaction would carry beside the
/// message.
pub struct SmtpEnvelope {
    pub from: Option<String>,
    pub to: Option<String>,
}

} // verus!
