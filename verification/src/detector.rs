//! Protocol format detection: RESP frames start with a type byte, anything
//! else is an inline (telnet-style) command.

use vstd::prelude::*;

verus! {

/// Detected protocol format for the first unconsumed byte of a buffer.
#[derive(Debug, Clone, Copy, PartialEq, Eq, Structural)]
pub enum ProtocolFormat {
    /// RESP format (starts with one of the ten type bytes).
    Resp,
    /// Inline/telnet format (plain text).
    Inline,
}

/// True of the ten RESP2/RESP3 type bytes `+ - : $ * _ # , ~ %`.
pub open spec fn is_resp_type_byte(b: u8) -> bool {
    b == crate::ascii::PLUS || b == crate::ascii::MINUS || b == crate::ascii::COLON
        || b == crate::ascii::DOLLAR || b == crate::ascii::STAR || b == crate::ascii::UNDERSCORE
        || b == crate::ascii::HASH || b == crate::ascii::COMMA || b == crate::ascii::TILDE
        || b == crate::ascii::PERCENT
}

/// Detect the protocol format from the first byte of the buffer.
///
/// RESP messages start with `+ - : $ * _ # , ~ %`; inline messages start
/// with any other byte (typically letters). An empty buffer has no format.
pub fn detect_format(buffer: &[u8]) -> (r: Option<ProtocolFormat>)
    ensures
        buffer@.len() == 0 ==> r is None,
        buffer@.len() > 0 && is_resp_type_byte(buffer@[0]) ==> r == Some(ProtocolFormat::Resp),
        buffer@.len() > 0 && !is_resp_type_byte(buffer@[0]) ==> r == Some(ProtocolFormat::Inline),
{
    if buffer.len() == 0 {
        return None;
    }
    let b = buffer[0];
    if b == crate::ascii::PLUS || b == crate::ascii::MINUS || b == crate::ascii::COLON
        || b == crate::ascii::DOLLAR || b == crate::ascii::STAR || b == crate::ascii::UNDERSCORE
        || b == crate::ascii::HASH || b == crate::ascii::COMMA || b == crate::ascii::TILDE
        || b == crate::ascii::PERCENT {
        Some(ProtocolFormat::Resp)
    } else {
        Some(ProtocolFormat::Inline)
    }
}

} // verus!
