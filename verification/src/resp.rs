//! The streaming RESP2/RESP3 codec.
//!
//! `parse_frame_spec` is the mathematical parser: given the buffer's bytes
//! and a position it yields a frame and a consumed count, `Incomplete`, or
//! `Malformed`. The executable parser returns exactly what the spec parser
//! says, and consumes bytes only on a complete frame, so an incomplete
//! frame leaves the buffer untouched.

use vstd::prelude::*;
use crate::ascii::{PLUS, MINUS, COLON, DOLLAR, STAR, UNDERSCORE, HASH, COMMA, TILDE, PERCENT, CR,
    LF, LOWER_T, LOWER_F, ascii_view, ascii_bytes};
use crate::detector::is_resp_type_byte;
use crate::frame::{RespValue, FrameModel, frames_view, pairs_view, lemma_frames_view,
    lemma_pairs_view};
use crate::numtext::{is_i64_text, int_text_val, is_float_text, parse_i64, is_float_literal};
use crate::bytebuf::{buf_contents, buf_new, buf_extend, buf_as_slice, buf_advance, buf_clear};

verus! {

broadcast use vstd::std_specs::vec::group_vec_axioms;

/// Protocol version for RESP communication, negotiated per connection.
#[derive(Debug, Clone, Copy, PartialEq, Eq, Structural)]
pub enum ProtocolVersion {
    /// RESP2, the original protocol.
    Resp2,
    /// RESP3, with null, boolean, double, set and map frames.
    Resp3,
}

impl Default for ProtocolVersion {
    /// A connection starts in RESP2.
    fn default() -> (r: Self)
        ensures
            r == ProtocolVersion::Resp2,
    {
        ProtocolVersion::Resp2
    }
}

/// A protocol fault: the malformed-frame taxonomy of the codec.
#[derive(Debug, Clone, Copy, PartialEq, Eq, Structural)]
pub enum ProtocolError {
    /// The first byte of a RESP frame is none of the ten type bytes.
    InvalidTypeByte(u8),
    /// The body of a `:` frame is not a valid 64-bit integer.
    InvalidInteger,
    /// The length of a `$` frame is not a valid length.
    InvalidBulkLength,
    /// The payload of a `$` frame is not terminated by CRLF.
    InvalidBulkTerminator,
    /// The length of a `*` frame is not a valid length.
    InvalidArrayLength,
    /// The length of a `~` frame is not a valid length.
    InvalidSetLength,
    /// The length of a `%` frame is not a valid length.
    InvalidMapLength,
    /// The body of a `#` frame is neither `t` nor `f`.
    InvalidBoolean(u8),
    /// The body of a `,` frame is not a floating-point literal.
    InvalidDouble,
    /// The body of a `_` frame is not empty.
    InvalidNull,
    /// An inline command line ends inside a double-quoted token.
    UnclosedQuote,
}

/// The descriptive text of a protocol fault.
pub open spec fn spec_message(e: ProtocolError) -> Seq<u8> {
    match e {
        ProtocolError::InvalidTypeByte(b) => ascii_view("Invalid RESP type byte: "@).push(b),
        ProtocolError::InvalidInteger => ascii_view("Invalid integer"@),
        ProtocolError::InvalidBulkLength => ascii_view("Invalid bulk string length"@),
        ProtocolError::InvalidBulkTerminator => ascii_view("Invalid bulk string terminator"@),
        ProtocolError::InvalidArrayLength => ascii_view("Invalid array length"@),
        ProtocolError::InvalidSetLength => ascii_view("Invalid set length"@),
        ProtocolError::InvalidMapLength => ascii_view("Invalid map length"@),
        ProtocolError::InvalidBoolean(b) => ascii_view("Invalid boolean value: "@).push(b),
        ProtocolError::InvalidDouble => ascii_view("Invalid double"@),
        ProtocolError::InvalidNull => ascii_view("Invalid null frame"@),
        ProtocolError::UnclosedQuote => ascii_view("Unclosed quote in inline command"@),
    }
}

impl ProtocolError {
    /// Render the fault's descriptive text.
    pub fn message(&self) -> (r: Vec<u8>)
        ensures
            r@ == spec_message(*self),
    {
        match self {
            ProtocolError::InvalidTypeByte(b) => {
                proof {
                    reveal_strlit("Invalid RESP type byte: ");
                }
                let mut v = ascii_bytes("Invalid RESP type byte: ");
                v.push(*b);
                v
            },
            ProtocolError::InvalidInteger => {
                proof {
                    reveal_strlit("Invalid integer");
                }
                ascii_bytes("Invalid integer")
            },
            ProtocolError::InvalidBulkLength => {
                proof {
                    reveal_strlit("Invalid bulk string length");
                }
                ascii_bytes("Invalid bulk string length")
            },
            ProtocolError::InvalidBulkTerminator => {
                proof {
                    reveal_strlit("Invalid bulk string terminator");
                }
                ascii_bytes("Invalid bulk string terminator")
            },
            ProtocolError::InvalidArrayLength => {
                proof {
                    reveal_strlit("Invalid array length");
                }
                ascii_bytes("Invalid array length")
            },
            ProtocolError::InvalidSetLength => {
                proof {
                    reveal_strlit("Invalid set length");
                }
                ascii_bytes("Invalid set length")
            },
            ProtocolError::InvalidMapLength => {
                proof {
                    reveal_strlit("Invalid map length");
                }
                ascii_bytes("Invalid map length")
            },
            ProtocolError::InvalidBoolean(b) => {
                proof {
                    reveal_strlit("Invalid boolean value: ");
                }
                let mut v = ascii_bytes("Invalid boolean value: ");
                v.push(*b);
                v
            },
            ProtocolError::InvalidDouble => {
                proof {
                    reveal_strlit("Invalid double");
                }
                ascii_bytes("Invalid double")
            },
            ProtocolError::InvalidNull => {
                proof {
                    reveal_strlit("Invalid null frame");
                }
                ascii_bytes("Invalid null frame")
            },
            ProtocolError::UnclosedQuote => {
                proof {
                    reveal_strlit("Unclosed quote in inline command");
                }
                ascii_bytes("Unclosed quote in inline command")
            },
        }
    }

    /// The error frame a connection answers on a protocol fault:
    /// `ERR Protocol error: ` followed by the fault's descriptive text.
    pub fn to_error_frame(&self) -> (r: RespValue)
        ensures
            r@ == FrameModel::Error(ascii_view("ERR Protocol error: "@) + spec_message(*self)),
    {
        proof {
            reveal_strlit("ERR Protocol error: ");
        }
        let mut m = ascii_bytes("ERR Protocol error: ");
        let detail = self.message();
        crate::frame::append_slice(&mut m, detail.as_slice());
        proof {
            assert(m@ =~= ascii_view("ERR Protocol error: "@) + spec_message(*self));
        }
        RespValue::Error(m)
    }
}

/// The outcome of one parse attempt, at the model level.
pub enum SpecParse {
    /// A complete frame, and how many bytes it took from the position.
    Done(FrameModel, int),
    /// More bytes are needed.
    Incomplete,
    /// The bytes at the position are not a frame.
    Malformed(ProtocolError),
}

/// The outcome of parsing a counted run of frames, at the model level.
pub enum SpecItems {
    Done(Seq<FrameModel>, int),
    Incomplete,
    Malformed(ProtocolError),
}

/// The outcome of parsing a counted run of key-value pairs.
pub enum SpecPairs {
    Done(Seq<(FrameModel, FrameModel)>, int),
    Incomplete,
    Malformed(ProtocolError),
}

/// The first position at or after `pos` where CRLF starts.
pub open spec fn spec_find_crlf(b: Seq<u8>, pos: int) -> Option<int>
    decreases b.len() - pos,
{
    if pos < 0 || pos + 2 > b.len() {
        None
    } else if b[pos] == CR && b[pos + 1] == LF {
        Some(pos)
    } else {
        spec_find_crlf(b, pos + 1)
    }
}

pub proof fn lemma_find_crlf_hit(b: Seq<u8>, pos: int, j: int)
    requires
        0 <= pos <= j,
        j + 2 <= b.len(),
        b[j] == CR && b[j + 1] == LF,
        forall|k: int| pos <= k < j ==> !(#[trigger] b[k] == CR && b[k + 1] == LF),
    ensures
        spec_find_crlf(b, pos) == Some(j),
    decreases j - pos,
{
    if pos < j {
        lemma_find_crlf_hit(b, pos + 1, j);
    }
}

pub proof fn lemma_find_crlf_miss(b: Seq<u8>, pos: int)
    requires
        0 <= pos,
        forall|k: int| pos <= k && k + 2 <= b.len() ==> !(#[trigger] b[k] == CR && b[k + 1] == LF),
    ensures
        spec_find_crlf(b, pos) is None,
    decreases b.len() - pos,
{
    if pos + 2 <= b.len() {
        lemma_find_crlf_miss(b, pos + 1);
    }
}

/// A found CRLF lies at or after the start position and inside the buffer.
pub proof fn lemma_find_crlf_bounds(b: Seq<u8>, pos: int)
    requires
        0 <= pos,
    ensures
        spec_find_crlf(b, pos) matches Some(e) ==> pos <= e && e + 2 <= b.len(),
    decreases b.len() - pos,
{
    if pos + 2 <= b.len() && !(b[pos] == CR && b[pos + 1] == LF) {
        lemma_find_crlf_bounds(b, pos + 1);
    }
}

/// The mathematical parser for one RESP frame starting at `pos`.
pub open spec fn parse_frame_spec(b: Seq<u8>, pos: int) -> SpecParse
    decreases b.len() - pos, 1int, 0int,
        via parse_frame_spec_decreases
{
    if pos < 0 || pos >= b.len() {
        SpecParse::Incomplete
    } else {
        let t = b[pos];
        if t == PLUS || t == MINUS || t == COLON || t == COMMA || t == UNDERSCORE || t == HASH {
            match spec_find_crlf(b, pos + 1) {
                None => SpecParse::Incomplete,
                Some(e) => {
                    let body = b.subrange(pos + 1, e);
                    let c = e + 2 - pos;
                    if t == PLUS {
                        SpecParse::Done(FrameModel::SimpleString(body), c)
                    } else if t == MINUS {
                        SpecParse::Done(FrameModel::Error(body), c)
                    } else if t == COLON {
                        if is_i64_text(body) {
                            SpecParse::Done(FrameModel::Integer(int_text_val(body) as i64), c)
                        } else {
                            SpecParse::Malformed(ProtocolError::InvalidInteger)
                        }
                    } else if t == COMMA {
                        if is_float_text(body) {
                            SpecParse::Done(FrameModel::Double(body), c)
                        } else {
                            SpecParse::Malformed(ProtocolError::InvalidDouble)
                        }
                    } else if t == UNDERSCORE {
                        if body.len() == 0 {
                            SpecParse::Done(FrameModel::Null, c)
                        } else {
                            SpecParse::Malformed(ProtocolError::InvalidNull)
                        }
                    } else {
                        if body == seq![LOWER_T] {
                            SpecParse::Done(FrameModel::Boolean(true), c)
                        } else if body == seq![LOWER_F] {
                            SpecParse::Done(FrameModel::Boolean(false), c)
                        } else {
                            SpecParse::Malformed(ProtocolError::InvalidBoolean(b[pos + 1]))
                        }
                    }
                },
            }
        } else if t == DOLLAR {
            match spec_find_crlf(b, pos + 1) {
                None => SpecParse::Incomplete,
                Some(e) => {
                    let body = b.subrange(pos + 1, e);
                    if !is_i64_text(body) {
                        SpecParse::Malformed(ProtocolError::InvalidBulkLength)
                    } else {
                        let l = int_text_val(body);
                        if l == -1 {
                            SpecParse::Done(FrameModel::BulkString(None), e + 2 - pos)
                        } else if l < 0 {
                            SpecParse::Malformed(ProtocolError::InvalidBulkLength)
                        } else {
                            let d0 = e + 2;
                            if d0 + l + 2 > b.len() {
                                SpecParse::Incomplete
                            } else if b[d0 + l] == CR && b[d0 + l + 1] == LF {
                                SpecParse::Done(
                                    FrameModel::BulkString(Some(b.subrange(d0, d0 + l))),
                                    d0 + l + 2 - pos,
                                )
                            } else {
                                SpecParse::Malformed(ProtocolError::InvalidBulkTerminator)
                            }
                        }
                    }
                },
            }
        } else if t == STAR || t == TILDE || t == PERCENT {
            match spec_find_crlf(b, pos + 1) {
                None => SpecParse::Incomplete,
                Some(e) => {
                    let body = b.subrange(pos + 1, e);
                    let bad = if t == STAR {
                        ProtocolError::InvalidArrayLength
                    } else if t == TILDE {
                        ProtocolError::InvalidSetLength
                    } else {
                        ProtocolError::InvalidMapLength
                    };
                    if !is_i64_text(body) {
                        SpecParse::Malformed(bad)
                    } else {
                        let l = int_text_val(body);
                        if t == STAR && l == -1 {
                            SpecParse::Done(FrameModel::Array(None), e + 2 - pos)
                        } else if l < 0 {
                            SpecParse::Malformed(bad)
                        } else if t == PERCENT {
                            match parse_pairs_spec(b, e + 2, l) {
                                SpecPairs::Done(ps, c2) => SpecParse::Done(
                                    FrameModel::MapValue(ps),
                                    e + 2 - pos + c2,
                                ),
                                SpecPairs::Incomplete => SpecParse::Incomplete,
                                SpecPairs::Malformed(err) => SpecParse::Malformed(err),
                            }
                        } else {
                            match parse_items_spec(b, e + 2, l) {
                                SpecItems::Done(items, c2) => SpecParse::Done(
                                    if t == STAR {
                                        FrameModel::Array(Some(items))
                                    } else {
                                        FrameModel::SetValue(items)
                                    },
                                    e + 2 - pos + c2,
                                ),
                                SpecItems::Incomplete => SpecParse::Incomplete,
                                SpecItems::Malformed(err) => SpecParse::Malformed(err),
                            }
                        }
                    }
                },
            }
        } else {
            SpecParse::Malformed(ProtocolError::InvalidTypeByte(t))
        }
    }
}

#[via_fn]
proof fn parse_frame_spec_decreases(b: Seq<u8>, pos: int) {
    if 0 <= pos < b.len() {
        lemma_find_crlf_bounds(b, pos + 1);
    }
}

/// The mathematical parser for `n` frames starting at `pos`.
pub open spec fn parse_items_spec(b: Seq<u8>, pos: int, n: int) -> SpecItems
    decreases b.len() - pos, 2int, n,
{
    if pos < 0 || pos > b.len() || n < 0 {
        SpecItems::Incomplete
    } else if n == 0 {
        SpecItems::Done(Seq::empty(), 0)
    } else {
        match parse_frame_spec(b, pos) {
            SpecParse::Done(f, c) => {
                if c < 1 || pos + c > b.len() {
                    SpecItems::Incomplete
                } else {
                    match parse_items_spec(b, pos + c, n - 1) {
                        SpecItems::Done(rest, c2) => SpecItems::Done(seq![f] + rest, c + c2),
                        SpecItems::Incomplete => SpecItems::Incomplete,
                        SpecItems::Malformed(e) => SpecItems::Malformed(e),
                    }
                }
            },
            SpecParse::Incomplete => SpecItems::Incomplete,
            SpecParse::Malformed(e) => SpecItems::Malformed(e),
        }
    }
}

/// The mathematical parser for `n` key-value pairs starting at `pos`.
pub open spec fn parse_pairs_spec(b: Seq<u8>, pos: int, n: int) -> SpecPairs
    decreases b.len() - pos, 2int, n,
{
    if pos < 0 || pos > b.len() || n < 0 {
        SpecPairs::Incomplete
    } else if n == 0 {
        SpecPairs::Done(Seq::empty(), 0)
    } else {
        match parse_frame_spec(b, pos) {
            SpecParse::Done(k, ck) => {
                if ck < 1 || pos + ck > b.len() {
                    SpecPairs::Incomplete
                } else {
                    match parse_frame_spec(b, pos + ck) {
                        SpecParse::Done(v, cv) => {
                            if cv < 1 || pos + ck + cv > b.len() {
                                SpecPairs::Incomplete
                            } else {
                                match parse_pairs_spec(b, pos + ck + cv, n - 1) {
                                    SpecPairs::Done(rest, c2) => SpecPairs::Done(
                                        seq![(k, v)] + rest,
                                        ck + cv + c2,
                                    ),
                                    SpecPairs::Incomplete => SpecPairs::Incomplete,
                                    SpecPairs::Malformed(e) => SpecPairs::Malformed(e),
                                }
                            }
                        },
                        SpecParse::Incomplete => SpecPairs::Incomplete,
                        SpecParse::Malformed(e) => SpecPairs::Malformed(e),
                    }
                }
            },
            SpecParse::Incomplete => SpecPairs::Incomplete,
            SpecParse::Malformed(e) => SpecPairs::Malformed(e),
        }
    }
}

/// What one `next()` call yields on the whole buffer: format detection,
/// then the RESP or the inline parser.
pub open spec fn next_spec(buf: Seq<u8>) -> SpecParse {
    if buf.len() == 0 {
        SpecParse::Incomplete
    } else if is_resp_type_byte(buf[0]) {
        parse_frame_spec(buf, 0)
    } else {
        crate::inline::inline_spec(buf)
    }
}

/// Find the first CRLF at or after `pos`.
pub fn find_crlf(b: &[u8], pos: usize) -> (r: Option<usize>)
    requires
        pos <= b@.len(),
    ensures
        match r {
            Some(e) => spec_find_crlf(b@, pos as int) == Some(e as int) && pos <= e
                && e + 2 <= b@.len() && b@[e as int] == CR && b@[e + 1] == LF,
            None => spec_find_crlf(b@, pos as int) is None,
        },
{
    let n = b.len();
    let mut i: usize = pos;
    while n - i >= 2
        invariant
            pos <= i,
            i <= n,
            n == b@.len(),
            forall|k: int| pos <= k < i ==> !(#[trigger] b@[k] == CR && b@[k + 1] == LF),
        decreases n - i,
    {
        if b[i] == CR && b[i + 1] == LF {
            proof {
                lemma_find_crlf_hit(b@, pos as int, i as int);
            }
            return Some(i);
        }
        i = i + 1;
    }
    proof {
        lemma_find_crlf_miss(b@, pos as int);
    }
    None
}

/// Copy `b[from..to]` into a fresh vector.
pub fn extract(b: &[u8], from: usize, to: usize) -> (r: Vec<u8>)
    requires
        from <= to <= b@.len(),
    ensures
        r@ == b@.subrange(from as int, to as int),
{
    let mut v: Vec<u8> = Vec::new();
    let mut i: usize = from;
    while i < to
        invariant
            from <= i <= to <= b@.len(),
            v@ =~= b@.subrange(from as int, i as int),
        decreases to - i,
    {
        v.push(b[i]);
        assert(v@ =~= b@.subrange(from as int, i + 1 as int));
        i = i + 1;
    }
    v
}

/// Copy a byte vector.
pub fn copy_bytes(b: &Vec<u8>) -> (r: Vec<u8>)
    ensures
        r@ == b@,
{
    let r = extract(b.as_slice(), 0, b.len());
    proof {
        assert(b@.subrange(0, b@.len() as int) =~= b@);
    }
    r
}

/// The outcome of one executable parse attempt.
pub enum ParseOutcome {
    Frame(RespValue, usize),
    Incomplete,
    Malformed(ProtocolError),
}

/// The executable outcome agrees with the model outcome.
pub open spec fn outcome_matches(r: ParseOutcome, s: SpecParse) -> bool {
    match s {
        SpecParse::Done(m, c) => r matches ParseOutcome::Frame(v, cc) && v@ == m && cc == c,
        SpecParse::Incomplete => r is Incomplete,
        SpecParse::Malformed(e) => r matches ParseOutcome::Malformed(e2) && e2 == e,
    }
}

enum ItemsOutcome {
    Items(Vec<RespValue>, usize),
    Incomplete,
    Malformed(ProtocolError),
}

spec fn items_matches(r: ItemsOutcome, s: SpecItems) -> bool {
    match s {
        SpecItems::Done(ms, c) => r matches ItemsOutcome::Items(v, cc) && frames_view(v@) == ms
            && cc == c,
        SpecItems::Incomplete => r is Incomplete,
        SpecItems::Malformed(e) => r matches ItemsOutcome::Malformed(e2) && e2 == e,
    }
}

enum PairsOutcome {
    Pairs(Vec<(RespValue, RespValue)>, usize),
    Incomplete,
    Malformed(ProtocolError),
}

spec fn pairs_matches(r: PairsOutcome, s: SpecPairs) -> bool {
    match s {
        SpecPairs::Done(ms, c) => r matches PairsOutcome::Pairs(v, cc) && pairs_view(v@) == ms
            && cc == c,
        SpecPairs::Incomplete => r is Incomplete,
        SpecPairs::Malformed(e) => r matches PairsOutcome::Malformed(e2) && e2 == e,
    }
}

/// Parse one frame at `pos`, returning exactly what the model parser says.
pub fn parse_frame_at(b: &[u8], pos: usize) -> (r: ParseOutcome)
    requires
        pos <= b@.len(),
    ensures
        outcome_matches(r, parse_frame_spec(b@, pos as int)),
        r matches ParseOutcome::Frame(v, c) ==> 1 <= c && pos + c <= b@.len(),
    decreases b@.len() - pos, 1int,
{
    let n = b.len();
    if pos >= n {
        return ParseOutcome::Incomplete;
    }
    let t = b[pos];
    if t == PLUS || t == MINUS || t == COLON || t == COMMA || t == UNDERSCORE || t == HASH {
        let e = match find_crlf(b, pos + 1) {
            Some(e) => e,
            None => {
                return ParseOutcome::Incomplete;
            },
        };
        let body = extract(b, pos + 1, e);
        let c = e + 2 - pos;
        if t == PLUS {
            ParseOutcome::Frame(RespValue::SimpleString(body), c)
        } else if t == MINUS {
            ParseOutcome::Frame(RespValue::Error(body), c)
        } else if t == COLON {
            match parse_i64(body.as_slice()) {
                Some(v) => ParseOutcome::Frame(RespValue::Integer(v), c),
                None => ParseOutcome::Malformed(ProtocolError::InvalidInteger),
            }
        } else if t == COMMA {
            if is_float_literal(body.as_slice()) {
                ParseOutcome::Frame(RespValue::Double(body), c)
            } else {
                ParseOutcome::Malformed(ProtocolError::InvalidDouble)
            }
        } else if t == UNDERSCORE {
            if body.len() == 0 {
                proof {
                    assert(b@.subrange(pos + 1, e as int).len() == 0);
                }
                ParseOutcome::Frame(RespValue::Null, c)
            } else {
                ParseOutcome::Malformed(ProtocolError::InvalidNull)
            }
        } else {
            if body.len() == 1 && body[0] == LOWER_T {
                proof {
                    assert(b@.subrange(pos + 1, e as int) =~= seq![LOWER_T]);
                }
                ParseOutcome::Frame(RespValue::Boolean(true), c)
            } else if body.len() == 1 && body[0] == LOWER_F {
                proof {
                    assert(b@.subrange(pos + 1, e as int) =~= seq![LOWER_F]);
                }
                ParseOutcome::Frame(RespValue::Boolean(false), c)
            } else {
                proof {
                    let bd = b@.subrange(pos + 1, e as int);
                    assert(bd != seq![LOWER_T] && bd != seq![LOWER_F]) by {
                        if bd == seq![LOWER_T] || bd == seq![LOWER_F] {
                            assert(bd.len() == 1);
                            assert(body@[0] == bd[0]);
                        }
                    }
                }
                ParseOutcome::Malformed(ProtocolError::InvalidBoolean(b[pos + 1]))
            }
        }
    } else if t == DOLLAR {
        let e = match find_crlf(b, pos + 1) {
            Some(e) => e,
            None => {
                return ParseOutcome::Incomplete;
            },
        };
        let body = extract(b, pos + 1, e);
        let l = match parse_i64(body.as_slice()) {
            Some(l) => l,
            None => {
                return ParseOutcome::Malformed(ProtocolError::InvalidBulkLength);
            },
        };
        if l == -1 {
            ParseOutcome::Frame(RespValue::BulkString(None), e + 2 - pos)
        } else if l < 0 {
            ParseOutcome::Malformed(ProtocolError::InvalidBulkLength)
        } else {
            let d0 = e + 2;
            let rem = n - d0;
            if rem < 2 || (l as u64) > (rem - 2) as u64 {
                proof {
                    assert(d0 + l + 2 > b@.len());
                }
                return ParseOutcome::Incomplete;
            }
            let lu = l as usize;
            let data = extract(b, d0, d0 + lu);
            if b[d0 + lu] == CR && b[d0 + lu + 1] == LF {
                ParseOutcome::Frame(RespValue::BulkString(Some(data)), d0 + lu + 2 - pos)
            } else {
                ParseOutcome::Malformed(ProtocolError::InvalidBulkTerminator)
            }
        }
    } else if t == STAR || t == TILDE || t == PERCENT {
        let e = match find_crlf(b, pos + 1) {
            Some(e) => e,
            None => {
                return ParseOutcome::Incomplete;
            },
        };
        let body = extract(b, pos + 1, e);
        let bad = if t == STAR {
            ProtocolError::InvalidArrayLength
        } else if t == TILDE {
            ProtocolError::InvalidSetLength
        } else {
            ProtocolError::InvalidMapLength
        };
        let l = match parse_i64(body.as_slice()) {
            Some(l) => l,
            None => {
                return ParseOutcome::Malformed(bad);
            },
        };
        if t == STAR && l == -1 {
            ParseOutcome::Frame(RespValue::Array(None), e + 2 - pos)
        } else if l < 0 {
            ParseOutcome::Malformed(bad)
        } else if t == PERCENT {
            match parse_pairs_at(b, e + 2, l as u64) {
                PairsOutcome::Pairs(ps, c2) => ParseOutcome::Frame(
                    RespValue::MapValue(ps),
                    e + 2 - pos + c2,
                ),
                PairsOutcome::Incomplete => ParseOutcome::Incomplete,
                PairsOutcome::Malformed(err) => ParseOutcome::Malformed(err),
            }
        } else {
            match parse_items_at(b, e + 2, l as u64) {
                ItemsOutcome::Items(items, c2) => ParseOutcome::Frame(
                    if t == STAR {
                        RespValue::Array(Some(items))
                    } else {
                        RespValue::SetValue(items)
                    },
                    e + 2 - pos + c2,
                ),
                ItemsOutcome::Incomplete => ParseOutcome::Incomplete,
                ItemsOutcome::Malformed(err) => ParseOutcome::Malformed(err),
            }
        }
    } else {
        ParseOutcome::Malformed(ProtocolError::InvalidTypeByte(t))
    }
}

/// Parse `n` frames starting at `pos`.
fn parse_items_at(b: &[u8], pos: usize, n: u64) -> (r: ItemsOutcome)
    requires
        pos <= b@.len(),
    ensures
        items_matches(r, parse_items_spec(b@, pos as int, n as int)),
        r matches ItemsOutcome::Items(v, c) ==> pos + c <= b@.len(),
    decreases b@.len() - pos, 2int,
{
    let blen = b.len();
    let mut out: Vec<RespValue> = Vec::new();
    let mut cur: usize = pos;
    let mut k: u64 = 0;
    proof {
        lemma_items_prepend_empty(parse_items_spec(b@, pos as int, n as int));
        assert(frames_view(out@) =~= Seq::<FrameModel>::empty());
    }
    while k < n
        invariant
            k <= n,
            pos <= cur <= b@.len(),
            blen == b@.len(),
            parse_items_spec(b@, pos as int, n as int) == items_prepend(
                frames_view(out@),
                cur - pos,
                parse_items_spec(b@, cur as int, n - k),
            ),
        decreases n - k,
    {
        match parse_frame_at(b, cur) {
            ParseOutcome::Frame(v, c) => {
                let ghost pre = out@;
                let ghost front = frames_view(pre);
                let ghost fm = v@;
                let ghost rest = parse_items_spec(b@, cur + c, n - k - 1);
                proof {
                    lemma_frames_view(pre);
                    lemma_frames_view(pre.push(v));
                    assert(frames_view(pre.push(v)) =~= front + seq![fm]);
                    assert(parse_items_spec(b@, cur as int, n - k)
                        == items_prepend(seq![fm], c as int, rest));
                    lemma_items_prepend_assoc(front, cur - pos, fm, c as int, rest);
                }
                out.push(v);
                cur = cur + c;
                k = k + 1;
            },
            ParseOutcome::Incomplete => {
                return ItemsOutcome::Incomplete;
            },
            ParseOutcome::Malformed(e) => {
                return ItemsOutcome::Malformed(e);
            },
        }
    }
    proof {
        assert(parse_items_spec(b@, cur as int, 0) == SpecItems::Done(Seq::<FrameModel>::empty(), 0));
        assert(frames_view(out@) + Seq::<FrameModel>::empty() =~= frames_view(out@));
    }
    ItemsOutcome::Items(out, cur - pos)
}

/// Glue a parsed prefix onto the model outcome of the remaining items.
spec fn items_prepend(front: Seq<FrameModel>, delta: int, rest: SpecItems) -> SpecItems {
    match rest {
        SpecItems::Done(ms, c) => SpecItems::Done(front + ms, delta + c),
        SpecItems::Incomplete => SpecItems::Incomplete,
        SpecItems::Malformed(e) => SpecItems::Malformed(e),
    }
}

proof fn lemma_items_prepend_empty(x: SpecItems)
    ensures
        items_prepend(Seq::empty(), 0, x) == x,
{
    match x {
        SpecItems::Done(ms, c) => {
            assert(Seq::<FrameModel>::empty() + ms =~= ms);
        },
        _ => {},
    }
}

proof fn lemma_items_prepend_assoc(front: Seq<FrameModel>, d: int, m: FrameModel, c: int,
    rest: SpecItems)
    ensures
        items_prepend(front, d, items_prepend(seq![m], c, rest))
            == items_prepend(front + seq![m], d + c, rest),
{
    match rest {
        SpecItems::Done(ms, c2) => {
            assert(front + (seq![m] + ms) =~= (front + seq![m]) + ms);
        },
        _ => {},
    }
}

/// Parse `n` key-value pairs starting at `pos`.
fn parse_pairs_at(b: &[u8], pos: usize, n: u64) -> (r: PairsOutcome)
    requires
        pos <= b@.len(),
    ensures
        pairs_matches(r, parse_pairs_spec(b@, pos as int, n as int)),
        r matches PairsOutcome::Pairs(v, c) ==> pos + c <= b@.len(),
    decreases b@.len() - pos, 2int,
{
    let blen = b.len();
    let mut out: Vec<(RespValue, RespValue)> = Vec::new();
    let mut cur: usize = pos;
    let mut k: u64 = 0;
    proof {
        lemma_pairs_prepend_empty(parse_pairs_spec(b@, pos as int, n as int));
        assert(pairs_view(out@) =~= Seq::<(FrameModel, FrameModel)>::empty());
    }
    while k < n
        invariant
            k <= n,
            pos <= cur <= b@.len(),
            blen == b@.len(),
            parse_pairs_spec(b@, pos as int, n as int) == pairs_prepend(
                pairs_view(out@),
                cur - pos,
                parse_pairs_spec(b@, cur as int, n - k),
            ),
        decreases n - k,
    {
        let key = match parse_frame_at(b, cur) {
            ParseOutcome::Frame(v, c) => (v, c),
            ParseOutcome::Incomplete => {
                return PairsOutcome::Incomplete;
            },
            ParseOutcome::Malformed(e) => {
                return PairsOutcome::Malformed(e);
            },
        };
        let val = match parse_frame_at(b, cur + key.1) {
            ParseOutcome::Frame(v, c) => (v, c),
            ParseOutcome::Incomplete => {
                return PairsOutcome::Incomplete;
            },
            ParseOutcome::Malformed(e) => {
                return PairsOutcome::Malformed(e);
            },
        };
        let ghost pre = out@;
        let ghost front = pairs_view(pre);
        let ghost km = key.0@;
        let ghost vm = val.0@;
        let ck = key.1;
        let cv = val.1;
        let ghost rest = parse_pairs_spec(b@, cur + ck + cv, n - k - 1);
        proof {
            lemma_pairs_view(pre);
            lemma_pairs_view(pre.push((key.0, val.0)));
            assert(pairs_view(pre.push((key.0, val.0))) =~= front + seq![(km, vm)]);
            assert(parse_pairs_spec(b@, cur as int, n - k)
                == pairs_prepend(seq![(km, vm)], ck + cv, rest));
            lemma_pairs_prepend_assoc(front, cur - pos, (km, vm), ck + cv, rest);
        }
        out.push((key.0, val.0));
        cur = cur + ck + cv;
        k = k + 1;
    }
    proof {
        assert(parse_pairs_spec(b@, cur as int, 0)
            == SpecPairs::Done(Seq::<(FrameModel, FrameModel)>::empty(), 0));
        assert(pairs_view(out@) + Seq::<(FrameModel, FrameModel)>::empty() =~= pairs_view(out@));
    }
    PairsOutcome::Pairs(out, cur - pos)
}

/// Glue a parsed prefix onto the model outcome of the remaining pairs.
spec fn pairs_prepend(front: Seq<(FrameModel, FrameModel)>, delta: int, rest: SpecPairs)
    -> SpecPairs {
    match rest {
        SpecPairs::Done(ms, c) => SpecPairs::Done(front + ms, delta + c),
        SpecPairs::Incomplete => SpecPairs::Incomplete,
        SpecPairs::Malformed(e) => SpecPairs::Malformed(e),
    }
}

proof fn lemma_pairs_prepend_empty(x: SpecPairs)
    ensures
        pairs_prepend(Seq::empty(), 0, x) == x,
{
    match x {
        SpecPairs::Done(ms, c) => {
            assert(Seq::<(FrameModel, FrameModel)>::empty() + ms =~= ms);
        },
        _ => {},
    }
}

proof fn lemma_pairs_prepend_assoc(front: Seq<(FrameModel, FrameModel)>, d: int,
    m: (FrameModel, FrameModel), c: int, rest: SpecPairs)
    ensures
        pairs_prepend(front, d, pairs_prepend(seq![m], c, rest))
            == pairs_prepend(front + seq![m], d + c, rest),
{
    match rest {
        SpecPairs::Done(ms, c2) => {
            assert(front + (seq![m] + ms) =~= (front + seq![m]) + ms);
        },
        _ => {},
    }
}

/// Stateful parser for Redis protocol messages.
///
/// Bytes accumulate in a residual buffer; `parse` yields at most one
/// complete frame per call, auto-detecting inline (telnet) and RESP
/// formats, and consumes nothing on an incomplete or malformed frame.
pub struct RespParser {
    buffer: bytes::BytesMut,
}

impl View for RespParser {
    type V = Seq<u8>;

    /// The residual bytes the parser holds.
    closed spec fn view(&self) -> Seq<u8> {
        buf_contents(self.buffer)
    }
}

impl RespParser {
    /// A parser with an empty residual buffer.
    pub fn new() -> (r: Self)
        ensures
            r@ == Seq::<u8>::empty(),
    {
        RespParser { buffer: buf_new() }
    }

    /// Add incoming bytes to the parser buffer; never fails.
    pub fn add_data(&mut self, data: &[u8])
        ensures
            final(self)@ == old(self)@ + data@,
    {
        buf_extend(&mut self.buffer, data);
    }

    /// Reset the parser buffer to recover from a malformed frame.
    pub fn reset(&mut self)
        ensures
            final(self)@ == Seq::<u8>::empty(),
    {
        buf_clear(&mut self.buffer);
    }

    /// Parse the next complete frame, or report that more bytes are needed
    /// (`Ok(None)`), or that the buffer's head is malformed (`Err`). Bytes
    /// are consumed only when a frame is returned: an incomplete or
    /// malformed buffer is left exactly as it was.
    pub fn parse(&mut self) -> (r: Result<Option<RespValue>, ProtocolError>)
        ensures
            match next_spec(old(self)@) {
                SpecParse::Done(m, c) => r matches Ok(v) && v matches Some(f) && f@ == m
                    && final(self)@ == old(self)@.skip(c),
                SpecParse::Incomplete => r matches Ok(v) && v is None
                    && final(self)@ == old(self)@,
                SpecParse::Malformed(e) => r matches Err(e2) && e2 == e
                    && final(self)@ == old(self)@,
            },
    {
        let outcome = {
            let s = buf_as_slice(&self.buffer);
            if s.len() == 0 {
                ParseOutcome::Incomplete
            } else {
                let first = s[0];
                if first == PLUS || first == MINUS || first == COLON || first == DOLLAR
                    || first == STAR || first == UNDERSCORE || first == HASH || first == COMMA
                    || first == TILDE || first == PERCENT {
                    parse_frame_at(s, 0)
                } else {
                    match crate::inline::InlineParser::parse(s) {
                        Ok(Some(frame)) => {
                            let consumed = crate::inline::InlineParser::bytes_consumed(s);
                            ParseOutcome::Frame(frame, consumed)
                        },
                        Ok(None) => ParseOutcome::Incomplete,
                        Err(e) => ParseOutcome::Malformed(e),
                    }
                }
            }
        };
        match outcome {
            ParseOutcome::Frame(frame, consumed) => {
                buf_advance(&mut self.buffer, consumed);
                Ok(Some(frame))
            },
            ParseOutcome::Incomplete => Ok(None),
            ParseOutcome::Malformed(e) => Err(e),
        }
    }
}

} // verus!
