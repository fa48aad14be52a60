//! Inline (telnet-style) command parsing.
//!
//! An inline command is one CRLF-terminated line, tokenized on ASCII
//! whitespace, with double-quoted tokens and the escapes `\n \r \t \" \\`
//! recognized inside quotes. The token list is promoted to an array of
//! bulk strings so dispatch is format-agnostic.

use vstd::prelude::*;
use crate::ascii::{QUOTE, SPACE, TAB, BACKSLASH, CR, LF};
use crate::frame::{RespValue, FrameModel, frames_view, lemma_frames_view};
use crate::resp::{ProtocolError, SpecParse, spec_find_crlf};

verus! {

broadcast use vstd::std_specs::vec::group_vec_axioms;

/// One step of escape translation: what one escaped character appends.
pub open spec fn escape_of(n: u8) -> Seq<u8> {
    if n == 110 {
        seq![LF]
    } else if n == 114 {
        seq![CR]
    } else if n == 116 {
        seq![TAB]
    } else if n == QUOTE {
        seq![QUOTE]
    } else if n == BACKSLASH {
        seq![BACKSLASH]
    } else {
        seq![BACKSLASH, n]
    }
}

/// The tokenizer as a state machine over the line: position, quote state,
/// the token being built, and the tokens finished so far. `None` means an
/// unclosed quote.
pub open spec fn tok_spec(line: Seq<u8>, i: int, in_q: bool, cur: Seq<u8>, acc: Seq<Seq<u8>>)
    -> Option<Seq<Seq<u8>>>
    decreases line.len() - i,
{
    if i < 0 {
        None
    } else if i >= line.len() {
        if in_q {
            None
        } else if cur.len() > 0 {
            Some(acc.push(cur))
        } else {
            Some(acc)
        }
    } else {
        let c = line[i];
        if c == QUOTE {
            tok_spec(line, i + 1, !in_q, cur, acc)
        } else if !in_q && (c == SPACE || c == TAB) {
            if cur.len() > 0 {
                tok_spec(line, i + 1, false, Seq::empty(), acc.push(cur))
            } else {
                tok_spec(line, i + 1, false, cur, acc)
            }
        } else if in_q && c == BACKSLASH {
            if i + 1 < line.len() {
                tok_spec(line, i + 2, true, cur + escape_of(line[i + 1]), acc)
            } else {
                None
            }
        } else {
            tok_spec(line, i + 1, in_q, cur.push(c), acc)
        }
    }
}

/// The tokens of a whole line, or `None` on an unclosed quote.
pub open spec fn tokenize_spec(line: Seq<u8>) -> Option<Seq<Seq<u8>>> {
    tok_spec(line, 0, false, Seq::empty(), Seq::empty())
}

/// Each token as a bulk-string frame.
pub open spec fn bulks_of(ts: Seq<Seq<u8>>) -> Seq<FrameModel> {
    ts.map_values(|t: Seq<u8>| FrameModel::BulkString(Some(t)))
}

/// What one `next()` call yields on an inline buffer: incomplete without a
/// CRLF or on a blank line (which is not consumed), malformed on an
/// unclosed quote, else the tokens as an array of bulk strings.
pub open spec fn inline_spec(buf: Seq<u8>) -> SpecParse {
    match spec_find_crlf(buf, 0) {
        None => SpecParse::Incomplete,
        Some(e) => match tokenize_spec(buf.take(e)) {
            None => SpecParse::Malformed(ProtocolError::UnclosedQuote),
            Some(ts) => if ts.len() == 0 {
                SpecParse::Incomplete
            } else {
                SpecParse::Done(FrameModel::Array(Some(bulks_of(ts))), e + 2)
            },
        },
    }
}

/// Parser for inline (telnet-style) commands.
pub struct InlineParser;

impl InlineParser {
    /// Tokenize one line, handling quoted strings and escapes.
    pub fn parse_command_line(line: &[u8]) -> (r: Result<Vec<Vec<u8>>, ProtocolError>)
        ensures
            match tokenize_spec(line@) {
                Some(ts) => r matches Ok(v) && v.deep_view() == ts,
                None => r == Err::<Vec<Vec<u8>>, ProtocolError>(ProtocolError::UnclosedQuote),
            },
    {
        let n = line.len();
        let mut acc: Vec<Vec<u8>> = Vec::new();
        let mut cur: Vec<u8> = Vec::new();
        let mut in_q = false;
        let mut i: usize = 0;
        proof {
            assert(acc.deep_view() =~= Seq::<Seq<u8>>::empty());
            assert(cur@ =~= Seq::<u8>::empty());
        }
        while i < n
            invariant
                i <= n,
                n == line@.len(),
                tokenize_spec(line@) == tok_spec(line@, i as int, in_q, cur@, acc.deep_view()),
            decreases n - i,
        {
            let c = line[i];
            if c == QUOTE {
                in_q = !in_q;
                i = i + 1;
            } else if !in_q && (c == SPACE || c == TAB) {
                if cur.len() > 0 {
                    let ghost old_acc = acc.deep_view();
                    let ghost done_view = cur@;
                    let done = cur;
                    cur = Vec::new();
                    acc.push(done);
                    proof {
                        assert(acc.deep_view() =~~= old_acc.push(done_view));
                    }
                }
                i = i + 1;
            } else if in_q && c == BACKSLASH {
                if i + 1 < n {
                    let e = line[i + 1];
                    let ghost old_cur = cur@;
                    if e == 110 {
                        cur.push(LF);
                    } else if e == 114 {
                        cur.push(CR);
                    } else if e == 116 {
                        cur.push(TAB);
                    } else if e == QUOTE {
                        cur.push(QUOTE);
                    } else if e == BACKSLASH {
                        cur.push(BACKSLASH);
                    } else {
                        cur.push(BACKSLASH);
                        cur.push(e);
                    }
                    proof {
                        assert(cur@ =~= old_cur + escape_of(line@[i + 1]));
                    }
                    i = i + 2;
                } else {
                    proof {
                        assert(tok_spec(line@, i as int, in_q, cur@, acc.deep_view()) is None);
                    }
                    return Err(ProtocolError::UnclosedQuote);
                }
            } else {
                cur.push(c);
                i = i + 1;
            }
        }
        if in_q {
            return Err(ProtocolError::UnclosedQuote);
        }
        if cur.len() > 0 {
            let ghost old_acc = acc.deep_view();
            let ghost done_view = cur@;
            acc.push(cur);
            proof {
                assert(acc.deep_view() =~~= old_acc.push(done_view));
            }
        }
        Ok(acc)
    }

    /// Parse one inline command: `None` without a full line or on a blank
    /// line, the array-of-bulk-strings frame otherwise. Nothing is consumed;
    /// `bytes_consumed` says how far a successful parse reached.
    pub fn parse(buffer: &[u8]) -> (r: Result<Option<RespValue>, ProtocolError>)
        ensures
            match inline_spec(buffer@) {
                SpecParse::Done(m, c) => r matches Ok(v) && v matches Some(f) && f@ == m,
                SpecParse::Incomplete => r matches Ok(v) && v is None,
                SpecParse::Malformed(e) => r == Err::<Option<RespValue>, ProtocolError>(e),
            },
    {
        let end = match crate::resp::find_crlf(buffer, 0) {
            Some(e) => e,
            None => {
                return Ok(None);
            },
        };
        let line = crate::resp::extract(buffer, 0, end);
        proof {
            assert(line@ =~= buffer@.take(end as int));
        }
        let tokens = match Self::parse_command_line(line.as_slice()) {
            Ok(ts) => ts,
            Err(e) => {
                return Err(e);
            },
        };
        if tokens.len() == 0 {
            return Ok(None);
        }
        let ghost ts = tokens.deep_view();
        let mut parts: Vec<RespValue> = Vec::new();
        let count = tokens.len();
        let mut k: usize = 0;
        while k < count
            invariant
                k <= count,
                count == tokens@.len(),
                ts == tokens.deep_view(),
                ts.len() == count,
                parts@.len() == k,
                forall|j: int| 0 <= j < k ==>
                    #[trigger] parts@[j]@ == FrameModel::BulkString(Some(ts[j])),
            decreases count - k,
        {
            let tok = crate::resp::copy_bytes(&tokens[k]);
            proof {
                assert(tokens@[k as int].deep_view() == ts[k as int]);
                assert(tokens@[k as int].deep_view() =~= tokens@[k as int]@);
            }
            parts.push(RespValue::BulkString(Some(tok)));
            k = k + 1;
        }
        proof {
            lemma_frames_view(parts@);
            assert(frames_view(parts@) =~= bulks_of(ts));
        }
        Ok(Some(RespValue::Array(Some(parts))))
    }

    /// The number of bytes a successful inline parse consumes: the position
    /// after the first CRLF, or 0 while the command is incomplete.
    pub fn bytes_consumed(buffer: &[u8]) -> (r: usize)
        ensures
            r as int == match spec_find_crlf(buffer@, 0) {
                Some(e) => e + 2,
                None => 0,
            },
            r <= buffer@.len(),
    {
        let n = buffer.len();
        match crate::resp::find_crlf(buffer, 0) {
            Some(pos) => {
                proof {
                    assert(pos + 2 <= n);
                }
                pos + 2
            },
            None => 0,
        }
    }
}

} // verus!
