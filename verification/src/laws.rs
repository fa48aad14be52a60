//! Codec laws: the deterministic encoding and the incremental parser agree.
//!
//! The three public theorems say that decoding inverts encoding for every
//! valid frame (nulls included, distinctly from their empty counterparts),
//! that any byte-wise split of two concatenated encodings yields the two
//! frames in order, and that a reset followed by a well-formed frame yields
//! that frame.

use vstd::prelude::*;
use crate::ascii::{PLUS, MINUS, COLON, DOLLAR, STAR, UNDERSCORE, HASH, COMMA, TILDE, PERCENT, CR,
    LF, LOWER_T, LOWER_F};
use crate::detector::is_resp_type_byte;
use crate::frame::{FrameModel, encode_spec, encode_items, encode_pairs, crlf, enc_line,
    valid_frame, valid_items, valid_pairs, no_crlf_in};
use crate::numtext::{spec_fmt_nat, spec_fmt_int, lemma_fmt_nat_digits, lemma_fmt_parse_int,
    all_digits, is_digit, is_i64_text, int_text_val};
use crate::resp::{SpecParse, SpecItems, SpecPairs, parse_frame_spec, parse_items_spec,
    parse_pairs_spec, spec_find_crlf, lemma_find_crlf_hit, lemma_find_crlf_miss, next_spec};

verus! {

/// Bytes of a region equal the encoding, index by index.
proof fn lemma_region_index(b: Seq<u8>, pos: int, e: Seq<u8>)
    requires
        0 <= pos,
        pos + e.len() <= b.len(),
        b.subrange(pos, pos + e.len()) == e,
    ensures
        forall|j: int| 0 <= j < e.len() ==> b[pos + j] == #[trigger] e[j],
{
    assert forall|j: int| 0 <= j < e.len() implies b[pos + j] == #[trigger] e[j] by {
        assert(b.subrange(pos, pos + e.len())[j] == e[j]);
    }
}

/// Digit strings hold no CR or LF.
proof fn lemma_no_crlf_digits(s: Seq<u8>)
    requires
        all_digits(s),
    ensures
        no_crlf_in(s),
{
    assert forall|i: int| 0 <= i < s.len() - 1 implies !(#[trigger] s[i] == CR && s[i + 1] == LF)
        by {
        assert(is_digit(s[i]));
    }
}

/// Formatted integers hold no CRLF pair.
proof fn lemma_no_crlf_fmt_int(n: int)
    ensures
        no_crlf_in(spec_fmt_int(n)),
{
    if n >= 0 {
        lemma_fmt_nat_digits(n as nat);
        lemma_no_crlf_digits(spec_fmt_int(n));
    } else {
        lemma_fmt_nat_digits((-n) as nat);
        let d = spec_fmt_nat((-n) as nat);
        let s = spec_fmt_int(n);
        assert forall|i: int| 0 <= i < s.len() - 1 implies !(#[trigger] s[i] == CR
            && s[i + 1] == LF) by {
            if i > 0 {
                assert(s[i] == d[i - 1]);
                assert(is_digit(d[i - 1]));
            } else {
                assert(s[0] == MINUS);
            }
        }
    }
}

/// Every encoding is at least three bytes and starts with its type byte.
proof fn lemma_encode_head(f: FrameModel)
    ensures
        encode_spec(f).len() >= 3,
        is_resp_type_byte(encode_spec(f)[0]),
{
    match f {
        FrameModel::SimpleString(s) => {
            assert(encode_spec(f)[0] == PLUS);
        },
        FrameModel::Error(s) => {
            assert(encode_spec(f)[0] == MINUS);
        },
        FrameModel::Integer(n) => {
            lemma_fmt_nat_digits(if n >= 0 {
                n as nat
            } else {
                (-(n as int)) as nat
            });
            assert(encode_spec(f)[0] == COLON);
        },
        FrameModel::BulkString(None) => {
            lemma_fmt_nat_digits(1);
            assert(encode_spec(f)[0] == DOLLAR);
        },
        FrameModel::BulkString(Some(d)) => {
            lemma_fmt_nat_digits(d.len());
            assert(encode_spec(f)[0] == DOLLAR);
        },
        FrameModel::Array(None) => {
            lemma_fmt_nat_digits(1);
            assert(encode_spec(f)[0] == STAR);
        },
        FrameModel::Array(Some(items)) => {
            lemma_fmt_nat_digits(items.len());
            assert(encode_spec(f)[0] == STAR);
        },
        FrameModel::Null => {
            assert(encode_spec(f)[0] == UNDERSCORE);
        },
        FrameModel::Boolean(v) => {
            assert(encode_spec(f)[0] == HASH);
        },
        FrameModel::Double(t) => {
            assert(encode_spec(f)[0] == COMMA);
        },
        FrameModel::SetValue(items) => {
            lemma_fmt_nat_digits(items.len());
            assert(encode_spec(f)[0] == TILDE);
        },
        FrameModel::MapValue(pairs) => {
            lemma_fmt_nat_digits(pairs.len());
            assert(encode_spec(f)[0] == PERCENT);
        },
    }
}

/// In a region holding `body` then CRLF, with no CRLF pair inside `body`,
/// the first CRLF at or after the region's start is the terminator.
proof fn lemma_line_crlf(b: Seq<u8>, start: int, body: Seq<u8>)
    requires
        0 <= start,
        start + body.len() + 2 <= b.len(),
        forall|j: int| 0 <= j < body.len() ==> b[start + j] == #[trigger] body[j],
        b[start + body.len()] == CR,
        b[start + body.len() + 1] == LF,
        no_crlf_in(body),
    ensures
        spec_find_crlf(b, start) == Some(start + body.len()),
{
    let tgt = start + body.len();
    assert forall|k: int| start <= k < tgt implies !(#[trigger] b[k] == CR && b[k + 1] == LF) by {
        if k - start < body.len() - 1 {
            assert(b[k] == body[k - start]);
            assert(b[k + 1] == body[k - start + 1]);
        } else {
            assert(b[k + 1] == CR);
        }
    }
    lemma_find_crlf_hit(b, start, tgt);
}

/// In a buffer that ends inside `body` or its CR, there is no CRLF at or
/// after the region's start.
proof fn lemma_line_crlf_prefix(b: Seq<u8>, start: int, body: Seq<u8>)
    requires
        0 <= start <= b.len(),
        b.len() - start <= body.len() + 1,
        forall|j: int| 0 <= j < b.len() - start ==> b[start + j] == #[trigger] (body
            + crlf())[j],
        no_crlf_in(body),
    ensures
        spec_find_crlf(b, start) is None,
{
    assert forall|k: int| start <= k && k + 2 <= b.len() implies !(#[trigger] b[k] == CR
        && b[k + 1] == LF) by {
        let j = k - start;
        assert(b[k] == (body + crlf())[j]);
        assert(b[k + 1] == (body + crlf())[j + 1]);
        if j + 1 < body.len() {
            assert((body + crlf())[j] == body[j]);
            assert((body + crlf())[j + 1] == body[j + 1]);
        } else {
            assert(j + 1 == body.len());
            assert((body + crlf())[j + 1] == CR);
        }
    }
    lemma_find_crlf_miss(b, start);
}

/// Decoding inverts encoding: a valid frame's encoding at `pos`, with
/// anything after it, parses back to exactly that frame.
#[verifier::rlimit(80)]
pub proof fn lemma_parse_encode(b: Seq<u8>, pos: int, f: FrameModel)
    requires
        valid_frame(f),
        0 <= pos,
        pos + encode_spec(f).len() <= b.len(),
        b.subrange(pos, pos + encode_spec(f).len()) == encode_spec(f),
    ensures
        parse_frame_spec(b, pos) == SpecParse::Done(f, encode_spec(f).len() as int),
    decreases f, 1int, 0int,
{
    let e = encode_spec(f);
    lemma_region_index(b, pos, e);
    lemma_encode_head(f);
    match f {
        FrameModel::SimpleString(s) => {
            lemma_line_body(b, pos, PLUS, s);
        },
        FrameModel::Error(s) => {
            lemma_line_body(b, pos, MINUS, s);
        },
        FrameModel::Integer(n) => {
            let body = spec_fmt_int(n as int);
            lemma_fmt_parse_int(n as int);
            lemma_no_crlf_fmt_int(n as int);
            lemma_line_body(b, pos, COLON, body);
            assert(int_text_val(body) as i64 == n);
        },
        FrameModel::Null => {
            lemma_line_body(b, pos, UNDERSCORE, Seq::empty());
        },
        FrameModel::Boolean(v) => {
            let body = seq![if v { LOWER_T } else { LOWER_F }];
            assert(e =~= seq![HASH] + body + crlf());
            lemma_line_body(b, pos, HASH, body);
            if v {
                assert(b.subrange(pos + 1, pos + 2) == seq![LOWER_T]);
            } else {
                assert(b.subrange(pos + 1, pos + 2) == seq![LOWER_F]);
                assert(seq![LOWER_F] != seq![LOWER_T]) by {
                    assert(seq![LOWER_F][0] != seq![LOWER_T][0]);
                }
            }
        },
        FrameModel::Double(t) => {
            lemma_line_body(b, pos, COMMA, t);
        },
        FrameModel::BulkString(None) => {
            let body = spec_fmt_int(-1);
            lemma_fmt_parse_int(-1);
            lemma_no_crlf_fmt_int(-1);
            lemma_line_body(b, pos, DOLLAR, body);
        },
        FrameModel::BulkString(Some(d)) => {
            let fmt = spec_fmt_nat(d.len());
            lemma_fmt_parse_int(d.len() as int);
            lemma_no_crlf_fmt_int(d.len() as int);
            assert(spec_fmt_int(d.len() as int) == fmt);
            let head = enc_line(DOLLAR, fmt);
            assert(e == head + (d + crlf()));
            assert(head.len() == 3 + fmt.len());
            assert forall|j: int| 0 <= j < fmt.len() + 3 implies b[pos + j]
                == #[trigger] (seq![DOLLAR] + fmt + crlf())[j] by {
                assert(b[pos + j] == e[j]);
                assert(e[j] == head[j]);
            }
            lemma_line_body_open(b, pos, DOLLAR, fmt, d + crlf());
            let ep = pos + 1 + fmt.len();
            let d0 = ep + 2;
            assert(b.subrange(pos + 1, ep) == fmt);
            assert(is_i64_text(fmt) && int_text_val(fmt) == d.len());
            assert forall|j: int| 0 <= j < d.len() + 2 implies b[d0 + j] == #[trigger] (d
                + crlf())[j] by {
                assert(b[pos + (head.len() + j)] == e[head.len() + j]);
                assert(e[head.len() + j] == (d + crlf())[j]);
            }
            assert forall|j: int| 0 <= j < d.len() implies b.subrange(d0, d0 + d.len())[j]
                == #[trigger] d[j] by {
                assert(b[d0 + j] == (d + crlf())[j]);
                assert((d + crlf())[j] == d[j]);
            }
            assert(b.subrange(d0, d0 + d.len()) =~= d);
            assert(b[d0 + d.len()] == CR) by {
                assert((d + crlf())[d.len() as int] == CR);
            }
            assert(b[d0 + d.len() + 1] == LF) by {
                assert((d + crlf())[d.len() as int + 1] == LF);
            }
            assert(d0 + d.len() + 2 - pos == e.len());
        },
        FrameModel::Array(None) => {
            let body = spec_fmt_int(-1);
            lemma_fmt_parse_int(-1);
            lemma_no_crlf_fmt_int(-1);
            lemma_line_body(b, pos, STAR, body);
        },
        FrameModel::Array(Some(items)) => {
            lemma_counted(b, pos, f, STAR, items);
        },
        FrameModel::SetValue(items) => {
            lemma_counted(b, pos, f, TILDE, items);
        },
        FrameModel::MapValue(pairs) => {
            let fmt = spec_fmt_nat(pairs.len());
            lemma_fmt_parse_int(pairs.len() as int);
            lemma_no_crlf_fmt_int(pairs.len() as int);
            assert(spec_fmt_int(pairs.len() as int) == fmt);
            let tail = encode_pairs(pairs, 0);
            let head = enc_line(PERCENT, fmt);
            assert(e == head + tail);
            assert(head.len() == 3 + fmt.len());
            assert forall|j: int| 0 <= j < fmt.len() + 3 implies b[pos + j]
                == #[trigger] (seq![PERCENT] + fmt + crlf())[j] by {
                assert(b[pos + j] == e[j]);
                assert(e[j] == head[j]);
            }
            lemma_line_body_open(b, pos, PERCENT, fmt, tail);
            let ep = pos + 1 + fmt.len();
            let d0 = ep + 2;
            assert(b.subrange(pos + 1, ep) == fmt);
            assert forall|j: int| 0 <= j < tail.len() implies b[d0 + j] == #[trigger] tail[j] by {
                assert(b[pos + (head.len() + j)] == e[head.len() + j]);
                assert(e[head.len() + j] == tail[j]);
            }
            assert(b.subrange(d0, d0 + tail.len()) =~= tail);
            lemma_parse_pairs_encode(b, d0, pairs, 0);
            assert(pairs.skip(0) =~= pairs);
            assert(e.len() == 1 + fmt.len() + 2 + tail.len());
        },
    }
}

/// The shared header step for counted frames over plain items.
proof fn lemma_counted(b: Seq<u8>, pos: int, f: FrameModel, t: u8, items: Seq<FrameModel>)
    requires
        valid_frame(f),
        t == STAR ==> f == FrameModel::Array(Some(items)),
        t == TILDE ==> f == FrameModel::SetValue(items),
        t == STAR || t == TILDE,
        0 <= pos,
        pos + encode_spec(f).len() <= b.len(),
        b.subrange(pos, pos + encode_spec(f).len()) == encode_spec(f),
    ensures
        parse_frame_spec(b, pos) == SpecParse::Done(f, encode_spec(f).len() as int),
    decreases f, 0int, 0int,
{
    let e = encode_spec(f);
    lemma_region_index(b, pos, e);
    let fmt = spec_fmt_nat(items.len());
    lemma_fmt_parse_int(items.len() as int);
    lemma_no_crlf_fmt_int(items.len() as int);
    assert(spec_fmt_int(items.len() as int) == fmt);
    let tail = encode_items(items, 0);
    let head = enc_line(t, fmt);
    assert(e == head + tail);
    assert(head.len() == 3 + fmt.len());
    assert forall|j: int| 0 <= j < fmt.len() + 3 implies b[pos + j]
        == #[trigger] (seq![t] + fmt + crlf())[j] by {
        assert(b[pos + j] == e[j]);
        assert(e[j] == head[j]);
    }
    lemma_line_body_open(b, pos, t, fmt, tail);
    let ep = pos + 1 + fmt.len();
    let d0 = ep + 2;
    assert(b.subrange(pos + 1, ep) == fmt);
    assert forall|j: int| 0 <= j < tail.len() implies b[d0 + j] == #[trigger] tail[j] by {
        assert(b[pos + (head.len() + j)] == e[head.len() + j]);
        assert(e[head.len() + j] == tail[j]);
    }
    assert(b.subrange(d0, d0 + tail.len()) =~= tail);
    lemma_parse_items_encode(b, d0, items, 0);
    assert(items.skip(0) =~= items);
    assert(e.len() == 1 + fmt.len() + 2 + tail.len());
}

/// Locate the line terminator and identify the line body of a frame whose
/// encoding is `[t] + body + CRLF` at `pos`.
proof fn lemma_line_body(b: Seq<u8>, pos: int, t: u8, body: Seq<u8>)
    requires
        0 <= pos,
        pos + body.len() + 3 <= b.len(),
        forall|j: int| 0 <= j < body.len() + 3 ==> b[pos + j] == #[trigger] (seq![t] + body
            + crlf())[j],
        no_crlf_in(body),
    ensures
        spec_find_crlf(b, pos + 1) == Some(pos + 1 + body.len()),
        b.subrange(pos + 1, pos + 1 + body.len()) == body,
        b[pos] == t,
{
    lemma_line_body_open(b, pos, t, body, Seq::empty());
}

/// As `lemma_line_body`, for an encoding `[t] + body + CRLF + tail`.
proof fn lemma_line_body_open(b: Seq<u8>, pos: int, t: u8, body: Seq<u8>, tail: Seq<u8>)
    requires
        0 <= pos,
        pos + body.len() + 3 <= b.len(),
        forall|j: int| 0 <= j < body.len() + 3 ==> b[pos + j] == #[trigger] (seq![t] + body
            + crlf())[j],
        no_crlf_in(body),
    ensures
        spec_find_crlf(b, pos + 1) == Some(pos + 1 + body.len()),
        b.subrange(pos + 1, pos + 1 + body.len()) == body,
        b[pos] == t,
{
    let e = seq![t] + body + crlf();
    assert(b[pos] == e[0]);
    assert(e[0] == t);
    assert forall|j: int| 0 <= j < body.len() implies b[pos + 1 + j] == #[trigger] body[j] by {
        assert(b[pos + 1 + j] == e[1 + j]);
        assert(e[1 + j] == body[j]);
    }
    assert(b[pos + 1 + body.len()] == CR) by {
        assert(e[1 + body.len() as int] == CR);
    }
    assert(b[pos + 1 + body.len() + 1] == LF) by {
        assert(e[1 + body.len() as int + 1] == LF);
    }
    lemma_line_crlf(b, pos + 1, body);
    assert(b.subrange(pos + 1, pos + 1 + body.len()) =~= body);
}

/// Decoding inverts encoding for a run of items.
proof fn lemma_parse_items_encode(b: Seq<u8>, pos: int, items: Seq<FrameModel>, i: int)
    requires
        0 <= i <= items.len(),
        valid_items(items, i),
        0 <= pos,
        pos + encode_items(items, i).len() <= b.len(),
        b.subrange(pos, pos + encode_items(items, i).len()) == encode_items(items, i),
    ensures
        parse_items_spec(b, pos, items.len() - i) == SpecItems::Done(
            items.skip(i),
            encode_items(items, i).len() as int,
        ),
    decreases items, 0int, items.len() - i,
{
    if i == items.len() {
        assert(items.skip(i) =~= Seq::<FrameModel>::empty());
    } else {
        let child = items[i];
        let ce = encode_spec(child);
        let rest = encode_items(items, i + 1);
        let whole = encode_items(items, i);
        assert(whole == ce + rest);
        lemma_region_index(b, pos, whole);
        assert(b.subrange(pos, pos + ce.len()) =~= ce) by {
            assert forall|j: int| 0 <= j < ce.len() implies b[pos + j] == #[trigger] ce[j] by {
                assert(b[pos + j] == whole[j]);
                assert(whole[j] == ce[j]);
            }
        }
        lemma_parse_encode(b, pos, child);
        lemma_encode_head(child);
        let p2 = pos + ce.len();
        assert(b.subrange(p2, p2 + rest.len()) =~= rest) by {
            assert forall|j: int| 0 <= j < rest.len() implies b[p2 + j] == #[trigger] rest[j] by {
                assert(b[pos + (ce.len() + j)] == whole[ce.len() + j]);
                assert(whole[ce.len() + j] == rest[j]);
            }
        }
        lemma_parse_items_encode(b, p2, items, i + 1);
        assert(seq![child] + items.skip(i + 1) =~= items.skip(i));
    }
}

/// Decoding inverts encoding for a run of key-value pairs.
proof fn lemma_parse_pairs_encode(b: Seq<u8>, pos: int, pairs: Seq<(FrameModel, FrameModel)>,
    i: int)
    requires
        0 <= i <= pairs.len(),
        valid_pairs(pairs, i),
        0 <= pos,
        pos + encode_pairs(pairs, i).len() <= b.len(),
        b.subrange(pos, pos + encode_pairs(pairs, i).len()) == encode_pairs(pairs, i),
    ensures
        parse_pairs_spec(b, pos, pairs.len() - i) == SpecPairs::Done(
            pairs.skip(i),
            encode_pairs(pairs, i).len() as int,
        ),
    decreases pairs, 0int, pairs.len() - i,
{
    if i == pairs.len() {
        assert(pairs.skip(i) =~= Seq::<(FrameModel, FrameModel)>::empty());
    } else {
        let kf = pairs[i].0;
        let vf = pairs[i].1;
        let ke = encode_spec(kf);
        let ve = encode_spec(vf);
        let rest = encode_pairs(pairs, i + 1);
        let whole = encode_pairs(pairs, i);
        assert(whole == ke + ve + rest);
        lemma_region_index(b, pos, whole);
        assert(b.subrange(pos, pos + ke.len()) =~= ke) by {
            assert forall|j: int| 0 <= j < ke.len() implies b[pos + j] == #[trigger] ke[j] by {
                assert(b[pos + j] == whole[j]);
                assert(whole[j] == (ke + ve)[j]);
            }
        }
        lemma_parse_encode(b, pos, kf);
        lemma_encode_head(kf);
        let pv = pos + ke.len();
        assert(b.subrange(pv, pv + ve.len()) =~= ve) by {
            assert forall|j: int| 0 <= j < ve.len() implies b[pv + j] == #[trigger] ve[j] by {
                assert(b[pos + (ke.len() + j)] == whole[ke.len() + j]);
                assert(whole[ke.len() + j] == (ke + ve)[ke.len() + j]);
                assert((ke + ve)[ke.len() + j] == ve[j]);
            }
        }
        lemma_parse_encode(b, pv, vf);
        lemma_encode_head(vf);
        let p2 = pv + ve.len();
        assert(b.subrange(p2, p2 + rest.len()) =~= rest) by {
            assert forall|j: int| 0 <= j < rest.len() implies b[p2 + j] == #[trigger] rest[j] by {
                assert(b[pos + (ke.len() + ve.len() + j)] == whole[ke.len() + ve.len() + j]);
                assert(whole[ke.len() + ve.len() + j] == rest[j]);
            }
        }
        lemma_parse_pairs_encode(b, p2, pairs, i + 1);
        assert(seq![(kf, vf)] + pairs.skip(i + 1) =~= pairs.skip(i));
    }
}

/// A buffer that ends with a proper prefix of a valid frame's encoding
/// parses as incomplete: nothing is misread and nothing is rejected.
#[verifier::rlimit(80)]
pub proof fn lemma_parse_prefix(b: Seq<u8>, pos: int, f: FrameModel)
    requires
        valid_frame(f),
        0 <= pos <= b.len(),
        b.len() < pos + encode_spec(f).len(),
        b.subrange(pos, b.len() as int) == encode_spec(f).take(b.len() - pos),
    ensures
        parse_frame_spec(b, pos) == SpecParse::Incomplete,
    decreases f, 1int, 0int,
{
    let e = encode_spec(f);
    let cut = b.len() - pos;
    assert forall|j: int| 0 <= j < cut implies b[pos + j] == #[trigger] e[j] by {
        assert(b.subrange(pos, b.len() as int)[j] == e.take(cut)[j]);
    }
    if cut == 0 {
    } else {
        lemma_encode_head(f);
        match f {
            FrameModel::SimpleString(s) => {
                lemma_line_prefix_case(b, pos, PLUS, s);
            },
            FrameModel::Error(s) => {
                lemma_line_prefix_case(b, pos, MINUS, s);
            },
            FrameModel::Integer(n) => {
                lemma_no_crlf_fmt_int(n as int);
                lemma_line_prefix_case(b, pos, COLON, spec_fmt_int(n as int));
            },
            FrameModel::Null => {
                lemma_line_prefix_case(b, pos, UNDERSCORE, Seq::empty());
            },
            FrameModel::Boolean(v) => {
                let body = seq![if v { LOWER_T } else { LOWER_F }];
                assert(e =~= seq![HASH] + body + crlf());
                lemma_line_prefix_case(b, pos, HASH, body);
            },
            FrameModel::Double(t) => {
                lemma_line_prefix_case(b, pos, COMMA, t);
            },
            FrameModel::BulkString(None) => {
                lemma_no_crlf_fmt_int(-1);
                lemma_line_prefix_case(b, pos, DOLLAR, spec_fmt_int(-1));
            },
            FrameModel::Array(None) => {
                lemma_no_crlf_fmt_int(-1);
                lemma_line_prefix_case(b, pos, STAR, spec_fmt_int(-1));
            },
            FrameModel::BulkString(Some(d)) => {
                let fmt = spec_fmt_nat(d.len());
                lemma_fmt_parse_int(d.len() as int);
                lemma_no_crlf_fmt_int(d.len() as int);
                assert(spec_fmt_int(d.len() as int) == fmt);
                let head = enc_line(DOLLAR, fmt);
                assert(e == head + (d + crlf()));
                assert(head.len() == 3 + fmt.len());
                if cut < head.len() {
                    assert forall|j: int| 0 <= j < cut - 1 implies b[pos + 1 + j]
                        == #[trigger] (fmt + crlf())[j] by {
                        assert(b[pos + 1 + j] == e[1 + j]);
                        assert(e[1 + j] == head[1 + j]);
                        assert(head[1 + j] == (fmt + crlf())[j]);
                    }
                    lemma_line_crlf_prefix(b, pos + 1, fmt);
                } else {
                    assert forall|j: int| 0 <= j < fmt.len() + 3 implies b[pos + j]
                        == #[trigger] (seq![DOLLAR] + fmt + crlf())[j] by {
                        assert(b[pos + j] == e[j]);
                        assert(e[j] == head[j]);
                    }
                    lemma_line_body_open(b, pos, DOLLAR, fmt, d + crlf());
                    assert(b.subrange(pos + 1, pos + 1 + fmt.len()) == fmt);
                    assert(pos + head.len() + d.len() + 2 > b.len());
                }
            },
            FrameModel::Array(Some(items)) => {
                lemma_counted_prefix(b, pos, f, STAR, items);
            },
            FrameModel::SetValue(items) => {
                lemma_counted_prefix(b, pos, f, TILDE, items);
            },
            FrameModel::MapValue(pairs) => {
                let fmt = spec_fmt_nat(pairs.len());
                lemma_fmt_parse_int(pairs.len() as int);
                lemma_no_crlf_fmt_int(pairs.len() as int);
                assert(spec_fmt_int(pairs.len() as int) == fmt);
                let tail = encode_pairs(pairs, 0);
                let head = enc_line(PERCENT, fmt);
                assert(e == head + tail);
                assert(head.len() == 3 + fmt.len());
                if cut < head.len() {
                    assert forall|j: int| 0 <= j < cut - 1 implies b[pos + 1 + j]
                        == #[trigger] (fmt + crlf())[j] by {
                        assert(b[pos + 1 + j] == e[1 + j]);
                        assert(e[1 + j] == head[1 + j]);
                        assert(head[1 + j] == (fmt + crlf())[j]);
                    }
                    lemma_line_crlf_prefix(b, pos + 1, fmt);
                } else {
                    assert forall|j: int| 0 <= j < fmt.len() + 3 implies b[pos + j]
                        == #[trigger] (seq![PERCENT] + fmt + crlf())[j] by {
                        assert(b[pos + j] == e[j]);
                        assert(e[j] == head[j]);
                    }
                    lemma_line_body_open(b, pos, PERCENT, fmt, tail);
                    assert(b.subrange(pos + 1, pos + 1 + fmt.len()) == fmt);
                    let d0 = pos + head.len();
                    assert forall|j: int| 0 <= j < b.len() - d0 implies b[d0 + j]
                        == #[trigger] tail[j] by {
                        assert(b[pos + (head.len() + j)] == e[head.len() + j]);
                        assert(e[head.len() + j] == tail[j]);
                    }
                    assert(b.subrange(d0, b.len() as int) =~= tail.take(b.len() - d0));
                    lemma_parse_pairs_prefix(b, d0, pairs, 0);
                }
            },
        }
    }
}

/// The line-frame case of `lemma_parse_prefix`: the truncated buffer holds
/// no CRLF, so the parser waits.
proof fn lemma_line_prefix_case(b: Seq<u8>, pos: int, t: u8, body: Seq<u8>)
    requires
        0 <= pos < b.len(),
        b.len() < pos + body.len() + 3,
        no_crlf_in(body),
        forall|j: int| 0 <= j < b.len() - pos ==> b[pos + j] == #[trigger] (seq![t] + body
            + crlf())[j],
    ensures
        spec_find_crlf(b, pos + 1) is None,
{
    assert forall|j: int| 0 <= j < b.len() - pos - 1 implies b[pos + 1 + j]
        == #[trigger] (body + crlf())[j] by {
        assert(b[pos + 1 + j] == (seq![t] + body + crlf())[1 + j]);
        assert((seq![t] + body + crlf())[1 + j] == (body + crlf())[j]);
    }
    lemma_line_crlf_prefix(b, pos + 1, body);
}

/// The counted-frame case of `lemma_parse_prefix` for arrays and sets.
proof fn lemma_counted_prefix(b: Seq<u8>, pos: int, f: FrameModel, t: u8, items: Seq<FrameModel>)
    requires
        valid_frame(f),
        t == STAR ==> f == FrameModel::Array(Some(items)),
        t == TILDE ==> f == FrameModel::SetValue(items),
        t == STAR || t == TILDE,
        0 <= pos < b.len(),
        b.len() < pos + encode_spec(f).len(),
        forall|j: int| 0 <= j < b.len() - pos ==> b[pos + j] == #[trigger] encode_spec(f)[j],
    ensures
        parse_frame_spec(b, pos) == SpecParse::Incomplete,
    decreases f, 0int, 0int,
{
    let e = encode_spec(f);
    let cut = b.len() - pos;
    let fmt = spec_fmt_nat(items.len());
    lemma_fmt_parse_int(items.len() as int);
    lemma_no_crlf_fmt_int(items.len() as int);
    assert(spec_fmt_int(items.len() as int) == fmt);
    let tail = encode_items(items, 0);
    let head = enc_line(t, fmt);
    assert(e == head + tail);
    assert(head.len() == 3 + fmt.len());
    if cut < head.len() {
        assert forall|j: int| 0 <= j < cut - 1 implies b[pos + 1 + j]
            == #[trigger] (fmt + crlf())[j] by {
            assert(b[pos + 1 + j] == e[1 + j]);
            assert(e[1 + j] == head[1 + j]);
            assert(head[1 + j] == (fmt + crlf())[j]);
        }
        lemma_line_crlf_prefix(b, pos + 1, fmt);
        assert(b[pos] == e[0]);
        assert(e[0] == t);
    } else {
        assert forall|j: int| 0 <= j < fmt.len() + 3 implies b[pos + j]
            == #[trigger] (seq![t] + fmt + crlf())[j] by {
            assert(b[pos + j] == e[j]);
            assert(e[j] == head[j]);
        }
        lemma_line_body_open(b, pos, t, fmt, tail);
        assert(b.subrange(pos + 1, pos + 1 + fmt.len()) == fmt);
        let d0 = pos + head.len();
        assert forall|j: int| 0 <= j < b.len() - d0 implies b[d0 + j] == #[trigger] tail[j] by {
            assert(b[pos + (head.len() + j)] == e[head.len() + j]);
            assert(e[head.len() + j] == tail[j]);
        }
        assert(b.subrange(d0, b.len() as int) =~= tail.take(b.len() - d0));
        lemma_parse_items_prefix(b, d0, items, 0);
    }
}

/// A buffer that ends with a proper prefix of a run of encoded items
/// parses as incomplete.
proof fn lemma_parse_items_prefix(b: Seq<u8>, pos: int, items: Seq<FrameModel>, i: int)
    requires
        0 <= i <= items.len(),
        valid_items(items, i),
        0 <= pos <= b.len(),
        b.len() - pos < encode_items(items, i).len(),
        b.subrange(pos, b.len() as int) == encode_items(items, i).take(b.len() - pos),
    ensures
        parse_items_spec(b, pos, items.len() - i) == SpecItems::Incomplete,
    decreases items, 0int, items.len() - i,
{
    let whole = encode_items(items, i);
    let cut = b.len() - pos;
    assert(i < items.len());
    assert forall|j: int| 0 <= j < cut implies b[pos + j] == #[trigger] whole[j] by {
        assert(b.subrange(pos, b.len() as int)[j] == whole.take(cut)[j]);
    }
    let child = items[i];
    let ce = encode_spec(child);
    let rest = encode_items(items, i + 1);
    assert(whole == ce + rest);
    lemma_encode_head(child);
    if cut < ce.len() {
        assert(b.subrange(pos, b.len() as int) =~= ce.take(cut)) by {
            assert forall|j: int| 0 <= j < cut implies b.subrange(pos, b.len() as int)[j]
                == #[trigger] ce.take(cut)[j] by {
                assert(b[pos + j] == whole[j]);
                assert(whole[j] == ce[j]);
            }
        }
        lemma_parse_prefix(b, pos, child);
    } else {
        assert(b.subrange(pos, pos + ce.len()) =~= ce) by {
            assert forall|j: int| 0 <= j < ce.len() implies b.subrange(pos, pos + ce.len())[j]
                == #[trigger] ce[j] by {
                assert(b[pos + j] == whole[j]);
                assert(whole[j] == ce[j]);
            }
        }
        lemma_parse_encode(b, pos, child);
        let p2 = pos + ce.len();
        assert(b.subrange(p2, b.len() as int) =~= rest.take(b.len() - p2)) by {
            assert forall|j: int| 0 <= j < b.len() - p2 implies b.subrange(p2, b.len() as int)[j]
                == #[trigger] rest.take(b.len() - p2)[j] by {
                assert(b[pos + (ce.len() + j)] == whole[ce.len() + j]);
                assert(whole[ce.len() + j] == rest[j]);
            }
        }
        lemma_parse_items_prefix(b, p2, items, i + 1);
    }
}

/// A buffer that ends with a proper prefix of a run of encoded pairs
/// parses as incomplete.
proof fn lemma_parse_pairs_prefix(b: Seq<u8>, pos: int, pairs: Seq<(FrameModel, FrameModel)>,
    i: int)
    requires
        0 <= i <= pairs.len(),
        valid_pairs(pairs, i),
        0 <= pos <= b.len(),
        b.len() - pos < encode_pairs(pairs, i).len(),
        b.subrange(pos, b.len() as int) == encode_pairs(pairs, i).take(b.len() - pos),
    ensures
        parse_pairs_spec(b, pos, pairs.len() - i) == SpecPairs::Incomplete,
    decreases pairs, 0int, pairs.len() - i,
{
    let whole = encode_pairs(pairs, i);
    let cut = b.len() - pos;
    assert(i < pairs.len());
    assert forall|j: int| 0 <= j < cut implies b[pos + j] == #[trigger] whole[j] by {
        assert(b.subrange(pos, b.len() as int)[j] == whole.take(cut)[j]);
    }
    let kf = pairs[i].0;
    let vf = pairs[i].1;
    let ke = encode_spec(kf);
    let ve = encode_spec(vf);
    let rest = encode_pairs(pairs, i + 1);
    assert(whole == ke + ve + rest);
    lemma_encode_head(kf);
    lemma_encode_head(vf);
    if cut < ke.len() {
        assert(b.subrange(pos, b.len() as int) =~= ke.take(cut)) by {
            assert forall|j: int| 0 <= j < cut implies b.subrange(pos, b.len() as int)[j]
                == #[trigger] ke.take(cut)[j] by {
                assert(b[pos + j] == whole[j]);
                assert(whole[j] == (ke + ve)[j]);
            }
        }
        lemma_parse_prefix(b, pos, kf);
    } else {
        assert(b.subrange(pos, pos + ke.len()) =~= ke) by {
            assert forall|j: int| 0 <= j < ke.len() implies b.subrange(pos, pos + ke.len())[j]
                == #[trigger] ke[j] by {
                assert(b[pos + j] == whole[j]);
                assert(whole[j] == (ke + ve)[j]);
            }
        }
        lemma_parse_encode(b, pos, kf);
        let pv = pos + ke.len();
        if cut < ke.len() + ve.len() {
            assert(b.subrange(pv, b.len() as int) =~= ve.take(b.len() - pv)) by {
                assert forall|j: int| 0 <= j < b.len() - pv implies b.subrange(pv,
                    b.len() as int)[j] == #[trigger] ve.take(b.len() - pv)[j] by {
                    assert(b[pos + (ke.len() + j)] == whole[ke.len() + j]);
                    assert(whole[ke.len() + j] == (ke + ve)[ke.len() + j]);
                    assert((ke + ve)[ke.len() + j] == ve[j]);
                }
            }
            lemma_parse_prefix(b, pv, vf);
        } else {
            assert(b.subrange(pv, pv + ve.len()) =~= ve) by {
                assert forall|j: int| 0 <= j < ve.len() implies b.subrange(pv, pv + ve.len())[j]
                    == #[trigger] ve[j] by {
                    assert(b[pos + (ke.len() + j)] == whole[ke.len() + j]);
                    assert(whole[ke.len() + j] == (ke + ve)[ke.len() + j]);
                    assert((ke + ve)[ke.len() + j] == ve[j]);
                }
            }
            lemma_parse_encode(b, pv, vf);
            let p2 = pv + ve.len();
            assert(b.subrange(p2, b.len() as int) =~= rest.take(b.len() - p2)) by {
                assert forall|j: int| 0 <= j < b.len() - p2 implies b.subrange(p2,
                    b.len() as int)[j] == #[trigger] rest.take(b.len() - p2)[j] by {
                    assert(b[pos + (ke.len() + ve.len() + j)] == whole[ke.len() + ve.len() + j]);
                    assert(whole[ke.len() + ve.len() + j] == rest[j]);
                }
            }
            lemma_parse_pairs_prefix(b, p2, pairs, i + 1);
        }
    }
}

/// Law: decoding inverts encoding. For every valid frame, the bytes of
/// its encoding followed by anything decode to exactly that frame,
/// consuming exactly the encoding. Null frames round-trip distinctly from
/// their empty counterparts because their encodings differ.
pub proof fn lemma_encode_decode(f: FrameModel, rest: Seq<u8>)
    requires
        valid_frame(f),
    ensures
        next_spec(encode_spec(f) + rest) == SpecParse::Done(f, encode_spec(f).len() as int),
{
    let e = encode_spec(f);
    let b = e + rest;
    lemma_encode_head(f);
    assert(b[0] == e[0]);
    assert(b.subrange(0, e.len() as int) =~= e);
    lemma_parse_encode(b, 0, f);
}

/// Law: two encoded frames, fed to the codec in any byte-wise split,
/// yield the two frames in order. With `parse`'s contract this covers the
/// whole exchange: while fewer bytes than the first encoding have arrived
/// the parser reports incomplete and consumes nothing; once they have, it
/// yields the first frame and leaves exactly the remainder, which behaves
/// the same way for the second frame.
pub proof fn lemma_split_feed(f1: FrameModel, f2: FrameModel, i: int)
    requires
        valid_frame(f1),
        valid_frame(f2),
        0 <= i <= encode_spec(f1).len() + encode_spec(f2).len(),
    ensures
        next_spec(encode_spec(f1) + encode_spec(f2)) == SpecParse::Done(
            f1,
            encode_spec(f1).len() as int,
        ),
        (encode_spec(f1) + encode_spec(f2)).skip(encode_spec(f1).len() as int)
            == encode_spec(f2),
        next_spec(encode_spec(f2)) == SpecParse::Done(f2, encode_spec(f2).len() as int),
        i < encode_spec(f1).len() ==> next_spec((encode_spec(f1) + encode_spec(f2)).take(i))
            == SpecParse::Incomplete,
        i >= encode_spec(f1).len() ==> next_spec((encode_spec(f1) + encode_spec(f2)).take(i))
            == SpecParse::Done(f1, encode_spec(f1).len() as int),
        i >= encode_spec(f1).len() ==> (encode_spec(f1) + encode_spec(f2)).take(i).skip(
            encode_spec(f1).len() as int,
        ) == encode_spec(f2).take(i - encode_spec(f1).len()),
        encode_spec(f1).len() <= i < encode_spec(f1).len() + encode_spec(f2).len()
            ==> next_spec(encode_spec(f2).take(i - encode_spec(f1).len()))
            == SpecParse::Incomplete,
{
    let s1 = encode_spec(f1);
    let s2 = encode_spec(f2);
    let s = s1 + s2;
    lemma_encode_head(f1);
    lemma_encode_head(f2);
    lemma_encode_decode(f1, s2);
    assert(s.skip(s1.len() as int) =~= s2);
    assert(s2 + Seq::<u8>::empty() =~= s2);
    lemma_encode_decode(f2, Seq::empty());
    if i < s1.len() {
        let p = s.take(i);
        assert(p =~= s1.take(i));
        if i > 0 {
            assert(p[0] == s1[0]);
            assert(p.subrange(0, p.len() as int) =~= s1.take(i));
            lemma_parse_prefix(p, 0, f1);
        }
    } else {
        let j = i - s1.len();
        let p = s.take(i);
        assert(p =~= s1 + s2.take(j));
        lemma_encode_decode(f1, s2.take(j));
        assert(p.skip(s1.len() as int) =~= s2.take(j));
        if j < s2.len() {
            let q = s2.take(j);
            if j > 0 {
                assert(q[0] == s2[0]);
                assert(q.subrange(0, q.len() as int) =~= s2.take(j));
                lemma_parse_prefix(q, 0, f2);
            }
        }
    }
}

/// Law: a malformed buffer, a reset, and a well-formed frame yield the
/// well-formed frame. `reset` leaves the buffer empty and `add_data`
/// appends, so after the reset the buffer is exactly the new encoding,
/// which decodes to the frame.
pub proof fn lemma_reset_recovery(bad: Seq<u8>, f: FrameModel)
    requires
        next_spec(bad) is Malformed,
        valid_frame(f),
    ensures
        next_spec(Seq::<u8>::empty() + encode_spec(f)) == SpecParse::Done(
            f,
            encode_spec(f).len() as int,
        ),
{
    assert(Seq::<u8>::empty() + encode_spec(f) =~= encode_spec(f) + Seq::<u8>::empty());
    lemma_encode_decode(f, Seq::empty());
}

} // verus!
