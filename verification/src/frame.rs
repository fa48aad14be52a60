//! RESP protocol frames: the value domain of the codec, its mathematical
//! model, and the deterministic wire encoding.

use vstd::prelude::*;
use crate::ascii::{PLUS, MINUS, COLON, DOLLAR, STAR, UNDERSCORE, HASH, COMMA, TILDE, PERCENT, CR, LF, LOWER_T, LOWER_F};
use crate::numtext::{spec_fmt_nat, spec_fmt_int};

verus! {

broadcast use vstd::std_specs::vec::group_vec_axioms;

/// A RESP2/RESP3 protocol frame.
///
/// Payloads are raw bytes: the wire protocol does not require UTF-8.
/// A double is carried as its validated textual form, exactly as it
/// stands on the wire.
#[derive(Debug)]
pub enum RespValue {
    /// `+` simple string
    SimpleString(Vec<u8>),
    /// `-` error string
    Error(Vec<u8>),
    /// `:` signed 64-bit integer
    Integer(i64),
    /// `$` bulk string; `None` is the null bulk string
    BulkString(Option<Vec<u8>>),
    /// `*` array; `None` is the null array
    Array(Option<Vec<RespValue>>),
    /// `_` null singleton
    Null,
    /// `#` boolean
    Boolean(bool),
    /// `,` double, carried as its wire text
    Double(Vec<u8>),
    /// `~` set
    SetValue(Vec<RespValue>),
    /// `%` map of key-value pairs
    MapValue(Vec<(RespValue, RespValue)>),
}

/// The mathematical model of a frame: the same sum, over `Seq<u8>`.
pub enum FrameModel {
    SimpleString(Seq<u8>),
    Error(Seq<u8>),
    Integer(i64),
    BulkString(Option<Seq<u8>>),
    Array(Option<Seq<FrameModel>>),
    Null,
    Boolean(bool),
    Double(Seq<u8>),
    SetValue(Seq<FrameModel>),
    MapValue(Seq<(FrameModel, FrameModel)>),
}

impl View for RespValue {
    type V = FrameModel;

    open spec fn view(&self) -> FrameModel
        decreases self,
    {
        match self {
            RespValue::SimpleString(s) => FrameModel::SimpleString(s@),
            RespValue::Error(s) => FrameModel::Error(s@),
            RespValue::Integer(n) => FrameModel::Integer(*n),
            RespValue::BulkString(None) => FrameModel::BulkString(None),
            RespValue::BulkString(Some(d)) => FrameModel::BulkString(Some(d@)),
            RespValue::Array(None) => FrameModel::Array(None),
            RespValue::Array(Some(a)) => FrameModel::Array(Some(frames_view(a@))),
            RespValue::Null => FrameModel::Null,
            RespValue::Boolean(b) => FrameModel::Boolean(*b),
            RespValue::Double(t) => FrameModel::Double(t@),
            RespValue::SetValue(a) => FrameModel::SetValue(frames_view(a@)),
            RespValue::MapValue(p) => FrameModel::MapValue(pairs_view(p@)),
        }
    }
}

/// The models of a sequence of frames, in order.
pub open spec fn frames_view(s: Seq<RespValue>) -> Seq<FrameModel>
    decreases s,
{
    if s.len() == 0 {
        Seq::empty()
    } else {
        seq![s[0]@] + frames_view(s.subrange(1, s.len() as int))
    }
}

/// The models of a sequence of key-value frame pairs, in order.
pub open spec fn pairs_view(s: Seq<(RespValue, RespValue)>) -> Seq<(FrameModel, FrameModel)>
    decreases s,
{
    if s.len() == 0 {
        Seq::empty()
    } else {
        seq![(s[0].0@, s[0].1@)] + pairs_view(s.subrange(1, s.len() as int))
    }
}

/// `frames_view` maps each element to its model.
pub proof fn lemma_frames_view(s: Seq<RespValue>)
    ensures
        frames_view(s).len() == s.len(),
        forall|i: int| 0 <= i < s.len() ==> frames_view(s)[i] == s[i]@,
    decreases s.len(),
{
    if s.len() > 0 {
        let tail = s.subrange(1, s.len() as int);
        lemma_frames_view(tail);
        assert(frames_view(s) == seq![s[0]@] + frames_view(tail));
        assert(frames_view(s).len() == s.len());
        assert forall|i: int| 0 <= i < s.len() implies frames_view(s)[i] == s[i]@ by {
            if i == 0 {
                assert(frames_view(s)[0] == s[0]@);
            } else {
                assert(frames_view(s)[i] == frames_view(tail)[i - 1]);
                assert(tail[i - 1] == s[i]);
            }
        }
    }
}

/// `pairs_view` maps each pair to the pair of models.
pub proof fn lemma_pairs_view(s: Seq<(RespValue, RespValue)>)
    ensures
        pairs_view(s).len() == s.len(),
        forall|i: int| 0 <= i < s.len() ==> pairs_view(s)[i] == (s[i].0@, s[i].1@),
    decreases s.len(),
{
    if s.len() > 0 {
        let tail = s.subrange(1, s.len() as int);
        lemma_pairs_view(tail);
        assert(pairs_view(s) == seq![(s[0].0@, s[0].1@)] + pairs_view(tail));
        assert(pairs_view(s).len() == s.len());
        assert forall|i: int| 0 <= i < s.len() implies pairs_view(s)[i] == (s[i].0@, s[i].1@) by {
            if i == 0 {
                assert(pairs_view(s)[0] == (s[0].0@, s[0].1@));
            } else {
                assert(pairs_view(s)[i] == pairs_view(tail)[i - 1]);
                assert(tail[i - 1] == s[i]);
            }
        }
    }
}

/// No CRLF pair occurs inside the bytes.
pub open spec fn no_crlf_in(s: Seq<u8>) -> bool {
    forall|i: int| 0 <= i < s.len() - 1 ==> !(#[trigger] s[i] == CR && s[i + 1] == LF)
}

/// A frame the deterministic encoding represents faithfully on the wire:
/// line bodies carry no CRLF pair, doubles are floating-point literals,
/// and lengths fit the protocol's signed 64-bit length fields.
pub open spec fn valid_frame(f: FrameModel) -> bool
    decreases f, 1int, 0int,
{
    match f {
        FrameModel::SimpleString(s) => no_crlf_in(s),
        FrameModel::Error(s) => no_crlf_in(s),
        FrameModel::Integer(_) => true,
        FrameModel::BulkString(None) => true,
        FrameModel::BulkString(Some(d)) => d.len() <= i64::MAX,
        FrameModel::Array(None) => true,
        FrameModel::Array(Some(items)) => items.len() <= i64::MAX && valid_items(items, 0),
        FrameModel::Null => true,
        FrameModel::Boolean(_) => true,
        FrameModel::Double(t) => crate::numtext::is_float_text(t) && no_crlf_in(t),
        FrameModel::SetValue(items) => items.len() <= i64::MAX && valid_items(items, 0),
        FrameModel::MapValue(pairs) => pairs.len() <= i64::MAX && valid_pairs(pairs, 0),
    }
}

/// All of `items[i..]` are valid frames.
pub open spec fn valid_items(items: Seq<FrameModel>, i: int) -> bool
    decreases items, 0int, items.len() - i,
{
    i >= items.len() || (i >= 0 && valid_frame(items[i]) && valid_items(items, i + 1))
}

/// All keys and values of `pairs[i..]` are valid frames.
pub open spec fn valid_pairs(pairs: Seq<(FrameModel, FrameModel)>, i: int) -> bool
    decreases pairs, 0int, pairs.len() - i,
{
    i >= pairs.len() || (i >= 0 && valid_frame(pairs[i].0) && valid_frame(pairs[i].1)
        && valid_pairs(pairs, i + 1))
}

/// The CRLF frame terminator.
pub open spec fn crlf() -> Seq<u8> {
    seq![CR, LF]
}

/// A single-line frame: type byte, body, CRLF.
pub open spec fn enc_line(t: u8, body: Seq<u8>) -> Seq<u8> {
    seq![t] + body + crlf()
}

/// The deterministic wire encoding of a frame.
pub open spec fn encode_spec(f: FrameModel) -> Seq<u8>
    decreases f, 1int, 0int,
{
    match f {
        FrameModel::SimpleString(s) => enc_line(PLUS, s),
        FrameModel::Error(s) => enc_line(MINUS, s),
        FrameModel::Integer(n) => enc_line(COLON, spec_fmt_int(n as int)),
        FrameModel::BulkString(None) => enc_line(DOLLAR, spec_fmt_int(-1)),
        FrameModel::BulkString(Some(d)) => enc_line(DOLLAR, spec_fmt_nat(d.len())) + d + crlf(),
        FrameModel::Array(None) => enc_line(STAR, spec_fmt_int(-1)),
        FrameModel::Array(Some(items)) => enc_line(STAR, spec_fmt_nat(items.len()))
            + encode_items(items, 0),
        FrameModel::Null => seq![UNDERSCORE, CR, LF],
        FrameModel::Boolean(b) => seq![HASH, if b { LOWER_T } else { LOWER_F }, CR, LF],
        FrameModel::Double(t) => enc_line(COMMA, t),
        FrameModel::SetValue(items) => enc_line(TILDE, spec_fmt_nat(items.len()))
            + encode_items(items, 0),
        FrameModel::MapValue(pairs) => enc_line(PERCENT, spec_fmt_nat(pairs.len()))
            + encode_pairs(pairs, 0),
    }
}

/// The concatenated encodings of `items[i..]`.
pub open spec fn encode_items(items: Seq<FrameModel>, i: int) -> Seq<u8>
    decreases items, 0int, items.len() - i,
{
    if i < 0 || i >= items.len() {
        Seq::empty()
    } else {
        encode_spec(items[i]) + encode_items(items, i + 1)
    }
}

/// The concatenated encodings of `pairs[i..]`, each key before its value.
pub open spec fn encode_pairs(pairs: Seq<(FrameModel, FrameModel)>, i: int) -> Seq<u8>
    decreases pairs, 0int, pairs.len() - i,
{
    if i < 0 || i >= pairs.len() {
        Seq::empty()
    } else {
        encode_spec(pairs[i].0) + encode_spec(pairs[i].1) + encode_pairs(pairs, i + 1)
    }
}

/// Append a byte slice to a growing output buffer.
pub fn append_slice(out: &mut Vec<u8>, add: &[u8])
    ensures
        final(out)@ == old(out)@ + add@,
{
    let n = add.len();
    let mut i: usize = 0;
    while i < n
        invariant
            n == add@.len(),
            i <= n,
            out@ =~= old(out)@ + add@.take(i as int),
        decreases n - i,
    {
        out.push(add[i]);
        assert(out@ =~= old(out)@ + add@.take(i + 1 as int));
        i = i + 1;
    }
    proof {
        assert(add@.take(n as int) =~= add@);
        assert(out@ =~= old(out)@ + add@);
    }
}

/// Append the CRLF terminator.
pub(crate) fn append_crlf(out: &mut Vec<u8>)
    ensures
        final(out)@ == old(out)@ + crlf(),
{
    out.push(CR);
    out.push(LF);
    proof {
        assert(out@ =~= old(out)@ + crlf());
    }
}

impl RespValue {
    /// Serialize this frame to its Redis wire format.
    pub fn to_bytes(&self) -> (r: Vec<u8>)
        ensures
            r@ == encode_spec(self@),
        decreases self, 1int,
    {
        let mut out: Vec<u8> = Vec::new();
        match self {
            RespValue::SimpleString(s) => {
                out.push(PLUS);
                append_slice(&mut out, s.as_slice());
                append_crlf(&mut out);
                proof {
                    assert(out@ =~= enc_line(PLUS, s@));
                }
            },
            RespValue::Error(s) => {
                out.push(MINUS);
                append_slice(&mut out, s.as_slice());
                append_crlf(&mut out);
                proof {
                    assert(out@ =~= enc_line(MINUS, s@));
                }
            },
            RespValue::Integer(n) => {
                out.push(COLON);
                let digits = crate::numtext::fmt_i64(*n);
                append_slice(&mut out, digits.as_slice());
                append_crlf(&mut out);
                proof {
                    assert(out@ =~= enc_line(COLON, spec_fmt_int(*n as int)));
                }
            },
            RespValue::BulkString(None) => {
                out.push(DOLLAR);
                out.push(MINUS);
                out.push(49);
                append_crlf(&mut out);
                proof {
                    assert(spec_fmt_nat(1) =~= seq![49u8]);
                    assert(out@ =~= enc_line(DOLLAR, spec_fmt_int(-1)));
                }
            },
            RespValue::BulkString(Some(d)) => {
                out.push(DOLLAR);
                let digits = crate::numtext::fmt_u64(d.len() as u64);
                append_slice(&mut out, digits.as_slice());
                append_crlf(&mut out);
                append_slice(&mut out, d.as_slice());
                append_crlf(&mut out);
                proof {
                    assert(out@ =~= enc_line(DOLLAR, spec_fmt_nat(d@.len())) + d@ + crlf());
                }
            },
            RespValue::Array(None) => {
                out.push(STAR);
                out.push(MINUS);
                out.push(49);
                append_crlf(&mut out);
                proof {
                    assert(spec_fmt_nat(1) =~= seq![49u8]);
                    assert(out@ =~= enc_line(STAR, spec_fmt_int(-1)));
                }
            },
            RespValue::Array(Some(arr)) => {
                out.push(STAR);
                let digits = crate::numtext::fmt_u64(arr.len() as u64);
                append_slice(&mut out, digits.as_slice());
                append_crlf(&mut out);
                self.append_frames(&mut out, arr);
                proof {
                    lemma_frames_view(arr@);
                    assert(out@ =~= enc_line(STAR, spec_fmt_nat(frames_view(arr@).len()))
                        + encode_items(frames_view(arr@), 0));
                }
            },
            RespValue::Null => {
                out.push(UNDERSCORE);
                append_crlf(&mut out);
                proof {
                    assert(out@ =~= seq![UNDERSCORE, CR, LF]);
                }
            },
            RespValue::Boolean(b) => {
                out.push(HASH);
                if *b {
                    out.push(LOWER_T);
                } else {
                    out.push(LOWER_F);
                }
                append_crlf(&mut out);
                proof {
                    if *b {
                        assert(out@ =~= seq![HASH, LOWER_T, CR, LF]);
                    } else {
                        assert(out@ =~= seq![HASH, LOWER_F, CR, LF]);
                    }
                }
            },
            RespValue::Double(t) => {
                out.push(COMMA);
                append_slice(&mut out, t.as_slice());
                append_crlf(&mut out);
                proof {
                    assert(out@ =~= enc_line(COMMA, t@));
                }
            },
            RespValue::SetValue(arr) => {
                out.push(TILDE);
                let digits = crate::numtext::fmt_u64(arr.len() as u64);
                append_slice(&mut out, digits.as_slice());
                append_crlf(&mut out);
                self.append_frames(&mut out, arr);
                proof {
                    lemma_frames_view(arr@);
                    assert(out@ =~= enc_line(TILDE, spec_fmt_nat(frames_view(arr@).len()))
                        + encode_items(frames_view(arr@), 0));
                }
            },
            RespValue::MapValue(pairs) => {
                out.push(PERCENT);
                let digits = crate::numtext::fmt_u64(pairs.len() as u64);
                append_slice(&mut out, digits.as_slice());
                append_crlf(&mut out);
                self.append_pairs(&mut out, pairs);
                proof {
                    lemma_pairs_view(pairs@);
                    assert(out@ =~= enc_line(PERCENT, spec_fmt_nat(pairs_view(pairs@).len()))
                        + encode_pairs(pairs_view(pairs@), 0));
                }
            },
        }
        out
    }

    /// Append the encodings of all frames in `arr` to `out`.
    fn append_frames(&self, out: &mut Vec<u8>, arr: &Vec<RespValue>)
        requires
            decreases_to!(self => arr@),
        ensures
            final(out)@ == old(out)@ + encode_items(frames_view(arr@), 0),
        decreases self, 0int,
    {
        proof {
            lemma_frames_view(arr@);
        }
        let ghost items = frames_view(arr@);
        let n = arr.len();
        let mut i: usize = 0;
        while i < n
            invariant
                n == arr@.len(),
                i <= n,
                items == frames_view(arr@),
                items.len() == n,
                forall|j: int| 0 <= j < n ==> items[j] == arr@[j]@,
                decreases_to!(self => arr@),
                out@ + encode_items(items, i as int) =~= old(out)@ + encode_items(items, 0),
            decreases n - i,
        {
            proof {
                assert(decreases_to!(arr@ => arr@[i as int]));
            }
            let enc = arr[i].to_bytes();
            let ghost prev = out@;
            append_slice(out, enc.as_slice());
            proof {
                assert(encode_items(items, i as int)
                    == encode_spec(items[i as int]) + encode_items(items, i + 1));
                assert(out@ + encode_items(items, i + 1)
                    =~= prev + encode_items(items, i as int));
            }
            i = i + 1;
        }
        proof {
            assert(encode_items(items, n as int) =~= Seq::empty());
            assert(out@ =~= out@ + encode_items(items, n as int));
        }
    }

    /// Append the encodings of all key-value pairs in `pairs` to `out`.
    fn append_pairs(&self, out: &mut Vec<u8>, pairs: &Vec<(RespValue, RespValue)>)
        requires
            decreases_to!(self => pairs@),
        ensures
            final(out)@ == old(out)@ + encode_pairs(pairs_view(pairs@), 0),
        decreases self, 0int,
    {
        proof {
            lemma_pairs_view(pairs@);
        }
        let ghost items = pairs_view(pairs@);
        let n = pairs.len();
        let mut i: usize = 0;
        while i < n
            invariant
                n == pairs@.len(),
                i <= n,
                items == pairs_view(pairs@),
                items.len() == n,
                forall|j: int| 0 <= j < n ==> items[j] == (pairs@[j].0@, pairs@[j].1@),
                decreases_to!(self => pairs@),
                out@ + encode_pairs(items, i as int) =~= old(out)@ + encode_pairs(items, 0),
            decreases n - i,
        {
            let pair = &pairs[i];
            let enc_k = pair.0.to_bytes();
            let enc_v = pair.1.to_bytes();
            let ghost prev = out@;
            append_slice(out, enc_k.as_slice());
            append_slice(out, enc_v.as_slice());
            proof {
                assert(encode_pairs(items, i as int)
                    == encode_spec(items[i as int].0) + encode_spec(items[i as int].1)
                        + encode_pairs(items, i + 1));
                assert(out@ + encode_pairs(items, i + 1)
                    =~= prev + encode_pairs(items, i as int));
            }
            i = i + 1;
        }
        proof {
            assert(encode_pairs(items, n as int) =~= Seq::empty());
            assert(out@ =~= out@ + encode_pairs(items, n as int));
        }
    }
}

} // verus!
