//! The persisted record blob of the durable and remote backends: the
//! payload bytes and an optional absolute expiry in milliseconds since the
//! Unix epoch, framed as one flag byte, eight little-endian expiry bytes
//! when the flag is set, and the payload. Encoding and decoding invert
//! each other, so a stored record reads back exactly.

use vstd::prelude::*;
use crate::storage::{StorageValue, RecModel};

verus! {

/// The `i`-th little-endian byte of a 64-bit value.
pub open spec fn le_byte(e: u64, i: int) -> u8 {
    ((e >> (8 * i) as u64) & 0xff) as u8
}

/// The eight little-endian bytes of a 64-bit value.
pub open spec fn le_bytes(e: u64) -> Seq<u8> {
    Seq::new(8, |i: int| le_byte(e, i))
}

/// The record blob: flag, expiry when flagged, payload.
pub open spec fn record_enc(m: RecModel) -> Seq<u8> {
    match m.expires_at {
        None => seq![0u8] + m.data,
        Some(e) => seq![1u8] + le_bytes(e) + m.data,
    }
}

/// What a blob decodes to, if it is well-formed.
pub open spec fn record_dec(b: Seq<u8>) -> Option<RecModel> {
    if b.len() >= 1 && b[0] == 0 {
        Some(RecModel { data: b.skip(1), expires_at: None })
    } else if b.len() >= 9 && b[0] == 1 {
        Some(RecModel {
            data: b.skip(9),
            expires_at: Some(le_decode(b.subrange(1, 9))),
        })
    } else {
        None
    }
}

/// The 64-bit value of eight little-endian bytes.
pub open spec fn le_decode(s: Seq<u8>) -> u64 {
    (s[0] as u64) | (s[1] as u64) << 8u64 | (s[2] as u64) << 16u64 | (s[3] as u64) << 24u64
        | (s[4] as u64) << 32u64 | (s[5] as u64) << 40u64 | (s[6] as u64) << 48u64
        | (s[7] as u64) << 56u64
}

/// Decoding inverts the little-endian split.
pub proof fn lemma_le_round_trip(e: u64)
    ensures
        le_decode(le_bytes(e)) == e,
{
    let s = le_bytes(e);
    assert(s[0] == ((e >> 0u64) & 0xff) as u8);
    assert(s[1] == ((e >> 8u64) & 0xff) as u8);
    assert(s[2] == ((e >> 16u64) & 0xff) as u8);
    assert(s[3] == ((e >> 24u64) & 0xff) as u8);
    assert(s[4] == ((e >> 32u64) & 0xff) as u8);
    assert(s[5] == ((e >> 40u64) & 0xff) as u8);
    assert(s[6] == ((e >> 48u64) & 0xff) as u8);
    assert(s[7] == ((e >> 56u64) & 0xff) as u8);
    assert((((e >> 0u64) & 0xff) as u8 as u64) | (((e >> 8u64) & 0xff) as u8 as u64) << 8u64
        | (((e >> 16u64) & 0xff) as u8 as u64) << 16u64
        | (((e >> 24u64) & 0xff) as u8 as u64) << 24u64
        | (((e >> 32u64) & 0xff) as u8 as u64) << 32u64
        | (((e >> 40u64) & 0xff) as u8 as u64) << 40u64
        | (((e >> 48u64) & 0xff) as u8 as u64) << 48u64
        | (((e >> 56u64) & 0xff) as u8 as u64) << 56u64 == e) by (bit_vector);
}

/// Law: a record blob reads back to exactly the record it was written
/// from.
pub proof fn lemma_record_round_trip(m: RecModel)
    ensures
        record_dec(record_enc(m)) == Some(m),
{
    match m.expires_at {
        None => {
            let b = record_enc(m);
            assert(b[0] == 0);
            assert(b.skip(1) =~= m.data);
        },
        Some(e) => {
            let b = record_enc(m);
            assert(b[0] == 1);
            assert(b.len() >= 9);
            assert(b.subrange(1, 9) =~= le_bytes(e));
            lemma_le_round_trip(e);
            assert(b.skip(9) =~= m.data);
        },
    }
}

/// Encode a record for the durable and remote backends.
pub fn record_encode(v: &StorageValue) -> (r: Vec<u8>)
    ensures
        r@ == record_enc(v@),
{
    let mut out: Vec<u8> = Vec::new();
    match &v.expires_at {
        None => {
            out.push(0);
        },
        Some(e) => {
            out.push(1);
            let ev = *e;
            let mut k: u64 = 0;
            while k < 8
                invariant
                    k <= 8,
                    out@.len() == 1 + k,
                    out@[0] == 1u8,
                    forall|i: int| 0 <= i < k ==> out@[1 + i] == le_byte(ev, i),
                decreases 8 - k,
            {
                let b: u8 = ((ev >> ((8 * k) as u64)) & 0xff) as u8;
                out.push(b);
                k = k + 1;
            }
        },
    }
    crate::frame::append_slice(&mut out, v.data.as_slice());
    proof {
        match v.expires_at {
            None => {
                assert(out@ =~= seq![0u8] + v.data@);
            },
            Some(e) => {
                assert(out@ =~= seq![1u8] + le_bytes(e) + v.data@);
            },
        }
    }
    out
}

/// Decode a record blob; `None` when the blob is not well-formed.
pub fn record_decode(b: &[u8]) -> (r: Option<StorageValue>)
    ensures
        match r {
            Some(v) => record_dec(b@) == Some(v@),
            None => record_dec(b@) is None,
        },
{
    let n = b.len();
    if n >= 1 && b[0] == 0 {
        let data = crate::resp::extract(b, 1, n);
        proof {
            assert(data@ =~= b@.skip(1));
        }
        Some(StorageValue { data, expires_at: None })
    } else if n >= 9 && b[0] == 1 {
        let mut e: u64 = 0;
        let mut k: u64 = 0;
        proof {
            assert forall|i: u64| i < 8 implies #[trigger] ((0u64 >> ((8 * i) as u64)) & 0xff)
                == 0 by {
                assert((0u64 >> ((8 * i) as u64)) & 0xff == 0) by (bit_vector);
            }
        }
        while k < 8
            invariant
                k <= 8,
                n == b@.len(),
                n >= 9,
                forall|i: u64| k <= i < 8 ==> #[trigger] ((e >> ((8 * i) as u64)) & 0xff) == 0,
                forall|i: u64| 0 <= i < k ==> #[trigger] (((e >> ((8 * i) as u64)) & 0xff) as u8)
                    == b@[1 + i],
            decreases 8 - k,
        {
            let byte = b[1 + (k as usize)];
            let ghost e0 = e;
            e = e | ((byte as u64) << ((8 * k) as u64));
            proof {
                let kk = k;
                let bb = byte;
                assert forall|i: u64| i < 8 implies (#[trigger] ((e0 | ((bb as u64) << ((8 * kk)
                    as u64))) >> ((8 * i) as u64)) & 0xff) == (if i == kk {
                    bb as u64
                } else {
                    (e0 >> ((8 * i) as u64)) & 0xff
                }) by {
                    assert(((e0 | ((bb as u64) << ((8 * kk) as u64))) >> ((8 * i) as u64)) & 0xff
                        == (if i == kk {
                        bb as u64
                    } else {
                        (e0 >> ((8 * i) as u64)) & 0xff
                    })) by (bit_vector)
                        requires
                            i < 8,
                            kk < 8,
                            (e0 >> ((8 * kk) as u64)) & 0xff == 0,
                    ;
                }
            }
            k = k + 1;
        }
        let ghost le = b@.subrange(1, 9);
        proof {
            let ev = e;
            let b0 = le[0];
            let b1 = le[1];
            let b2 = le[2];
            let b3 = le[3];
            let b4 = le[4];
            let b5 = le[5];
            let b6 = le[6];
            let b7 = le[7];
            assert(((ev >> ((8 * 0u64) as u64)) & 0xff) as u8 == b@[1 + 0int]);
            assert(((ev >> ((8 * 1u64) as u64)) & 0xff) as u8 == b@[1 + 1int]);
            assert(((ev >> ((8 * 2u64) as u64)) & 0xff) as u8 == b@[1 + 2int]);
            assert(((ev >> ((8 * 3u64) as u64)) & 0xff) as u8 == b@[1 + 3int]);
            assert(((ev >> ((8 * 4u64) as u64)) & 0xff) as u8 == b@[1 + 4int]);
            assert(((ev >> ((8 * 5u64) as u64)) & 0xff) as u8 == b@[1 + 5int]);
            assert(((ev >> ((8 * 6u64) as u64)) & 0xff) as u8 == b@[1 + 6int]);
            assert(((ev >> ((8 * 7u64) as u64)) & 0xff) as u8 == b@[1 + 7int]);
            assert((8 * 0u64) as u64 == 0u64 && (8 * 1u64) as u64 == 8u64
                && (8 * 2u64) as u64 == 16u64 && (8 * 3u64) as u64 == 24u64
                && (8 * 4u64) as u64 == 32u64 && (8 * 5u64) as u64 == 40u64
                && (8 * 6u64) as u64 == 48u64 && (8 * 7u64) as u64 == 56u64);
            assert(le[0] == b@[1] && le[1] == b@[2] && le[2] == b@[3] && le[3] == b@[4]
                && le[4] == b@[5] && le[5] == b@[6] && le[6] == b@[7] && le[7] == b@[8]);
            assert(((ev >> 0u64) & 0xff) as u8 == b0);
            assert(((ev >> 8u64) & 0xff) as u8 == b1);
            assert(((ev >> 16u64) & 0xff) as u8 == b2);
            assert(((ev >> 24u64) & 0xff) as u8 == b3);
            assert(((ev >> 32u64) & 0xff) as u8 == b4);
            assert(((ev >> 40u64) & 0xff) as u8 == b5);
            assert(((ev >> 48u64) & 0xff) as u8 == b6);
            assert(((ev >> 56u64) & 0xff) as u8 == b7);
            assert(ev == (b0 as u64) | (b1 as u64) << 8u64 | (b2 as u64) << 16u64
                | (b3 as u64) << 24u64 | (b4 as u64) << 32u64 | (b5 as u64) << 40u64
                | (b6 as u64) << 48u64 | (b7 as u64) << 56u64) by (bit_vector)
                requires
                    ((ev >> 0u64) & 0xff) as u8 == b0,
                    ((ev >> 8u64) & 0xff) as u8 == b1,
                    ((ev >> 16u64) & 0xff) as u8 == b2,
                    ((ev >> 24u64) & 0xff) as u8 == b3,
                    ((ev >> 32u64) & 0xff) as u8 == b4,
                    ((ev >> 40u64) & 0xff) as u8 == b5,
                    ((ev >> 48u64) & 0xff) as u8 == b6,
                    ((ev >> 56u64) & 0xff) as u8 == b7,
            ;
            assert(e == le_decode(le));
        }
        let data = crate::resp::extract(b, 9, n);
        proof {
            assert(data@ =~= b@.skip(9));
        }
        Some(StorageValue { data, expires_at: Some(e) })
    } else {
        None
    }
}

} // verus!
