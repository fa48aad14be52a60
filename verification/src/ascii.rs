//! Named ASCII byte values used by the wire protocol, and small helpers
//! over byte strings (case folding, comparisons, text constants).

use vstd::prelude::*;

verus! {

pub const PLUS: u8 = 43;
pub const MINUS: u8 = 45;
pub const COLON: u8 = 58;
pub const DOLLAR: u8 = 36;
pub const STAR: u8 = 42;
pub const UNDERSCORE: u8 = 95;
pub const HASH: u8 = 35;
pub const COMMA: u8 = 44;
pub const TILDE: u8 = 126;
pub const PERCENT: u8 = 37;
pub const CR: u8 = 13;
pub const LF: u8 = 10;
pub const SPACE: u8 = 32;
pub const TAB: u8 = 9;
pub const QUOTE: u8 = 34;
pub const BACKSLASH: u8 = 92;
pub const DIGIT_ZERO: u8 = 48;
pub const DIGIT_NINE: u8 = 57;
pub const UPPER_A: u8 = 65;
pub const UPPER_Z: u8 = 90;
pub const LOWER_A: u8 = 97;
pub const LOWER_Z: u8 = 122;
pub const LOWER_T: u8 = 116;
pub const LOWER_F: u8 = 102;
pub const LOWER_E: u8 = 101;
pub const UPPER_E: u8 = 69;
pub const DOT: u8 = 46;

/// ASCII lower-casing of one byte: letters `A..Z` map to `a..z`,
/// every other byte is unchanged.
pub open spec fn lower_byte(b: u8) -> u8 {
    if UPPER_A <= b && b <= UPPER_Z {
        (b + 32) as u8
    } else {
        b
    }
}

/// ASCII lower-casing of a byte string.
pub open spec fn lower_seq(s: Seq<u8>) -> Seq<u8> {
    s.map_values(|b: u8| lower_byte(b))
}

/// The bytes of an ASCII string literal, as a sequence.
pub open spec fn ascii_view(cs: Seq<char>) -> Seq<u8> {
    Seq::new(cs.len(), |i: int| cs[i] as u8)
}

/// The byte string of an ASCII `&str`, usable for protocol constants.
pub fn ascii_bytes(s: &str) -> (r: Vec<u8>)
    requires
        s.is_ascii(),
    ensures
        r@ == ascii_view(s@),
{
    proof {
        vstd::string::is_ascii_spec_bytes(s);
    }
    let r = s.as_bytes_vec();
    proof {
        assert(r@ =~= ascii_view(s@));
    }
    r
}

/// Byte-string equality.
pub fn bytes_eq(a: &[u8], b: &[u8]) -> (r: bool)
    ensures
        r == (a@ == b@),
{
    if a.len() != b.len() {
        assert(a@ != b@) by {
            assert(a@.len() != b@.len());
        }
        return false;
    }
    let n = a.len();
    let mut i: usize = 0;
    while i < n
        invariant
            n == a@.len() == b@.len(),
            i <= n,
            forall|j: int| 0 <= j < i ==> a@[j] == b@[j],
        decreases n - i,
    {
        if a[i] != b[i] {
            return false;
        }
        i = i + 1;
    }
    proof {
        assert(a@ =~= b@);
    }
    true
}

/// ASCII lower-casing of a byte string, for case-insensitive command
/// and parameter matching.
pub fn lower_bytes(v: &[u8]) -> (r: Vec<u8>)
    ensures
        r@ == lower_seq(v@),
{
    let mut r: Vec<u8> = Vec::new();
    let n = v.len();
    let mut i: usize = 0;
    while i < n
        invariant
            n == v@.len(),
            i <= n,
            r@ =~= lower_seq(v@).take(i as int),
        decreases n - i,
    {
        let b = v[i];
        if UPPER_A <= b && b <= UPPER_Z {
            r.push(b + 32);
        } else {
            r.push(b);
        }
        assert(r@ =~= lower_seq(v@).take(i + 1 as int));
        i = i + 1;
    }
    proof {
        assert(r@ =~= lower_seq(v@));
    }
    r
}

} // verus!
