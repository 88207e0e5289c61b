//! Small byte-level helpers: little-endian integer reads, byte-slice
//! equality, and decoding of a hexadecimal key string.

use vstd::prelude::*;

verus! {

/// The unsigned integer held little-endian in the four bytes of `s`.
pub open spec fn u32_le_of(s: Seq<u8>) -> nat
    recommends
        s.len() == 4,
{
    (s[0] + 0x100 * s[1] + 0x1_0000 * s[2] + 0x100_0000 * s[3]) as nat
}

/// Read a little-endian `u32` from the first four bytes of `b`.
pub fn read_u32_le(b: &[u8]) -> (r: u32)
    requires
        b@.len() >= 4,
    ensures
        r == u32_le_of(b@.subrange(0, 4)),
{
    let r: u32 = b[0] as u32 + 0x100 * (b[1] as u32) + 0x1_0000 * (b[2] as u32) + 0x100_0000
        * (b[3] as u32);
    proof {
        assert(b@.subrange(0, 4)[0] == b@[0]);
        assert(b@.subrange(0, 4)[1] == b@[1]);
        assert(b@.subrange(0, 4)[2] == b@[2]);
        assert(b@.subrange(0, 4)[3] == b@[3]);
    }
    r
}

/// Compare two byte slices for equality of their contents.
pub fn bytes_eq(a: &[u8], b: &[u8]) -> (r: bool)
    ensures
        r == (a@ == b@),
{
    if a.len() != b.len() {
        proof {
            assert(a@.len() != b@.len());
        }
        return false;
    }
    let n: usize = a.len();
    let mut i: usize = 0;
    while i < n
        invariant
            n == a@.len(),
            n == b@.len(),
            i <= n,
            forall|j: int| 0 <= j < i ==> a@[j] == b@[j],
        decreases n - i,
    {
        if a[i] != b[i] {
            proof {
                assert(a@[i as int] != b@[i as int]);
            }
            return false;
        }
        i += 1;
    }
    proof {
        assert(a@ =~= b@);
    }
    true
}

/// The value of one ASCII hexadecimal digit, or `None` if the byte is
/// not a hexadecimal digit.
pub open spec fn hex_digit_val(b: u8) -> Option<u8> {
    if 0x30 <= b <= 0x39 {
        Some((b - 0x30) as u8)
    } else if 0x41 <= b <= 0x46 {
        Some((b - 0x41 + 10) as u8)
    } else if 0x61 <= b <= 0x66 {
        Some((b - 0x61 + 10) as u8)
    } else {
        None
    }
}

/// Whether `s` is a well-formed hexadecimal string: an even number of
/// bytes, all of them hexadecimal digits.
pub open spec fn is_hex(s: Seq<u8>) -> bool {
    s.len() % 2 == 0 && forall|i: int| 0 <= i < s.len() ==> hex_digit_val(s[i]) is Some
}

/// The bytes that a well-formed hexadecimal string denotes, two digits
/// per byte, high digit first.
pub open spec fn hex_bytes_of(s: Seq<u8>) -> Seq<u8>
    recommends
        is_hex(s),
{
    Seq::new((s.len() / 2) as nat, |i: int| (hex_digit_val(s[2 * i]).unwrap_or(0) * 16
        + hex_digit_val(s[2 * i + 1]).unwrap_or(0)) as u8)
}

fn hex_digit(b: u8) -> (r: Option<u8>)
    ensures
        r == hex_digit_val(b),
{
    if 0x30 <= b && b <= 0x39 {
        Some(b - 0x30)
    } else if 0x41 <= b && b <= 0x46 {
        Some(b - 0x41 + 10)
    } else if 0x61 <= b && b <= 0x66 {
        Some(b - 0x61 + 10)
    } else {
        None
    }
}

/// Decode a hexadecimal string (as raw ASCII bytes) into the bytes it
/// denotes. Returns `None` on an odd length or a non-hexadecimal byte.
pub fn decode_hex(s: &[u8]) -> (r: Option<Vec<u8>>)
    ensures
        r is Some <==> is_hex(s@),
        r matches Some(v) ==> v@ == hex_bytes_of(s@),
{
    if s.len() % 2 != 0 {
        return None;
    }
    let mut out: Vec<u8> = Vec::new();
    let mut i: usize = 0;
    while i < s.len()
        invariant
            s@.len() % 2 == 0,
            i % 2 == 0,
            i <= s@.len(),
            forall|j: int| 0 <= j < i ==> hex_digit_val(s@[j]) is Some,
            out@.len() == i / 2,
            forall|j: int|
                0 <= j < i / 2 ==> out@[j] == (hex_digit_val(s@[2 * j]).unwrap_or(0) * 16
                    + hex_digit_val(s@[2 * j + 1]).unwrap_or(0)) as u8,
        decreases s@.len() - i,
    {
        let hi = match hex_digit(s[i]) {
            Some(d) => d,
            None => {
                return None;
            },
        };
        let lo = match hex_digit(s[i + 1]) {
            Some(d) => d,
            None => {
                return None;
            },
        };
        out.push(hi * 16 + lo);
        i += 2;
    }
    proof {
        assert(out@ =~= hex_bytes_of(s@));
    }
    Some(out)
}

} // verus!
