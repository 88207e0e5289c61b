//! The MMKV store format: base-128 varints, length-prefixed containers,
//! and the scanner that turns a store buffer into key-value pairs.

use vstd::arithmetic::div_mod::{
    lemma_add_mod_noop, lemma_mul_mod_noop_left, lemma_mul_mod_noop_right,
};
use vstd::arithmetic::power2::{lemma2_to64, lemma_pow2_adds, pow2};
use vstd::prelude::*;
use vstd::slice::slice_subrange;

use crate::bytes::{read_u32_le, u32_le_of};
use crate::store_map::{pairs_to_map, StoreMap, StringMap};
use crate::Error;

verus! {

/// Whether a varint byte carries the continuation flag (high bit set).
pub open spec fn has_more(b: u8) -> bool {
    b >= 0x80
}

/// The seven value bits of a varint byte.
pub open spec fn digit7(b: u8) -> u8 {
    if b >= 0x80 {
        (b - 0x80) as u8
    } else {
        b
    }
}

/// The index of the first byte of `s` without the continuation flag,
/// or `None` if every byte of `s` carries it.
pub open spec fn first_term(s: Seq<u8>) -> Option<int>
    decreases s.len(),
{
    if s.len() == 0 {
        None
    } else if !has_more(s[0]) {
        Some(0)
    } else {
        match first_term(s.skip(1)) {
            None => None,
            Some(i) => Some(i + 1),
        }
    }
}

/// One more than `u64::MAX`: the modulus of 64-bit accumulation.
pub open spec fn two_to_64() -> nat {
    0x1_0000_0000_0000_0000
}

/// The unbounded value of the base-128 digits `s`, least significant
/// digit first, seven value bits per byte.
pub open spec fn varint_val(s: Seq<u8>) -> nat
    decreases s.len(),
{
    if s.len() == 0 {
        0
    } else {
        (digit7(s[0]) + 128 * varint_val(s.skip(1))) as nat
    }
}

/// The value of the digits `s` truncated to 64 bits.
pub open spec fn varint_u64(s: Seq<u8>) -> u64 {
    (varint_val(s) % two_to_64()) as u64
}

/// The result of decoding one varint from the front of `s`: the number
/// of bytes consumed and the decoded value, or `None` if no byte of
/// `s` terminates the varint.
pub open spec fn varint_parse(s: Seq<u8>) -> Option<(int, u64)> {
    match first_term(s) {
        None => None,
        Some(i) => Some((i + 1, varint_u64(s.take(i + 1)))),
    }
}

/// The result of decoding one container from the front of `s`: the
/// content span and the remainder after it, or `None` if the length
/// varint is unterminated or the declared length exceeds what is left.
pub open spec fn container_parse(s: Seq<u8>) -> Option<(Seq<u8>, Seq<u8>)> {
    match varint_parse(s) {
        None => None,
        Some((c, len)) => {
            let rest = s.skip(c);
            if len <= rest.len() {
                Some((rest.take(len as int), rest.skip(len as int)))
            } else {
                None
            }
        },
    }
}

proof fn lemma_first_term_at(s: Seq<u8>, i: int)
    requires
        0 <= i <= s.len(),
        forall|j: int| 0 <= j < i ==> has_more(s[j]),
    ensures
        i < s.len() && !has_more(s[i]) ==> first_term(s) == Some(i),
        i == s.len() ==> first_term(s) is None,
    decreases i,
{
    if i == 0 {
        if s.len() == 0 {
            assert(first_term(s) is None);
        }
    } else {
        assert(has_more(s[0]));
        lemma_first_term_at(s.skip(1), i - 1);
        assert(forall|j: int| 0 <= j < i - 1 ==> s.skip(1)[j] == s[j + 1]);
        if i < s.len() && !has_more(s[i]) {
            assert(!has_more(s.skip(1)[i - 1]));
            assert(first_term(s.skip(1)) == Some(i - 1));
        }
    }
}

proof fn lemma_varint_val_snoc(s: Seq<u8>, b: u8)
    ensures
        varint_val(s.push(b)) == varint_val(s) + digit7(b) * pow2((7 * s.len()) as nat),
    decreases s.len(),
{
    lemma2_to64();
    if s.len() == 0 {
        assert(s.push(b)[0] == b);
        assert(s.push(b).skip(1) =~= Seq::<u8>::empty());
        assert(varint_val(Seq::<u8>::empty()) == 0);
        assert(varint_val(s.push(b)) == digit7(s.push(b)[0]) + 128 * varint_val(s.push(b).skip(1)));
        assert(varint_val(s) == 0);
        assert(pow2((7 * s.len()) as nat) == 1);
    } else {
        assert(s.push(b)[0] == s[0]);
        assert(s.push(b).skip(1) =~= s.skip(1).push(b));
        lemma_varint_val_snoc(s.skip(1), b);
        let d = digit7(b) as int;
        let rest = varint_val(s.skip(1)) as int;
        let p = pow2((7 * (s.len() - 1)) as nat) as int;
        lemma_pow2_adds((7 * (s.len() - 1)) as nat, 7);
        assert(pow2((7 * s.len()) as nat) == p * 128);
        assert(varint_val(s) == digit7(s[0]) + 128 * rest);
        assert(varint_val(s.push(b)) == digit7(s[0]) + 128 * (rest + d * p));
        assert(128 * (rest + d * p) == 128 * rest + d * (p * 128)) by (nonlinear_arith);
        assert(varint_val(s.push(b)) == varint_val(s) + d * (p * 128));
        assert(d * (p * 128) == digit7(b) * pow2((7 * s.len()) as nat));
    }
}

/// Decode one unsigned base-128 varint from the front of `buffer`.
///
/// On success, returns the remainder starting right after the first
/// byte without the continuation flag, and the value accumulated from
/// the seven low bits of each byte, truncated to 64 bits. Fails with
/// [`Error::UnexpectedEof`] when no byte terminates the varint.
pub fn read_u64<'a>(buffer: &'a [u8]) -> (r: Result<(&'a [u8], u64), Error>)
    ensures
        varint_parse(buffer@) matches Some((c, v)) ==> r matches Ok(p) && p.0@ == buffer@.skip(c)
            && p.1 == v,
        varint_parse(buffer@) is None ==> r == Err::<(&'a [u8], u64), Error>(Error::UnexpectedEof),
{
    let ghost s = buffer@;
    let n: usize = buffer.len();
    let mut result: u64 = 0;
    let mut mult: u64 = 1;
    let mut i: usize = 0;
    proof {
        lemma2_to64();
        assert(two_to_64() == 0x1_0000_0000_0000_0000);
        assert(s.take(0) =~= Seq::<u8>::empty());
    }
    while i < n
        invariant
            s == buffer@,
            n == s.len(),
            0 <= i <= n,
            forall|j: int| 0 <= j < i ==> has_more(s[j]),
            result == varint_val(s.take(i as int)) % two_to_64(),
            mult == pow2((7 * i) as nat) % two_to_64(),
        decreases n - i,
    {
        let b = buffer[i];
        let d: u64 = (if b >= 0x80 {
            b - 0x80
        } else {
            b
        }) as u64;
        let addend = d.wrapping_mul(mult);
        let acc = result.wrapping_add(addend);
        proof {
            let m = two_to_64() as int;
            assert(m == 0x1_0000_0000_0000_0000);
            let vi = varint_val(s.take(i as int)) as int;
            let p = pow2((7 * i) as nat) as int;
            assert(s.take(i + 1) =~= s.take(i as int).push(s[i as int]));
            lemma_varint_val_snoc(s.take(i as int), s[i as int]);
            assert(varint_val(s.take(i + 1)) == vi + d * p);
            lemma_mul_mod_noop_right(d as int, p, m);
            assert(addend == d * p % m);
            lemma_add_mod_noop(vi, d * p, m);
            assert(acc == (vi % m + d * p % m) % m);
            assert(acc == varint_val(s.take(i + 1)) % two_to_64());
        }
        result = acc;
        if b < 0x80 {
            proof {
                lemma_first_term_at(s, i as int);
                assert(first_term(s) == Some(i as int));
                assert(s.subrange(i + 1, n as int) =~= s.skip(i + 1));
            }
            let rest = slice_subrange(buffer, i + 1, n);
            return Ok((rest, result));
        }
        proof {
            let m = two_to_64() as int;
            assert(m == 0x1_0000_0000_0000_0000);
            lemma2_to64();
            let p = pow2((7 * i) as nat) as int;
            lemma_mul_mod_noop_left(p, 128, m);
            lemma_pow2_adds((7 * i) as nat, 7);
            assert((7 * (i + 1)) as nat == (7 * i) as nat + 7);
            assert(pow2((7 * (i + 1)) as nat) == p * 128);
            assert(mult.wrapping_mul(0x80) == ((p % m) * 128) % m);
            assert(mult.wrapping_mul(0x80) == pow2((7 * (i + 1)) as nat) % two_to_64());
        }
        mult = mult.wrapping_mul(0x80);
        i += 1;
    }
    proof {
        lemma_first_term_at(s, n as int);
    }
    Err(Error::UnexpectedEof)
}

/// Decode one length-prefixed container from the front of `buffer`.
///
/// On success, returns the remainder after the content first and the
/// content span second. Fails with [`Error::UnexpectedEof`] when the
/// length varint is unterminated or the declared length exceeds the
/// bytes that follow it.
pub fn read_container<'a>(buffer: &'a [u8]) -> (r: Result<(&'a [u8], &'a [u8]), Error>)
    ensures
        container_parse(buffer@) matches Some((content, rest)) ==> r matches Ok(p) && p.0@ == rest
            && p.1@ == content,
        container_parse(buffer@) is None ==> r == Err::<(&'a [u8], &'a [u8]), Error>(
            Error::UnexpectedEof,
        ),
{
    let (after_len, len) = match read_u64(buffer) {
        Ok(p) => p,
        Err(e) => {
            return Err(e);
        },
    };
    if len > after_len.len() as u64 {
        return Err(Error::UnexpectedEof);
    }
    let len_us: usize = len as usize;
    let content = slice_subrange(after_len, 0, len_us);
    let rest = slice_subrange(after_len, len_us, after_len.len());
    proof {
        let c = varint_parse(buffer@).unwrap().0;
        assert(after_len@ == buffer@.skip(c));
        assert(content@ =~= buffer@.skip(c).take(len as int));
        assert(rest@ =~= buffer@.skip(c).skip(len as int));
    }
    Ok((rest, content))
}

/// The characters that lossy UTF-8 decoding yields for `bytes`;
/// invalid sequences are replaced, never rejected.
pub uninterp spec fn utf8_lossy_of(bytes: Seq<u8>) -> Seq<char>;

/// Relies on `String::from_utf8_lossy`: the characters it yields are a
/// function of the bytes alone, and it never fails.
#[verifier::external_body]
fn utf8_lossy(bytes: &[u8]) -> (r: String)
    ensures
        r@ == utf8_lossy_of(bytes@),
{
    String::from_utf8_lossy(bytes).into_owned()
}

/// Read one container from the front of `buffer` and decode its
/// content as a lossy UTF-8 string.
pub fn read_string(buffer: &[u8]) -> (r: Result<String, Error>)
    ensures
        container_parse(buffer@) matches Some(p) ==> r matches Ok(s) && s@ == utf8_lossy_of(p.0),
        container_parse(buffer@) is None ==> r == Err::<String, Error>(Error::UnexpectedEof),
{
    let (_, content) = match read_container(buffer) {
        Ok(p) => p,
        Err(e) => {
            return Err(e);
        },
    };
    Ok(utf8_lossy(content))
}

proof fn lemma_first_term_bounds(s: Seq<u8>)
    ensures
        first_term(s) matches Some(i) ==> 0 <= i < s.len(),
    decreases s.len(),
{
    if s.len() > 0 && has_more(s[0]) {
        lemma_first_term_bounds(s.skip(1));
    }
}

proof fn lemma_container_shrinks(s: Seq<u8>)
    requires
        container_parse(s) is Some,
    ensures
        container_parse(s).unwrap().1.len() < s.len(),
{
    lemma_first_term_bounds(s);
}

/// The ordered key-value pairs held by the entry region `s`: pairs of
/// containers read until the region is exhausted, or `None` if it does
/// not divide evenly into containers.
pub open spec fn scan_pairs(s: Seq<u8>) -> Option<Seq<(Seq<u8>, Seq<u8>)>>
    decreases s.len(),
{
    if s.len() == 0 {
        Some(Seq::empty())
    } else {
        match container_parse(s) {
            None => None,
            Some((k, r1)) => match container_parse(r1) {
                None => None,
                Some((v, r2)) => if r2.len() < s.len() {
                    match scan_pairs(r2) {
                        None => None,
                        Some(ps) => Some(seq![(k, v)] + ps),
                    }
                } else {
                    None
                },
            },
        }
    }
}

/// The entry region of a store buffer `s`: behind the four-byte
/// declared length and one leading varint that the format carries but
/// leaves unexplained.
pub open spec fn store_prelude(s: Seq<u8>) -> Result<Seq<u8>, Error> {
    if s.len() < 4 {
        Err(Error::UnexpectedEof)
    } else {
        let declared = u32_le_of(s.subrange(0, 4));
        if s.len() < declared + 4 {
            Err(Error::BufferTooSmall((declared + 4) as usize))
        } else {
            let payload = s.subrange(4, declared as int + 4);
            match varint_parse(payload) {
                None => Err(Error::UnexpectedEof),
                Some((c, _)) => Ok(payload.skip(c)),
            }
        }
    }
}

/// The ordered key-value pairs of the whole store buffer `s`, or the
/// error that scanning it yields.
pub open spec fn store_scan(s: Seq<u8>) -> Result<Seq<(Seq<u8>, Seq<u8>)>, Error> {
    match store_prelude(s) {
        Err(e) => Err(e),
        Ok(entries) => match scan_pairs(entries) {
            None => Err(Error::UnexpectedEof),
            Some(ps) => Ok(ps),
        },
    }
}

/// The signal a scan consumer gives after each key-value pair: go on
/// with the next pair, or stop and silently discard the rest of the
/// entry region.
pub enum ParseControl {
    Continue,
    Stop,
}

/// Validate the declared payload length of a store buffer and skip the
/// leading varint, yielding the entry region.
fn payload_entries<'a>(buffer: &'a [u8]) -> (r: Result<&'a [u8], Error>)
    ensures
        store_prelude(buffer@) matches Ok(entries) ==> r matches Ok(e) && e@ == entries,
        store_prelude(buffer@) matches Err(err) ==> r == Err::<&'a [u8], Error>(err),
{
    if buffer.len() < 4 {
        return Err(Error::UnexpectedEof);
    }
    let declared = read_u32_le(buffer);
    let total: u64 = declared as u64 + 4;
    if (buffer.len() as u64) < total {
        return Err(Error::BufferTooSmall(total as usize));
    }
    let payload_end: usize = declared as usize + 4;
    let payload = slice_subrange(buffer, 4, payload_end);
    match read_u64(payload) {
        Err(e) => Err(e),
        Ok((rest, _)) => Ok(rest),
    }
}

/// Decode a store buffer into a byte-span mapping: every key-value
/// pair is inserted in order of appearance, so a later duplicate key
/// overwrites an earlier one.
pub fn parse<'a>(buffer: &'a [u8]) -> (r: Result<StoreMap<'a>, Error>)
    ensures
        store_scan(buffer@) matches Ok(ps) ==> r matches Ok(m) && m.wf() && m@ == pairs_to_map(ps),
        store_scan(buffer@) matches Err(e) ==> r == Err::<StoreMap<'a>, Error>(e),
{
    let entries0 = match payload_entries(buffer) {
        Ok(e) => e,
        Err(err) => {
            return Err(err);
        },
    };
    let mut map = StoreMap::new();
    let mut buf: &[u8] = entries0;
    let ghost mut done: Seq<(Seq<u8>, Seq<u8>)> = Seq::empty();
    proof {
        assert(done + scan_pairs(buf@).unwrap() =~= scan_pairs(buf@).unwrap());
    }
    while buf.len() > 0
        invariant
            map.wf(),
            map@ == pairs_to_map(done),
            store_prelude(buffer@) matches Ok(e0) && e0 == entries0@,
            match scan_pairs(buf@) {
                Some(ps) => scan_pairs(entries0@) == Some(done + ps),
                None => scan_pairs(entries0@) is None,
            },
        decreases buf@.len(),
    {
        let (next, key) = match read_container(buf) {
            Ok(p) => p,
            Err(e) => {
                return Err(e);
            },
        };
        let (next2, value) = match read_container(next) {
            Ok(p) => p,
            Err(e) => {
                return Err(e);
            },
        };
        proof {
            lemma_container_shrinks(buf@);
            lemma_container_shrinks(next@);
            if scan_pairs(next2@) is Some {
                let ps2 = scan_pairs(next2@).unwrap();
                assert(scan_pairs(buf@) == Some(seq![(key@, value@)] + ps2));
                assert(done + (seq![(key@, value@)] + ps2) =~= done.push((key@, value@)) + ps2);
            }
        }
        map.insert(key, value);
        proof {
            assert(done.push((key@, value@)).drop_last() =~= done);
            done = done.push((key@, value@));
        }
        buf = next2;
    }
    proof {
        assert(scan_pairs(buf@) == Some(Seq::<(Seq<u8>, Seq<u8>)>::empty()));
        assert(done + Seq::<(Seq<u8>, Seq<u8>)>::empty() =~= done);
    }
    Ok(map)
}

/// The string pairs that the raw pairs `ps` denote: each key decoded
/// lossily, each value holding one nested container whose content is
/// decoded lossily.
pub open spec fn string_pairs(ps: Seq<(Seq<u8>, Seq<u8>)>) -> Seq<(Seq<char>, Seq<char>)> {
    ps.map_values(
        |p: (Seq<u8>, Seq<u8>)|
            (utf8_lossy_of(p.0), utf8_lossy_of(container_parse(p.1).unwrap().0)),
    )
}

/// Whether every value span of `ps` itself starts with a well-formed
/// container.
pub open spec fn values_nested(ps: Seq<(Seq<u8>, Seq<u8>)>) -> bool {
    forall|i: int| 0 <= i < ps.len() ==> #[trigger] container_parse(ps[i].1) is Some
}

/// Decode a store buffer into a string mapping: each key is decoded as
/// lossy UTF-8, each value must hold one nested container whose
/// content is decoded as lossy UTF-8. Scanning stops at the first
/// value without a well-formed nested container and that failure is
/// surfaced, as if a visitor had signalled [`ParseControl::Stop`].
pub fn parse_string_key_value_pairs(buffer: &[u8]) -> (r: Result<StringMap, Error>)
    ensures
        store_scan(buffer@) matches Ok(ps) ==> (if values_nested(ps) {
            r matches Ok(m) && m.wf() && m@ == pairs_to_map(string_pairs(ps))
        } else {
            r == Err::<StringMap, Error>(Error::UnexpectedEof)
        }),
        store_scan(buffer@) matches Err(e) ==> r == Err::<StringMap, Error>(e),
{
    let entries0 = match payload_entries(buffer) {
        Ok(e) => e,
        Err(err) => {
            return Err(err);
        },
    };
    let mut map = StringMap::new();
    let mut buf: &[u8] = entries0;
    let ghost mut done: Seq<(Seq<u8>, Seq<u8>)> = Seq::empty();
    proof {
        assert(done + scan_pairs(buf@).unwrap() =~= scan_pairs(buf@).unwrap());
        assert(string_pairs(done) =~= Seq::<(Seq<char>, Seq<char>)>::empty());
    }
    while buf.len() > 0
        invariant
            map.wf(),
            map@ == pairs_to_map(string_pairs(done)),
            values_nested(done),
            store_prelude(buffer@) matches Ok(e0) && e0 == entries0@,
            match scan_pairs(buf@) {
                Some(ps) => scan_pairs(entries0@) == Some(done + ps),
                None => scan_pairs(entries0@) is None,
            },
        decreases buf@.len(),
    {
        let (next, key) = match read_container(buf) {
            Ok(p) => p,
            Err(e) => {
                return Err(e);
            },
        };
        let (next2, value) = match read_container(next) {
            Ok(p) => p,
            Err(e) => {
                return Err(e);
            },
        };
        proof {
            lemma_container_shrinks(buf@);
            lemma_container_shrinks(next@);
            if scan_pairs(next2@) is Some {
                let ps2 = scan_pairs(next2@).unwrap();
                assert(scan_pairs(buf@) == Some(seq![(key@, value@)] + ps2));
                assert(done + (seq![(key@, value@)] + ps2) =~= done.push((key@, value@)) + ps2);
            }
        }
        let content = match read_container(value) {
            Ok(p) => p.1,
            Err(e) => {
                proof {
                    if scan_pairs(entries0@) is Some {
                        let ps = scan_pairs(entries0@).unwrap();
                        assert(scan_pairs(buf@) is Some);
                        assert(scan_pairs(next2@) is Some);
                        let ps2 = scan_pairs(next2@).unwrap();
                        assert(scan_pairs(buf@).unwrap() == seq![(key@, value@)] + ps2);
                        assert(ps == done + (seq![(key@, value@)] + ps2));
                        assert(0 <= done.len() < ps.len());
                        assert(ps[done.len() as int] == (key@, value@));
                        assert(container_parse(ps[done.len() as int].1) is None);
                        assert(!values_nested(ps));
                    }
                }
                return Err(e);
            },
        };
        let key_string = utf8_lossy(key);
        let value_string = utf8_lossy(content);
        map.insert(key_string, value_string);
        proof {
            assert(string_pairs(done.push((key@, value@))) =~= string_pairs(done).push(
                (utf8_lossy_of(key@), utf8_lossy_of(container_parse(value@).unwrap().0)),
            ));
            assert(string_pairs(done.push((key@, value@))).drop_last() =~= string_pairs(done));
            done = done.push((key@, value@));
        }
        buf = next2;
    }
    proof {
        assert(scan_pairs(buf@) == Some(Seq::<(Seq<u8>, Seq<u8>)>::empty()));
        assert(done + Seq::<(Seq<u8>, Seq<u8>)>::empty() =~= done);
    }
    Ok(map)
}

/// The canonical varint encoding of `v`: base-128 digits, least
/// significant first, the continuation flag on all but the last byte.
pub open spec fn varint_enc(v: nat) -> Seq<u8>
    decreases v,
{
    if v < 128 {
        seq![v as u8]
    } else {
        seq![(128 + v % 128) as u8] + varint_enc(v / 128)
    }
}

proof fn lemma_varint_enc_decode(v: nat, rest: Seq<u8>)
    ensures
        first_term(varint_enc(v) + rest) == Some(varint_enc(v).len() - 1),
        varint_val((varint_enc(v) + rest).take(varint_enc(v).len() as int)) == v,
    decreases v,
{
    let e = varint_enc(v);
    if v < 128 {
        assert((e + rest)[0] == v as u8);
        assert(first_term(e + rest) == Some(0int));
        assert((e + rest).take(1) =~= e);
        assert(e.skip(1) =~= Seq::<u8>::empty());
        assert(varint_val(Seq::<u8>::empty()) == 0);
        assert(e[0] == v as u8);
        assert(varint_val(e) == digit7(e[0]) + 128 * varint_val(e.skip(1)));
        assert(varint_val(e) == v);
    } else {
        let b = (128 + v % 128) as u8;
        let e2 = varint_enc(v / 128);
        assert((e + rest)[0] == b);
        assert(has_more(b));
        lemma_varint_enc_decode(v / 128, rest);
        assert((e + rest).skip(1) =~= e2 + rest);
        assert(first_term(e + rest) == Some(e.len() - 1));
        let t = (e + rest).take(e.len() as int);
        assert(t[0] == b);
        assert(t.skip(1) =~= (e2 + rest).take(e2.len() as int));
        assert(varint_val(t) == digit7(b) + 128 * (v / 128));
        assert(digit7(b) == v % 128);
    }
}

/// Law: decoding recovers any canonically encoded varint. For every
/// 64-bit value, the encoding followed by any remainder decodes to
/// exactly that value, consuming exactly the encoding: the remainder
/// starts right after the terminating byte.
pub proof fn lemma_varint_roundtrip(v: u64, rest: Seq<u8>)
    ensures
        varint_parse(varint_enc(v as nat) + rest) == Some(
            (varint_enc(v as nat).len() as int, v),
        ),
        (varint_enc(v as nat) + rest).skip(varint_enc(v as nat).len() as int) == rest,
{
    let e = varint_enc(v as nat);
    lemma_varint_enc_decode(v as nat, rest);
    assert(varint_val((e + rest).take(e.len() as int)) % two_to_64() == v);
    assert((e + rest).skip(e.len() as int) =~= rest);
}

/// Law: a buffer whose every byte carries the continuation flag holds
/// no terminator, so varint decoding finds nothing to return.
pub proof fn lemma_varint_no_terminator(s: Seq<u8>)
    requires
        forall|i: int| 0 <= i < s.len() ==> has_more(s[i]),
    ensures
        varint_parse(s) is None,
{
    lemma_first_term_at(s, s.len() as int);
}

/// Law: a container whose length prefix is a single zero byte has
/// empty content, and the remainder starts right after that byte.
pub proof fn lemma_container_zero_length(rest: Seq<u8>)
    ensures
        container_parse(seq![0u8] + rest) == Some((Seq::<u8>::empty(), rest)),
{
    let s = seq![0u8] + rest;
    assert(s[0] == 0);
    assert(first_term(s) == Some(0int));
    assert(s.take(1) =~= seq![0u8]);
    assert(seq![0u8].skip(1) =~= Seq::<u8>::empty());
    assert(varint_val(Seq::<u8>::empty()) == 0);
    assert(seq![0u8][0] == 0u8);
    assert(varint_val(seq![0u8]) == digit7(0u8) + 128 * varint_val(seq![0u8].skip(1)));
    assert(varint_val(s.take(1)) == 0);
    assert(s.skip(1) =~= rest);
    assert(rest.take(0) =~= Seq::<u8>::empty());
    assert(rest.skip(0) =~= rest);
}

} // verus!
