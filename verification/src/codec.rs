//! Little-endian byte primitives of the archive format.
//!
//! The format is pinned down by spec parsers: `spec_parse_*(b, pos)` says
//! which value the bytes of `b` starting at `pos` denote and where the next
//! field begins, or `None` when the bytes are not a valid encoding. Each
//! encoder appends bytes and guarantees that parsing them back yields exactly
//! the value that was written; each decoder returns exactly what the spec
//! parser denotes. Multi-byte integers are little-endian; strings are a byte
//! count followed by UTF-8 bytes; options are a presence byte.

use vstd::prelude::*;
use vstd::slice::{slice_subrange, slice_to_vec};
use vstd::string::StringSliceAdditionalSpecFns;
use vstd::utf8::{decode_utf8, encode_utf8, valid_utf8};

verus! {

broadcast use vstd::slice::axiom_spec_len, vstd::utf8::encode_utf8_valid_utf8, vstd::utf8::encode_utf8_decode_utf8;

// ---------------------------------------------------------------------------
// Prefix reasoning
// ---------------------------------------------------------------------------

/// `b` begins with `p`.
pub open spec fn seq_starts_with(b: Seq<u8>, p: Seq<u8>) -> bool {
    p.len() <= b.len() && b.subrange(0, p.len() as int) == p
}

pub proof fn lemma_starts_with_trans(a: Seq<u8>, b: Seq<u8>, c: Seq<u8>)
    requires
        seq_starts_with(a, b),
        seq_starts_with(b, c),
    ensures
        seq_starts_with(a, c),
{
    assert(a.subrange(0, c.len() as int) =~= c) by {
        assert forall|i: int| 0 <= i < c.len() implies a[i] == c[i] by {
            assert(a[i] == a.subrange(0, b.len() as int)[i]);
            assert(b[i] == b.subrange(0, c.len() as int)[i]);
        }
    }
}

// ---------------------------------------------------------------------------
// u16
// ---------------------------------------------------------------------------

pub open spec fn le_u16(b0: u8, b1: u8) -> u16 {
    (b0 as u16) | ((b1 as u16) << 8)
}

pub open spec fn spec_parse_u16(b: Seq<u8>, pos: int) -> Option<(u16, int)> {
    if 0 <= pos && pos + 2 <= b.len() {
        Some((le_u16(b[pos], b[pos + 1]), pos + 2))
    } else {
        None
    }
}

pub proof fn lemma_parse_u16_prefix(b: Seq<u8>, b2: Seq<u8>, pos: int)
    requires
        spec_parse_u16(b, pos) is Some,
        seq_starts_with(b2, b),
    ensures
        spec_parse_u16(b2, pos) == spec_parse_u16(b, pos),
{
    assert(forall|i: int| 0 <= i < b.len() ==> b2[i] == b2.subrange(0, b.len() as int)[i]);
}

pub fn enc_u16(out: &mut Vec<u8>, x: u16)
    ensures
        final(out)@.len() == old(out)@.len() + 2,
        seq_starts_with(final(out)@, old(out)@),
        spec_parse_u16(final(out)@, old(out)@.len() as int) == Some((x, final(out)@.len() as int)),
{
    let b0: u8 = (x & 0xff) as u8;
    let b1: u8 = ((x >> 8) & 0xff) as u8;
    out.push(b0);
    out.push(b1);
    proof {
        assert(le_u16(b0, b1) == x) by (bit_vector)
            requires
                b0 == (x & 0xff) as u8 && b1 == ((x >> 8) & 0xff) as u8,
        ;
        assert(out@.subrange(0, old(out)@.len() as int) =~= old(out)@);
    }
}

pub fn dec_u16(b: &[u8], pos: usize) -> (r: Option<(u16, usize)>)
    ensures
        match r {
            Some((x, p)) => spec_parse_u16(b@, pos as int) == Some((x, p as int)),
            None => spec_parse_u16(b@, pos as int) is None,
        },
{
    if pos <= b.len() && b.len() - pos >= 2 {
        let b0 = b[pos];
        let b1 = b[pos + 1];
        Some(((b0 as u16) | ((b1 as u16) << 8), pos + 2))
    } else {
        None
    }
}

// ---------------------------------------------------------------------------
// u32
// ---------------------------------------------------------------------------

pub open spec fn le_u32(b0: u8, b1: u8, b2: u8, b3: u8) -> u32 {
    (b0 as u32) | ((b1 as u32) << 8) | ((b2 as u32) << 16) | ((b3 as u32) << 24)
}

pub open spec fn spec_parse_u32(b: Seq<u8>, pos: int) -> Option<(u32, int)> {
    if 0 <= pos && pos + 4 <= b.len() {
        Some((le_u32(b[pos], b[pos + 1], b[pos + 2], b[pos + 3]), pos + 4))
    } else {
        None
    }
}

pub proof fn lemma_parse_u32_prefix(b: Seq<u8>, b2: Seq<u8>, pos: int)
    requires
        spec_parse_u32(b, pos) is Some,
        seq_starts_with(b2, b),
    ensures
        spec_parse_u32(b2, pos) == spec_parse_u32(b, pos),
{
    assert(forall|i: int| 0 <= i < b.len() ==> b2[i] == b2.subrange(0, b.len() as int)[i]);
}

pub fn enc_u32(out: &mut Vec<u8>, x: u32)
    ensures
        final(out)@.len() == old(out)@.len() + 4,
        seq_starts_with(final(out)@, old(out)@),
        spec_parse_u32(final(out)@, old(out)@.len() as int) == Some((x, final(out)@.len() as int)),
{
    let b0: u8 = (x & 0xff) as u8;
    let b1: u8 = ((x >> 8) & 0xff) as u8;
    let b2: u8 = ((x >> 16) & 0xff) as u8;
    let b3: u8 = ((x >> 24) & 0xff) as u8;
    out.push(b0);
    out.push(b1);
    out.push(b2);
    out.push(b3);
    proof {
        assert(le_u32(b0, b1, b2, b3) == x) by (bit_vector)
            requires
                b0 == (x & 0xff) as u8 && b1 == ((x >> 8) & 0xff) as u8 && b2 == ((x >> 16)
                    & 0xff) as u8 && b3 == ((x >> 24) & 0xff) as u8,
        ;
        assert(out@.subrange(0, old(out)@.len() as int) =~= old(out)@);
    }
}

pub fn dec_u32(b: &[u8], pos: usize) -> (r: Option<(u32, usize)>)
    ensures
        match r {
            Some((x, p)) => spec_parse_u32(b@, pos as int) == Some((x, p as int)),
            None => spec_parse_u32(b@, pos as int) is None,
        },
{
    if pos <= b.len() && b.len() - pos >= 4 {
        let b0 = b[pos];
        let b1 = b[pos + 1];
        let b2 = b[pos + 2];
        let b3 = b[pos + 3];
        Some(((b0 as u32) | ((b1 as u32) << 8) | ((b2 as u32) << 16) | ((b3 as u32) << 24), pos + 4))
    } else {
        None
    }
}

// ---------------------------------------------------------------------------
// u64
// ---------------------------------------------------------------------------

pub open spec fn le_u64(b0: u8, b1: u8, b2: u8, b3: u8, b4: u8, b5: u8, b6: u8, b7: u8) -> u64 {
    (b0 as u64) | ((b1 as u64) << 8) | ((b2 as u64) << 16) | ((b3 as u64) << 24) | ((b4
        as u64) << 32) | ((b5 as u64) << 40) | ((b6 as u64) << 48) | ((b7 as u64) << 56)
}

pub open spec fn spec_parse_u64(b: Seq<u8>, pos: int) -> Option<(u64, int)> {
    if 0 <= pos && pos + 8 <= b.len() {
        Some(
            (
                le_u64(
                    b[pos],
                    b[pos + 1],
                    b[pos + 2],
                    b[pos + 3],
                    b[pos + 4],
                    b[pos + 5],
                    b[pos + 6],
                    b[pos + 7],
                ),
                pos + 8,
            ),
        )
    } else {
        None
    }
}

pub proof fn lemma_parse_u64_prefix(b: Seq<u8>, b2: Seq<u8>, pos: int)
    requires
        spec_parse_u64(b, pos) is Some,
        seq_starts_with(b2, b),
    ensures
        spec_parse_u64(b2, pos) == spec_parse_u64(b, pos),
{
    assert(forall|i: int| 0 <= i < b.len() ==> b2[i] == b2.subrange(0, b.len() as int)[i]);
}

pub fn enc_u64(out: &mut Vec<u8>, x: u64)
    ensures
        final(out)@.len() == old(out)@.len() + 8,
        seq_starts_with(final(out)@, old(out)@),
        spec_parse_u64(final(out)@, old(out)@.len() as int) == Some((x, final(out)@.len() as int)),
{
    let b0: u8 = (x & 0xff) as u8;
    let b1: u8 = ((x >> 8) & 0xff) as u8;
    let b2: u8 = ((x >> 16) & 0xff) as u8;
    let b3: u8 = ((x >> 24) & 0xff) as u8;
    let b4: u8 = ((x >> 32) & 0xff) as u8;
    let b5: u8 = ((x >> 40) & 0xff) as u8;
    let b6: u8 = ((x >> 48) & 0xff) as u8;
    let b7: u8 = ((x >> 56) & 0xff) as u8;
    out.push(b0);
    out.push(b1);
    out.push(b2);
    out.push(b3);
    out.push(b4);
    out.push(b5);
    out.push(b6);
    out.push(b7);
    proof {
        assert(le_u64(b0, b1, b2, b3, b4, b5, b6, b7) == x) by (bit_vector)
            requires
                b0 == (x & 0xff) as u8 && b1 == ((x >> 8) & 0xff) as u8 && b2 == ((x >> 16)
                    & 0xff) as u8 && b3 == ((x >> 24) & 0xff) as u8 && b4 == ((x >> 32)
                    & 0xff) as u8 && b5 == ((x >> 40) & 0xff) as u8 && b6 == ((x >> 48)
                    & 0xff) as u8 && b7 == ((x >> 56) & 0xff) as u8,
        ;
        assert(out@.subrange(0, old(out)@.len() as int) =~= old(out)@);
    }
}

pub fn dec_u64(b: &[u8], pos: usize) -> (r: Option<(u64, usize)>)
    ensures
        match r {
            Some((x, p)) => spec_parse_u64(b@, pos as int) == Some((x, p as int)),
            None => spec_parse_u64(b@, pos as int) is None,
        },
{
    if pos <= b.len() && b.len() - pos >= 8 {
        let b0 = b[pos];
        let b1 = b[pos + 1];
        let b2 = b[pos + 2];
        let b3 = b[pos + 3];
        let b4 = b[pos + 4];
        let b5 = b[pos + 5];
        let b6 = b[pos + 6];
        let b7 = b[pos + 7];
        Some(
            (
                (b0 as u64) | ((b1 as u64) << 8) | ((b2 as u64) << 16) | ((b3 as u64) << 24) | ((b4
                    as u64) << 32) | ((b5 as u64) << 40) | ((b6 as u64) << 48) | ((b7
                    as u64) << 56),
                pos + 8,
            ),
        )
    } else {
        None
    }
}

// ---------------------------------------------------------------------------
// bool: one byte, 0 or 1; anything else is rejected
// ---------------------------------------------------------------------------

pub open spec fn spec_parse_bool(b: Seq<u8>, pos: int) -> Option<(bool, int)> {
    if 0 <= pos && pos + 1 <= b.len() {
        if b[pos] == 0u8 {
            Some((false, pos + 1))
        } else if b[pos] == 1u8 {
            Some((true, pos + 1))
        } else {
            None
        }
    } else {
        None
    }
}

pub proof fn lemma_parse_bool_prefix(b: Seq<u8>, b2: Seq<u8>, pos: int)
    requires
        spec_parse_bool(b, pos) is Some,
        seq_starts_with(b2, b),
    ensures
        spec_parse_bool(b2, pos) == spec_parse_bool(b, pos),
{
    assert(b2[pos] == b2.subrange(0, b.len() as int)[pos]);
}

pub fn enc_bool(out: &mut Vec<u8>, x: bool)
    ensures
        final(out)@.len() == old(out)@.len() + 1,
        seq_starts_with(final(out)@, old(out)@),
        spec_parse_bool(final(out)@, old(out)@.len() as int) == Some((x, final(out)@.len() as int)),
{
    out.push(if x { 1u8 } else { 0u8 });
    proof {
        assert(out@.subrange(0, old(out)@.len() as int) =~= old(out)@);
    }
}

pub fn dec_bool(b: &[u8], pos: usize) -> (r: Option<(bool, usize)>)
    ensures
        match r {
            Some((x, p)) => spec_parse_bool(b@, pos as int) == Some((x, p as int)),
            None => spec_parse_bool(b@, pos as int) is None,
        },
{
    if pos < b.len() {
        let v = b[pos];
        if v == 0 {
            Some((false, pos + 1))
        } else if v == 1 {
            Some((true, pos + 1))
        } else {
            None
        }
    } else {
        None
    }
}

// ---------------------------------------------------------------------------
// i16: stored as its two's-complement 16-bit pattern
// ---------------------------------------------------------------------------

pub open spec fn i16_to_u16(x: i16) -> u16 {
    if x >= 0 {
        x as u16
    } else {
        (x + 0x10000) as u16
    }
}

pub open spec fn u16_to_i16(x: u16) -> i16 {
    if x < 0x8000 {
        x as i16
    } else {
        (x - 0x10000) as i16
    }
}

pub open spec fn spec_parse_i16(b: Seq<u8>, pos: int) -> Option<(i16, int)> {
    match spec_parse_u16(b, pos) {
        Some((x, p)) => Some((u16_to_i16(x), p)),
        None => None,
    }
}

pub proof fn lemma_parse_i16_prefix(b: Seq<u8>, b2: Seq<u8>, pos: int)
    requires
        spec_parse_i16(b, pos) is Some,
        seq_starts_with(b2, b),
    ensures
        spec_parse_i16(b2, pos) == spec_parse_i16(b, pos),
{
    lemma_parse_u16_prefix(b, b2, pos);
}

pub fn enc_i16(out: &mut Vec<u8>, x: i16)
    ensures
        final(out)@.len() == old(out)@.len() + 2,
        seq_starts_with(final(out)@, old(out)@),
        spec_parse_i16(final(out)@, old(out)@.len() as int) == Some((x, final(out)@.len() as int)),
{
    let u: u16 = if x >= 0 {
        x as u16
    } else {
        ((x as i32) + 0x10000) as u16
    };
    enc_u16(out, u);
    proof {
        assert(u16_to_i16(i16_to_u16(x)) == x);
        assert(u == i16_to_u16(x));
    }
}

pub fn dec_i16(b: &[u8], pos: usize) -> (r: Option<(i16, usize)>)
    ensures
        match r {
            Some((x, p)) => spec_parse_i16(b@, pos as int) == Some((x, p as int)),
            None => spec_parse_i16(b@, pos as int) is None,
        },
{
    match dec_u16(b, pos) {
        Some((u, p)) => {
            let x: i16 = if u < 0x8000 {
                u as i16
            } else {
                ((u as i32) - 0x10000) as i16
            };
            Some((x, p))
        },
        None => None,
    }
}

// ---------------------------------------------------------------------------
// strings: u64 byte count, then that many UTF-8 bytes
// ---------------------------------------------------------------------------

pub open spec fn spec_parse_str(b: Seq<u8>, pos: int) -> Option<(Seq<char>, int)> {
    match spec_parse_u64(b, pos) {
        Some((n, p)) => {
            if p + n <= b.len() && valid_utf8(b.subrange(p, p + n)) {
                Some((decode_utf8(b.subrange(p, p + n)), p + n))
            } else {
                None
            }
        },
        None => None,
    }
}

pub proof fn lemma_parse_str_prefix(b: Seq<u8>, b2: Seq<u8>, pos: int)
    requires
        spec_parse_str(b, pos) is Some,
        seq_starts_with(b2, b),
    ensures
        spec_parse_str(b2, pos) == spec_parse_str(b, pos),
{
    lemma_parse_u64_prefix(b, b2, pos);
    let (n, p) = spec_parse_u64(b, pos)->Some_0;
    assert(b2.subrange(p, p + n as int) =~= b.subrange(p, p + n as int)) by {
        assert(forall|i: int| 0 <= i < b.len() ==> b2[i] == b2.subrange(0, b.len() as int)[i]);
    }
}

/// Relies on `String::from_utf8`: it succeeds exactly on valid UTF-8 input
/// and yields the string of the decoded characters.
#[verifier::external_body]
fn string_from_utf8(bytes: Vec<u8>) -> (r: Option<String>)
    ensures
        r is Some <==> valid_utf8(bytes@),
        r matches Some(s) ==> s@ == decode_utf8(bytes@),
{
    String::from_utf8(bytes).ok()
}

pub fn enc_str(out: &mut Vec<u8>, s: &str)
    ensures
        final(out)@.len() > old(out)@.len(),
        seq_starts_with(final(out)@, old(out)@),
        spec_parse_str(final(out)@, old(out)@.len() as int) == Some((s@, final(out)@.len() as int)),
{
    let bytes: &[u8] = s.as_bytes();
    let n: usize = bytes.len();
    enc_u64(out, n as u64);
    let ghost after_len = out@;
    proof {
        assert(out@.subrange(0, out@.len() as int) =~= out@);
    }
    let mut i: usize = 0;
    while i < n
        invariant
            i <= n,
            n == bytes@.len(),
            out@.len() == after_len.len() + i,
            seq_starts_with(out@, after_len),
            out@.subrange(after_len.len() as int, out@.len() as int) =~= bytes@.subrange(
                0,
                i as int,
            ),
        decreases n - i,
    {
        out.push(bytes[i]);
        i += 1;
        proof {
            assert(out@.subrange(0, after_len.len() as int) =~= after_len);
            assert(out@.subrange(after_len.len() as int, out@.len() as int) =~= bytes@.subrange(
                0,
                i as int,
            ));
        }
    }
    proof {
        lemma_parse_u64_prefix(after_len, out@, old(out)@.len() as int);
        assert(out@.subrange(after_len.len() as int, out@.len() as int) =~= bytes@);
        assert(bytes@ == encode_utf8(s@));
        assert(valid_utf8(encode_utf8(s@)));
        assert(decode_utf8(encode_utf8(s@)) == s@);
        assert(seq_starts_with(out@, old(out)@)) by {
            assert(out@.subrange(0, old(out)@.len() as int) =~= old(out)@) by {
                assert(forall|j: int|
                    0 <= j < old(out)@.len() ==> out@[j] == out@.subrange(
                        0,
                        after_len.len() as int,
                    )[j]);
            }
        }
    }
}

pub fn dec_str(b: &[u8], pos: usize) -> (r: Option<(String, usize)>)
    ensures
        match r {
            Some((s, p)) => {
                &&& spec_parse_str(b@, pos as int) is Some
                &&& s@ == spec_parse_str(b@, pos as int)->Some_0.0
                &&& p as int == spec_parse_str(b@, pos as int)->Some_0.1
            },
            None => spec_parse_str(b@, pos as int) is None,
        },
{
    match dec_u64(b, pos) {
        Some((n, p)) => {
            if n <= (b.len() - p) as u64 {
                let end: usize = p + (n as usize);
                let sub = slice_subrange(b, p, end);
                let v = slice_to_vec(sub);
                match string_from_utf8(v) {
                    Some(s) => Some((s, end)),
                    None => None,
                }
            } else {
                None
            }
        },
        None => None,
    }
}

} // verus!
