//! The byte-string codec: standard base64 with padding.
//!
//! Binary fields of the wire format are carried as base64 text.  The codec
//! is specified bit by bit: encoding is total and always produces padded
//! standard base64; decoding accepts exactly the strings the validity
//! predicate [`spec_b64_valid`] describes and fails otherwise.

use vstd::prelude::*;

use crate::error::JsonFault;
use crate::json::bytes_eq;

verus! {

/// The padding character `=`.
pub const PAD: u8 = 0x3d;

/// The character of the standard base64 alphabet denoting the 6-bit value
/// `v` (which must be below 64).
pub open spec fn b64_char_of(v: u8) -> u8 {
    if v < 26 {
        (0x41 + v) as u8  // 'A'..='Z'
    } else if v < 52 {
        (0x61 + (v - 26)) as u8  // 'a'..='z'
    } else if v < 62 {
        (0x30 + (v - 52)) as u8  // '0'..='9'
    } else if v == 62 {
        0x2b  // '+'
    } else {
        0x2f  // '/'
    }
}

/// Whether `c` belongs to the standard base64 alphabet (padding excluded).
pub open spec fn is_b64_char(c: u8) -> bool {
    (0x41 <= c <= 0x5a) || (0x61 <= c <= 0x7a) || (0x30 <= c <= 0x39) || c == 0x2b || c == 0x2f
}

/// The 6-bit value denoted by `c`, or 64 when `c` is not in the alphabet.
pub open spec fn b64_val(c: u8) -> u8 {
    if 0x41 <= c <= 0x5a {
        (c - 0x41) as u8
    } else if 0x61 <= c <= 0x7a {
        (c - 0x61 + 26) as u8
    } else if 0x30 <= c <= 0x39 {
        (c - 0x30 + 52) as u8
    } else if c == 0x2b {
        62
    } else if c == 0x2f {
        63
    } else {
        64
    }
}

/// The four characters encoding a full three-byte group.
pub open spec fn enc3(b0: u8, b1: u8, b2: u8) -> Seq<u8> {
    seq![
        b64_char_of(b0 >> 2),
        b64_char_of(((b0 & 3) << 4) | (b1 >> 4)),
        b64_char_of(((b1 & 15) << 2) | (b2 >> 6)),
        b64_char_of(b2 & 63),
    ]
}

/// The four characters encoding a trailing two-byte group.
pub open spec fn enc2(b0: u8, b1: u8) -> Seq<u8> {
    seq![
        b64_char_of(b0 >> 2),
        b64_char_of(((b0 & 3) << 4) | (b1 >> 4)),
        b64_char_of((b1 & 15) << 2),
        PAD,
    ]
}

/// The four characters encoding a trailing one-byte group.
pub open spec fn enc1(b0: u8) -> Seq<u8> {
    seq![b64_char_of(b0 >> 2), b64_char_of((b0 & 3) << 4), PAD, PAD]
}

/// Standard base64 with padding: the bytes `s` encoded three at a time,
/// with a shorter padded group at the end.
pub open spec fn spec_b64_encode(s: Seq<u8>) -> Seq<u8>
    decreases s.len(),
{
    if s.len() == 0 {
        Seq::empty()
    } else if s.len() == 1 {
        enc1(s[0])
    } else if s.len() == 2 {
        enc2(s[0], s[1])
    } else {
        enc3(s[0], s[1], s[2]) + spec_b64_encode(s.skip(3))
    }
}

/// A well-formed final group: four alphabet characters, or three and one
/// padding character, or two and two padding characters.
pub open spec fn last_group_valid(c0: u8, c1: u8, c2: u8, c3: u8) -> bool {
    is_b64_char(c0) && is_b64_char(c1) && ((is_b64_char(c2) && is_b64_char(c3)) || (is_b64_char(
        c2,
    ) && c3 == PAD) || (c2 == PAD && c3 == PAD))
}

/// Whether `t` is well-formed padded standard base64: a multiple of four
/// characters, all from the alphabet, with padding allowed only in the last
/// group.
pub open spec fn spec_b64_valid(t: Seq<u8>) -> bool
    decreases t.len(),
{
    if t.len() == 0 {
        true
    } else if t.len() == 4 {
        last_group_valid(t[0], t[1], t[2], t[3])
    } else if t.len() > 4 {
        is_b64_char(t[0]) && is_b64_char(t[1]) && is_b64_char(t[2]) && is_b64_char(t[3])
            && spec_b64_valid(t.skip(4))
    } else {
        false
    }
}

/// The first decoded byte of a group.
pub open spec fn dec0(c0: u8, c1: u8) -> u8 {
    (b64_val(c0) << 2) | (b64_val(c1) >> 4)
}

/// The second decoded byte of a group.
pub open spec fn dec1(c1: u8, c2: u8) -> u8 {
    ((b64_val(c1) & 15) << 4) | (b64_val(c2) >> 2)
}

/// The third decoded byte of a group.
pub open spec fn dec2(c2: u8, c3: u8) -> u8 {
    ((b64_val(c2) & 3) << 6) | b64_val(c3)
}

/// The bytes denoted by well-formed padded base64 text, group by group.
pub open spec fn spec_b64_decode(t: Seq<u8>) -> Seq<u8>
    decreases t.len(),
{
    if t.len() < 4 {
        Seq::empty()
    } else if t.len() == 4 {
        if t[3] == PAD {
            if t[2] == PAD {
                seq![dec0(t[0], t[1])]
            } else {
                seq![dec0(t[0], t[1]), dec1(t[1], t[2])]
            }
        } else {
            seq![dec0(t[0], t[1]), dec1(t[1], t[2]), dec2(t[2], t[3])]
        }
    } else {
        seq![dec0(t[0], t[1]), dec1(t[1], t[2]), dec2(t[2], t[3])] + spec_b64_decode(t.skip(4))
    }
}

/// The alphabet round trip: every 6-bit value is denoted by its character.
pub proof fn lemma_b64_char_val(v: u8)
    requires
        v < 64,
    ensures
        is_b64_char(b64_char_of(v)),
        b64_val(b64_char_of(v)) == v,
        b64_char_of(v) != PAD,
{
}

/// The character denoting each 6-bit piece of a group is in the alphabet,
/// because each piece is below 64.
proof fn lemma_pieces_in_range(b0: u8, b1: u8, b2: u8)
    ensures
        b0 >> 2 < 64,
        ((b0 & 3) << 4) | (b1 >> 4) < 64,
        ((b1 & 15) << 2) | (b2 >> 6) < 64,
        b2 & 63 < 64,
        (b0 & 3) << 4 < 64,
        (b1 & 15) << 2 < 64,
    decreases b0,
{
    assert(b0 >> 2 < 64) by (bit_vector);
    assert(((b0 & 3) << 4) | (b1 >> 4) < 64) by (bit_vector);
    assert(((b1 & 15) << 2) | (b2 >> 6) < 64) by (bit_vector);
    assert(b2 & 63 < 64) by (bit_vector);
    assert((b0 & 3) << 4 < 64) by (bit_vector);
    assert((b1 & 15) << 2 < 64) by (bit_vector);
}

/// Decoding inverts encoding on one full group.
proof fn lemma_group_round_trip(b0: u8, b1: u8, b2: u8)
    ensures
        dec0(b64_char_of(b0 >> 2), b64_char_of(((b0 & 3) << 4) | (b1 >> 4))) == b0,
        dec1(
            b64_char_of(((b0 & 3) << 4) | (b1 >> 4)),
            b64_char_of(((b1 & 15) << 2) | (b2 >> 6)),
        ) == b1,
        dec2(b64_char_of(((b1 & 15) << 2) | (b2 >> 6)), b64_char_of(b2 & 63)) == b2,
        dec1(b64_char_of(((b0 & 3) << 4) | (b1 >> 4)), b64_char_of((b1 & 15) << 2)) == b1,
        dec0(b64_char_of(b0 >> 2), b64_char_of((b0 & 3) << 4)) == b0,
{
    lemma_pieces_in_range(b0, b1, b2);
    lemma_b64_char_val(b0 >> 2);
    lemma_b64_char_val(((b0 & 3) << 4) | (b1 >> 4));
    lemma_b64_char_val(((b1 & 15) << 2) | (b2 >> 6));
    lemma_b64_char_val(b2 & 63);
    lemma_b64_char_val((b0 & 3) << 4);
    lemma_b64_char_val((b1 & 15) << 2);
    let v0 = b0 >> 2;
    let v1 = ((b0 & 3) << 4) | (b1 >> 4);
    let v2 = ((b1 & 15) << 2) | (b2 >> 6);
    let v3 = b2 & 63;
    assert((v0 << 2) | (v1 >> 4) == b0) by (bit_vector)
        requires
            v0 == b0 >> 2,
            v1 == ((b0 & 3) << 4) | (b1 >> 4),
    ;
    assert(((v1 & 15) << 4) | (v2 >> 2) == b1) by (bit_vector)
        requires
            v1 == ((b0 & 3) << 4) | (b1 >> 4),
            v2 == ((b1 & 15) << 2) | (b2 >> 6),
    ;
    assert(((v2 & 3) << 6) | v3 == b2) by (bit_vector)
        requires
            v2 == ((b1 & 15) << 2) | (b2 >> 6),
            v3 == b2 & 63,
    ;
    let w2 = (b1 & 15) << 2;
    assert(((v1 & 15) << 4) | (w2 >> 2) == b1) by (bit_vector)
        requires
            v1 == ((b0 & 3) << 4) | (b1 >> 4),
            w2 == (b1 & 15) << 2,
    ;
    let w1 = (b0 & 3) << 4;
    assert((v0 << 2) | (w1 >> 4) == b0) by (bit_vector)
        requires
            v0 == b0 >> 2,
            w1 == (b0 & 3) << 4,
    ;
}

/// Round trip of the codec: the encoding of any byte sequence is
/// well-formed padded base64 of a length that is a multiple of four, and
/// decoding it gives the bytes back.
pub proof fn lemma_base64_round_trip(s: Seq<u8>)
    ensures
        spec_b64_valid(spec_b64_encode(s)),
        spec_b64_decode(spec_b64_encode(s)) == s,
        spec_b64_encode(s).len() % 4 == 0,
    decreases s.len(),
{
    if s.len() == 0 {
        assert(spec_b64_decode(spec_b64_encode(s)) =~= s);
    } else if s.len() == 1 {
        lemma_pieces_in_range(s[0], 0, 0);
        lemma_b64_char_val(s[0] >> 2);
        lemma_b64_char_val((s[0] & 3) << 4);
        lemma_group_round_trip(s[0], 0, 0);
        assert(spec_b64_decode(spec_b64_encode(s)) =~= s);
    } else if s.len() == 2 {
        lemma_pieces_in_range(s[0], s[1], 0);
        lemma_b64_char_val(s[0] >> 2);
        lemma_b64_char_val(((s[0] & 3) << 4) | (s[1] >> 4));
        lemma_b64_char_val((s[1] & 15) << 2);
        lemma_group_round_trip(s[0], s[1], 0);
        assert(spec_b64_decode(spec_b64_encode(s)) =~= s);
    } else {
        let b0 = s[0];
        let b1 = s[1];
        let b2 = s[2];
        let rest = s.skip(3);
        lemma_base64_round_trip(rest);
        lemma_pieces_in_range(b0, b1, b2);
        lemma_b64_char_val(b0 >> 2);
        lemma_b64_char_val(((b0 & 3) << 4) | (b1 >> 4));
        lemma_b64_char_val(((b1 & 15) << 2) | (b2 >> 6));
        lemma_b64_char_val(b2 & 63);
        lemma_group_round_trip(b0, b1, b2);
        let e = spec_b64_encode(rest);
        let g = enc3(b0, b1, b2);
        assert(spec_b64_encode(s) == g + e);
        assert((g + e).len() == 4 + e.len());
        if e.len() == 0 {
            assert(spec_b64_valid(g + e)) by {
                assert((g + e).len() == 4);
            }
            assert(spec_b64_decode(g + e) =~= s) by {
                assert((g + e)[3] != PAD);
            }
        } else {
            assert(e.len() >= 4);
            assert((g + e).skip(4) =~= e);
            assert(spec_b64_valid(g + e));
            assert(spec_b64_decode(g + e) == seq![
                dec0((g + e)[0], (g + e)[1]),
                dec1((g + e)[1], (g + e)[2]),
                dec2((g + e)[2], (g + e)[3]),
            ] + spec_b64_decode(e));
            assert(spec_b64_decode(g + e) =~= s) by {
                assert(rest =~= s.skip(3));
            }
        }
    }
}

/// The character of the alphabet denoting the 6-bit value `v`.
fn b64_char_exec(v: u8) -> (r: u8)
    requires
        v < 64,
    ensures
        r == b64_char_of(v),
{
    if v < 26 {
        0x41 + v
    } else if v < 52 {
        0x61 + (v - 26)
    } else if v < 62 {
        0x30 + (v - 52)
    } else if v == 62 {
        0x2b
    } else {
        0x2f
    }
}

/// The 6-bit value denoted by `c`, or 64 when `c` is not in the alphabet.
fn b64_val_exec(c: u8) -> (r: u8)
    ensures
        r == b64_val(c),
{
    if 0x41 <= c && c <= 0x5a {
        c - 0x41
    } else if 0x61 <= c && c <= 0x7a {
        c - 0x61 + 26
    } else if 0x30 <= c && c <= 0x39 {
        c - 0x30 + 52
    } else if c == 0x2b {
        62
    } else if c == 0x2f {
        63
    } else {
        64
    }
}

/// Appends the encoding of `s` from position `i` on to `out`.
fn encode_into(s: &[u8], i: usize, out: &mut Vec<u8>)
    requires
        i <= s@.len(),
    ensures
        final(out)@ == old(out)@ + spec_b64_encode(s@.skip(i as int)),
    decreases s@.len() - i,
{
    let n = s.len();
    let ghost prior = out@;
    if i == n {
        assert(prior + spec_b64_encode(s@.skip(i as int)) =~= prior);
        return ;
    }
    let b0 = s[i];
    proof {
        lemma_pieces_in_range(b0, 0, 0);
    }
    if n - i == 1 {
        out.push(b64_char_exec(b0 >> 2));
        out.push(b64_char_exec((b0 & 3) << 4));
        out.push(PAD);
        out.push(PAD);
        proof {
            assert(s@.skip(i as int) =~= seq![b0]);
            assert(out@ =~= prior + enc1(b0));
        }
    } else if n - i == 2 {
        let b1 = s[i + 1];
        proof {
            lemma_pieces_in_range(b0, b1, 0);
        }
        out.push(b64_char_exec(b0 >> 2));
        out.push(b64_char_exec(((b0 & 3) << 4) | (b1 >> 4)));
        out.push(b64_char_exec((b1 & 15) << 2));
        out.push(PAD);
        proof {
            assert(s@.skip(i as int) =~= seq![b0, b1]);
            assert(out@ =~= prior + enc2(b0, b1));
        }
    } else {
        let b1 = s[i + 1];
        let b2 = s[i + 2];
        proof {
            lemma_pieces_in_range(b0, b1, b2);
        }
        out.push(b64_char_exec(b0 >> 2));
        out.push(b64_char_exec(((b0 & 3) << 4) | (b1 >> 4)));
        out.push(b64_char_exec(((b1 & 15) << 2) | (b2 >> 6)));
        out.push(b64_char_exec(b2 & 63));
        let ghost mid = out@;
        encode_into(s, i + 3, out);
        proof {
            let tail = s@.skip(i as int);
            assert(tail.len() >= 3);
            assert(tail[0] == b0 && tail[1] == b1 && tail[2] == b2);
            assert(tail.skip(3) =~= s@.skip(i + 3));
            assert(mid =~= prior + enc3(b0, b1, b2));
            assert(out@ =~= prior + spec_b64_encode(tail));
        }
    }
}

/// Encodes bytes as standard base64 with padding.  Total: every byte
/// sequence has an encoding.
pub fn base64_encode(s: &[u8]) -> (r: Vec<u8>)
    ensures
        r@ == spec_b64_encode(s@),
{
    let mut out: Vec<u8> = Vec::new();
    encode_into(s, 0, &mut out);
    proof {
        assert(s@.skip(0) =~= s@);
        assert(out@ =~= spec_b64_encode(s@));
    }
    out
}

/// Appends the bytes denoted by the base64 text `t` from position `i` on to
/// `out`; reports whether the text from `i` on is well-formed.
fn decode_into(t: &[u8], i: usize, out: &mut Vec<u8>) -> (ok: bool)
    requires
        i <= t@.len(),
    ensures
        ok == spec_b64_valid(t@.skip(i as int)),
        ok ==> final(out)@ == old(out)@ + spec_b64_decode(t@.skip(i as int)),
    decreases t@.len() - i,
{
    let n = t.len();
    let ghost prior = out@;
    let ghost tail = t@.skip(i as int);
    if i == n {
        assert(prior + spec_b64_decode(tail) =~= prior);
        return true;
    }
    if n - i < 4 {
        return false;
    }
    let c0 = t[i];
    let c1 = t[i + 1];
    let c2 = t[i + 2];
    let c3 = t[i + 3];
    proof {
        assert(tail[0] == c0 && tail[1] == c1 && tail[2] == c2 && tail[3] == c3);
    }
    let v0 = b64_val_exec(c0);
    let v1 = b64_val_exec(c1);
    if v0 == 64 || v1 == 64 {
        return false;
    }
    assert(v0 < 64 && v1 < 64) by {
        assert(b64_val(c0) != 64 ==> b64_val(c0) < 64);
        assert(b64_val(c1) != 64 ==> b64_val(c1) < 64);
    }
    if n - i == 4 {
        if c3 == PAD {
            if c2 == PAD {
                out.push((v0 << 2) | (v1 >> 4));
                assert(out@ =~= prior + spec_b64_decode(tail));
                true
            } else {
                let v2 = b64_val_exec(c2);
                if v2 == 64 {
                    return false;
                }
                out.push((v0 << 2) | (v1 >> 4));
                out.push(((v1 & 15) << 4) | (v2 >> 2));
                assert(out@ =~= prior + spec_b64_decode(tail));
                true
            }
        } else {
            let v2 = b64_val_exec(c2);
            let v3 = b64_val_exec(c3);
            if v2 == 64 || v3 == 64 {
                return false;
            }
            out.push((v0 << 2) | (v1 >> 4));
            out.push(((v1 & 15) << 4) | (v2 >> 2));
            out.push(((v2 & 3) << 6) | v3);
            assert(out@ =~= prior + spec_b64_decode(tail));
            true
        }
    } else {
        let v2 = b64_val_exec(c2);
        let v3 = b64_val_exec(c3);
        if v2 == 64 || v3 == 64 {
            return false;
        }
        out.push((v0 << 2) | (v1 >> 4));
        out.push(((v1 & 15) << 4) | (v2 >> 2));
        out.push(((v2 & 3) << 6) | v3);
        let ghost mid = out@;
        let ok = decode_into(t, i + 4, out);
        proof {
            assert(tail.skip(4) =~= t@.skip(i + 4));
            if ok {
                assert(mid =~= prior + seq![dec0(c0, c1), dec1(c1, c2), dec2(c2, c3)]);
                assert(out@ =~= prior + spec_b64_decode(tail));
            }
        }
        ok
    }
}

/// Decodes standard base64 text with padding.  Fails exactly on text that
/// is not well-formed padded standard base64.
pub fn base64_decode(t: &[u8]) -> (r: Result<Vec<u8>, JsonFault>)
    ensures
        spec_b64_valid(t@) ==> match r {
            Ok(v) => v@ == spec_b64_decode(t@),
            Err(e) => false,
        },
        !spec_b64_valid(t@) ==> r == Err::<Vec<u8>, JsonFault>(JsonFault::InvalidEncoding),
{
    let mut out: Vec<u8> = Vec::new();
    let ok = decode_into(t, 0, &mut out);
    proof {
        assert(t@.skip(0) =~= t@);
    }
    if ok {
        Ok(out)
    } else {
        Err(JsonFault::InvalidEncoding)
    }
}

/// A wrapper around a list of bytes.
///
/// Used in schema types whose JSON representation is a base64-encoded
/// string denoting a list of bytes.
#[derive(Clone, Debug)]
pub struct ByteString(pub Vec<u8>);

impl View for ByteString {
    type V = Seq<u8>;

    open spec fn view(&self) -> Seq<u8> {
        self.0@
    }
}

impl PartialEq for ByteString {
    fn eq(&self, other: &ByteString) -> (r: bool) {
        bytes_eq(self.0.as_slice(), other.0.as_slice())
    }
}

impl vstd::std_specs::cmp::PartialEqSpecImpl for ByteString {
    open spec fn obeys_eq_spec() -> bool {
        true
    }

    open spec fn eq_spec(&self, other: &ByteString) -> bool {
        self.0@ == other.0@
    }
}

impl Default for ByteString {
    /// The empty byte string.
    fn default() -> (r: ByteString)
        ensures
            r@ == Seq::<u8>::empty(),
    {
        ByteString(Vec::new())
    }
}

impl ByteString {
    /// The wire form of the bytes: standard base64 with padding.
    pub fn to_base64(&self) -> (r: Vec<u8>)
        ensures
            r@ == spec_b64_encode(self@),
    {
        base64_encode(self.0.as_slice())
    }

    /// Reads the wire form: fails with [`JsonFault::InvalidEncoding`]
    /// exactly when `t` is not well-formed padded standard base64.
    pub fn from_base64(t: &[u8]) -> (r: Result<ByteString, JsonFault>)
        ensures
            spec_b64_valid(t@) ==> match r {
                Ok(v) => v@ == spec_b64_decode(t@),
                Err(e) => false,
            },
            !spec_b64_valid(t@) ==> r == Err::<ByteString, JsonFault>(JsonFault::InvalidEncoding),
    {
        match base64_decode(t) {
            Ok(v) => Ok(ByteString(v)),
            Err(e) => Err(e),
        }
    }
}

} // verus!
