//! The reference content-transforming layer: a per-byte alphabetic
//! substitution cipher. Each ASCII letter is shifted forward within its own
//! case's 26-letter alphabet; every other byte passes through unchanged.
//! Because the transform of a byte depends only on that byte, it is
//! position-independent and therefore safe under arbitrary chunking.

use vstd::prelude::*;
use vstd::arithmetic::div_mod::*;

use crate::buffer::Buffer;

verus! {

pub open spec fn is_lower(b: u8) -> bool {
    97 <= b <= 122
}

pub open spec fn is_upper(b: u8) -> bool {
    65 <= b <= 90
}

pub open spec fn is_alpha(b: u8) -> bool {
    is_lower(b) || is_upper(b)
}

/// One byte, shifted forward by `shift` within its case's alphabet;
/// non-letters are unchanged.
pub open spec fn spec_encode_byte(b: u8, shift: u8) -> u8 {
    if is_lower(b) {
        (97 + ((b - 97 + shift) % 26)) as u8
    } else if is_upper(b) {
        (65 + ((b - 65 + shift) % 26)) as u8
    } else {
        b
    }
}

/// The shift that undoes `shift`, normalized into [0, 26).
pub open spec fn spec_inv_shift(shift: u8) -> u8 {
    ((26 - shift % 26) % 26) as u8
}

/// One byte, shifted backward by `shift`: the inverse of `spec_encode_byte`.
pub open spec fn spec_decode_byte(b: u8, shift: u8) -> u8 {
    spec_encode_byte(b, spec_inv_shift(shift))
}

/// A whole sequence, encoded byte by byte.
pub open spec fn spec_encode(s: Seq<u8>, shift: u8) -> Seq<u8> {
    s.map_values(|b: u8| spec_encode_byte(b, shift))
}

/// A whole sequence, decoded byte by byte.
pub open spec fn spec_decode(s: Seq<u8>, shift: u8) -> Seq<u8> {
    s.map_values(|b: u8| spec_decode_byte(b, shift))
}

pub fn encode_byte(b: u8, shift: u8) -> (r: u8)
    ensures
        r == spec_encode_byte(b, shift),
{
    if 97 <= b && b <= 122 {
        let off: u32 = ((b - 97) as u32 + shift as u32) % 26;
        97 + (off as u8)
    } else if 65 <= b && b <= 90 {
        let off: u32 = ((b - 65) as u32 + shift as u32) % 26;
        65 + (off as u8)
    } else {
        b
    }
}

pub fn decode_byte(b: u8, shift: u8) -> (r: u8)
    ensures
        r == spec_decode_byte(b, shift),
{
    let inv: u8 = ((26 - (shift as u32) % 26) % 26) as u8;
    encode_byte(b, inv)
}

/// The substitution-cipher layer configuration: just the shift amount.
#[derive(Clone, Copy, PartialEq, Eq, Structural, Debug)]
pub struct CaesarCipherLayer {
    pub shift: u8,
}

impl CaesarCipherLayer {
    pub fn new(shift: u8) -> (r: Self)
        ensures
            r.shift == shift,
    {
        CaesarCipherLayer { shift }
    }

    /// Encodes every byte of `buffer`, producing a new buffer.
    pub fn encrypt_buffer(&self, buffer: Buffer) -> (r: Buffer)
        ensures
            r@ == spec_encode(buffer@, self.shift),
    {
        let n = buffer.len();
        let mut out: Vec<u8> = Vec::new();
        let mut i: usize = 0;
        while i < n
            invariant
                n == buffer@.len(),
                i <= n,
                out@.len() == i,
                forall|j: int| 0 <= j < i ==> out@[j] == spec_encode_byte(buffer@[j], self.shift),
            decreases n - i,
        {
            out.push(encode_byte(buffer.get(i), self.shift));
            i = i + 1;
        }
        proof {
            assert(out@ =~= spec_encode(buffer@, self.shift));
        }
        Buffer::from_vec(out)
    }

    /// Decodes every byte of `buffer`: the inverse of `encrypt_buffer`.
    pub fn decrypt_buffer(&self, buffer: Buffer) -> (r: Buffer)
        ensures
            r@ == spec_decode(buffer@, self.shift),
    {
        let n = buffer.len();
        let mut out: Vec<u8> = Vec::new();
        let mut i: usize = 0;
        while i < n
            invariant
                n == buffer@.len(),
                i <= n,
                out@.len() == i,
                forall|j: int| 0 <= j < i ==> out@[j] == spec_decode_byte(buffer@[j], self.shift),
            decreases n - i,
        {
            out.push(decode_byte(buffer.get(i), self.shift));
            i = i + 1;
        }
        proof {
            assert(out@ =~= spec_decode(buffer@, self.shift));
        }
        Buffer::from_vec(out)
    }
}

/// Core modular-arithmetic fact behind invertibility: shifting a digit in
/// [0, 26) forward by `s` and then by the inverse of `s` is the identity.
proof fn lemma_shift_roundtrip(d: int, s: int)
    requires
        0 <= d < 26,
        0 <= s,
    ensures
        ((d + s) % 26 + (26 - s % 26) % 26) % 26 == d,
{
    let sm = s % 26;
    lemma_mod_bound(s, 26);
    lemma_small_mod(d as nat, 26);
    lemma_add_mod_noop(d, s, 26);
    lemma_small_mod(sm as nat, 26);
    lemma_add_mod_noop(d, sm, 26);
    let e = (d + s) % 26;
    assert(e == (d + sm) % 26);
    if sm == 0 {
        lemma_mod_self_0(26);
        lemma_small_mod(d as nat, 26);
        assert(e == d);
        assert((26 - sm) % 26 == 0);
        lemma_small_mod(e as nat, 26);
    } else {
        lemma_small_mod((26 - sm) as nat, 26);
        assert((26 - sm) % 26 == 26 - sm);
        if d + sm < 26 {
            lemma_small_mod((d + sm) as nat, 26);
            assert(e == d + sm);
            assert(e + (26 - sm) == d + 26);
            lemma_mod_add_multiples_vanish(d, 26);
            lemma_small_mod(d as nat, 26);
            assert((d + 26) % 26 == d);
        } else {
            lemma_mod_sub_multiples_vanish(d + sm, 26);
            lemma_small_mod((d + sm - 26) as nat, 26);
            assert(e == d + sm - 26);
            assert(e + (26 - sm) == d);
            lemma_small_mod(d as nat, 26);
        }
    }
}

/// Decoding undoes encoding for every single byte and shift.
pub proof fn lemma_decode_encode_byte(b: u8, shift: u8)
    ensures
        spec_decode_byte(spec_encode_byte(b, shift), shift) == b,
{
    if is_lower(b) {
        lemma_mod_bound(b - 97 + shift, 26);
        lemma_shift_roundtrip(b - 97, shift as int);
        lemma_mod_bound(shift as int, 26);
    } else if is_upper(b) {
        lemma_mod_bound(b - 65 + shift, 26);
        lemma_shift_roundtrip(b - 65, shift as int);
        lemma_mod_bound(shift as int, 26);
    }
}

/// Transform invertibility: decoding an encoded sequence restores it,
/// for every byte sequence and every shift.
pub proof fn lemma_decode_encode(s: Seq<u8>, shift: u8)
    ensures
        spec_decode(spec_encode(s, shift), shift) == s,
{
    assert forall|j: int| 0 <= j < s.len() implies spec_decode(spec_encode(s, shift), shift)[j]
        == s[j] by {
        lemma_decode_encode_byte(s[j], shift);
    }
    assert(spec_decode(spec_encode(s, shift), shift) =~= s);
}

/// Encoding leaves every non-alphabetic byte unchanged.
pub proof fn lemma_encode_preserves_non_alpha(s: Seq<u8>, shift: u8)
    ensures
        forall|j: int| 0 <= j < s.len() && !is_alpha(s[j]) ==> spec_encode(s, shift)[j] == s[j],
{
}

/// For a fixed shift, encoding is injective.
pub proof fn lemma_encode_injective(s1: Seq<u8>, s2: Seq<u8>, shift: u8)
    requires
        spec_encode(s1, shift) == spec_encode(s2, shift),
    ensures
        s1 == s2,
{
    lemma_decode_encode(s1, shift);
    lemma_decode_encode(s2, shift);
}

/// Encoding distributes over concatenation: the transform is
/// position-independent.
pub proof fn lemma_encode_concat(a: Seq<u8>, b: Seq<u8>, shift: u8)
    ensures
        spec_encode(a + b, shift) == spec_encode(a, shift) + spec_encode(b, shift),
{
    assert(spec_encode(a + b, shift) =~= spec_encode(a, shift) + spec_encode(b, shift));
}

/// Decoding distributes over concatenation as well.
pub proof fn lemma_decode_concat(a: Seq<u8>, b: Seq<u8>, shift: u8)
    ensures
        spec_decode(a + b, shift) == spec_decode(a, shift) + spec_decode(b, shift),
{
    assert(spec_decode(a + b, shift) =~= spec_decode(a, shift) + spec_decode(b, shift));
}

/// Chunk invariance: encoding the pieces of any partition of a sequence and
/// concatenating the results equals encoding the whole sequence at once.
pub proof fn lemma_encode_chunks(chunks: Seq<Seq<u8>>, shift: u8)
    ensures
        chunks.map_values(|c: Seq<u8>| spec_encode(c, shift)).flatten()
            == spec_encode(chunks.flatten(), shift),
    decreases chunks.len(),
{
    let enc = |c: Seq<u8>| spec_encode(c, shift);
    if chunks.len() == 0 {
        assert(chunks.map_values(enc).flatten() =~= spec_encode(chunks.flatten(), shift));
    } else {
        lemma_encode_chunks(chunks.drop_first(), shift);
        assert(chunks.map_values(enc).drop_first() =~= chunks.drop_first().map_values(enc));
        assert(chunks.map_values(enc).first() == enc(chunks.first()));
        lemma_encode_concat(chunks.first(), chunks.drop_first().flatten(), shift);
        assert(chunks.flatten() == chunks.first() + chunks.drop_first().flatten());
        assert(chunks.map_values(enc).flatten() == enc(chunks.first())
            + chunks.drop_first().map_values(enc).flatten());
    }
}

} // verus!
