//! Base64 encoding of byte sequences, as the STANDARD engine of the base64
//! crate performs it: the usual 64-symbol alphabet, `=` padding on encode,
//! and strictly canonical input required on decode.
use base64::Engine;
use vstd::prelude::*;

verus! {

/// The `=` padding byte.
pub const PAD_BYTE: u8 = 61;

/// The alphabet symbol for a six-bit value below 64.
pub open spec fn b64_alpha_byte(s: u8) -> u8
    recommends
        s < 64,
{
    if s < 26 {
        (65 + s) as u8  // 'A'..'Z'

    } else if s < 52 {
        (71 + s) as u8  // 'a'..'z'

    } else if s < 62 {
        (s - 4) as u8  // '0'..'9'

    } else if s == 62 {
        43  // '+'

    } else {
        47  // '/'

    }
}

/// The six-bit value of an alphabet symbol, or 64 when the byte is not in the
/// base64 alphabet.
pub open spec fn b64_value(b: u8) -> u8 {
    if 65 <= b && b <= 90 {
        (b - 65) as u8
    } else if 97 <= b && b <= 122 {
        (b - 71) as u8
    } else if 48 <= b && b <= 57 {
        (b + 4) as u8
    } else if b == 43 {
        62
    } else if b == 47 {
        63
    } else {
        64
    }
}

/// True when the byte is one of the 64 alphabet symbols (padding excluded).
pub open spec fn is_b64_alpha(b: u8) -> bool {
    b64_value(b) < 64
}

/// Canonical base64 encoding of a byte sequence, padding included.
pub open spec fn b64_encode(bytes: Seq<u8>) -> Seq<u8>
    decreases bytes.len(),
{
    if bytes.len() == 0 {
        Seq::empty()
    } else if bytes.len() == 1 {
        let b0 = bytes[0];
        seq![
            b64_alpha_byte((b0 / 4) as u8),
            b64_alpha_byte(((b0 % 4) * 16) as u8),
            PAD_BYTE,
            PAD_BYTE,
        ]
    } else if bytes.len() == 2 {
        let b0 = bytes[0];
        let b1 = bytes[1];
        seq![
            b64_alpha_byte((b0 / 4) as u8),
            b64_alpha_byte(((b0 % 4) * 16 + b1 / 16) as u8),
            b64_alpha_byte(((b1 % 16) * 4) as u8),
            PAD_BYTE,
        ]
    } else {
        let b0 = bytes[0];
        let b1 = bytes[1];
        let b2 = bytes[2];
        seq![
            b64_alpha_byte((b0 / 4) as u8),
            b64_alpha_byte(((b0 % 4) * 16 + b1 / 16) as u8),
            b64_alpha_byte(((b1 % 16) * 4 + b2 / 64) as u8),
            b64_alpha_byte((b2 % 64) as u8),
        ] + b64_encode(bytes.skip(3))
    }
}

/// Strictly canonical base64 decoding: `None` unless the input is exactly
/// `b64_encode` of some byte sequence (groups of four symbols, padding only
/// closing the final group, padded trailing bits zero).
pub open spec fn b64_decode(s: Seq<u8>) -> Option<Seq<u8>>
    decreases s.len(),
{
    if s.len() == 0 {
        Some(Seq::empty())
    } else if s.len() < 4 || s.len() % 4 != 0 {
        None
    } else {
        let v0 = b64_value(s[0]);
        let v1 = b64_value(s[1]);
        if v0 >= 64 || v1 >= 64 {
            None
        } else if s.len() == 4 && s[2] == PAD_BYTE && s[3] == PAD_BYTE {
            if v1 % 16 == 0 {
                Some(seq![(v0 * 4 + v1 / 16) as u8])
            } else {
                None
            }
        } else if s.len() == 4 && s[3] == PAD_BYTE {
            let v2 = b64_value(s[2]);
            if v2 < 64 && v2 % 4 == 0 {
                Some(seq![(v0 * 4 + v1 / 16) as u8, ((v1 % 16) * 16 + v2 / 4) as u8])
            } else {
                None
            }
        } else {
            let v2 = b64_value(s[2]);
            let v3 = b64_value(s[3]);
            if v2 < 64 && v3 < 64 {
                match b64_decode(s.skip(4)) {
                    Some(rest) => Some(
                        seq![
                            (v0 * 4 + v1 / 16) as u8,
                            ((v1 % 16) * 16 + v2 / 4) as u8,
                            ((v2 % 4) * 64 + v3) as u8,
                        ] + rest,
                    ),
                    None => None,
                }
            } else {
                None
            }
        }
    }
}

/// Reading an alphabet symbol back gives the six-bit value it encodes, and no
/// alphabet symbol collides with the padding byte.
pub proof fn lemma_b64_alpha_value(s: u8)
    requires
        s < 64,
    ensures
        b64_value(b64_alpha_byte(s)) == s,
        is_b64_alpha(b64_alpha_byte(s)),
        b64_alpha_byte(s) != PAD_BYTE,
{
}

/// The encoding of a byte sequence has length `4 * ceil(len / 3)`: a positive
/// multiple of four for nonempty input.
pub proof fn lemma_b64_encode_len(bytes: Seq<u8>)
    ensures
        b64_encode(bytes).len() % 4 == 0,
        bytes.len() > 0 ==> b64_encode(bytes).len() >= 4,
        b64_encode(bytes).len() <= 2 * bytes.len() + 4,
    decreases bytes.len(),
{
    if bytes.len() >= 3 {
        lemma_b64_encode_len(bytes.skip(3));
    }
}

/// Every byte of an encoding is an alphabet symbol or the padding byte.
pub proof fn lemma_b64_encode_alpha(bytes: Seq<u8>)
    ensures
        forall|i: int|
            0 <= i < b64_encode(bytes).len() ==> is_b64_alpha(#[trigger] b64_encode(bytes)[i])
                || b64_encode(bytes)[i] == PAD_BYTE,
    decreases bytes.len(),
{
    if bytes.len() == 0 {
    } else if bytes.len() == 1 {
        lemma_b64_alpha_value((bytes[0] / 4) as u8);
        lemma_b64_alpha_value(((bytes[0] % 4) * 16) as u8);
    } else if bytes.len() == 2 {
        lemma_b64_alpha_value((bytes[0] / 4) as u8);
        lemma_b64_alpha_value(((bytes[0] % 4) * 16 + bytes[1] / 16) as u8);
        lemma_b64_alpha_value(((bytes[1] % 16) * 4) as u8);
    } else {
        lemma_b64_alpha_value((bytes[0] / 4) as u8);
        lemma_b64_alpha_value(((bytes[0] % 4) * 16 + bytes[1] / 16) as u8);
        lemma_b64_alpha_value(((bytes[1] % 16) * 4 + bytes[2] / 64) as u8);
        lemma_b64_alpha_value((bytes[2] % 64) as u8);
        lemma_b64_encode_alpha(bytes.skip(3));
        let e = b64_encode(bytes);
        let rest = b64_encode(bytes.skip(3));
        assert forall|i: int| 0 <= i < e.len() implies is_b64_alpha(#[trigger] e[i]) || e[i]
            == PAD_BYTE by {
            if i >= 4 {
                assert(e[i] == rest[i - 4]);
            }
        }
    }
}

/// Decoding inverts encoding.
pub proof fn lemma_b64_decode_encode(bytes: Seq<u8>)
    ensures
        b64_decode(b64_encode(bytes)) == Some(bytes),
    decreases bytes.len(),
{
    let e = b64_encode(bytes);
    if bytes.len() == 0 {
        assert(e =~= Seq::<u8>::empty());
        assert(b64_decode(e) == Some(Seq::<u8>::empty()));
        assert(bytes =~= Seq::<u8>::empty());
    } else if bytes.len() == 1 {
        let b0 = bytes[0];
        let s0 = (b0 / 4) as u8;
        let s1 = ((b0 % 4) * 16) as u8;
        lemma_b64_alpha_value(s0);
        lemma_b64_alpha_value(s1);
        assert(s1 % 16 == 0);
        assert(s0 * 4 + s1 / 16 == b0);
        assert(b64_decode(e) matches Some(d) && d =~= bytes);
    } else if bytes.len() == 2 {
        let b0 = bytes[0];
        let b1 = bytes[1];
        let s0 = (b0 / 4) as u8;
        let s1 = ((b0 % 4) * 16 + b1 / 16) as u8;
        let s2 = ((b1 % 16) * 4) as u8;
        lemma_b64_alpha_value(s0);
        lemma_b64_alpha_value(s1);
        lemma_b64_alpha_value(s2);
        assert(s1 / 16 == b0 % 4 && s1 % 16 == b1 / 16) by (nonlinear_arith)
            requires
                s1 == (b0 % 4) * 16 + b1 / 16,
                b1 < 256,
        ;
        assert(s2 % 4 == 0);
        assert(s2 / 4 == b1 % 16);
        assert(s0 * 4 + s1 / 16 == b0);
        assert((s1 % 16) * 16 + s2 / 4 == (b1 / 16) * 16 + b1 % 16 == b1) by (nonlinear_arith)
            requires
                s1 % 16 == b1 / 16,
                s2 / 4 == b1 % 16,
                b1 < 256,
        ;
        assert(b64_decode(e) matches Some(d) && d =~= bytes);
    } else {
        let b0 = bytes[0];
        let b1 = bytes[1];
        let b2 = bytes[2];
        let s0 = (b0 / 4) as u8;
        let s1 = ((b0 % 4) * 16 + b1 / 16) as u8;
        let s2 = ((b1 % 16) * 4 + b2 / 64) as u8;
        let s3 = (b2 % 64) as u8;
        lemma_b64_alpha_value(s0);
        lemma_b64_alpha_value(s1);
        lemma_b64_alpha_value(s2);
        lemma_b64_alpha_value(s3);
        lemma_b64_decode_encode(bytes.skip(3));
        lemma_b64_encode_len(bytes.skip(3));
        let rest = b64_encode(bytes.skip(3));
        assert(e == seq![b64_alpha_byte(s0), b64_alpha_byte(s1), b64_alpha_byte(s2), b64_alpha_byte(
            s3,
        )] + rest);
        assert(e.len() == 4 + rest.len());
        assert(e.len() % 4 == 0) by {
            assert(rest.len() % 4 == 0);
        }
        assert(e.skip(4) =~= rest);
        // the final-group branches are not taken: either the tail is nonempty,
        // or all four symbols are in the alphabet, so no padding closes group 0
        assert(s1 / 16 == b0 % 4 && s1 % 16 == b1 / 16) by (nonlinear_arith)
            requires
                s1 == (b0 % 4) * 16 + b1 / 16,
                b1 < 256,
        ;
        assert(s2 / 4 == b1 % 16 && s2 % 4 == b2 / 64) by (nonlinear_arith)
            requires
                s2 == (b1 % 16) * 4 + b2 / 64,
                b2 < 256,
        ;
        assert(s0 * 4 + s1 / 16 == b0);
        assert((s1 % 16) * 16 + s2 / 4 == b1) by (nonlinear_arith)
            requires
                s1 % 16 == b1 / 16,
                s2 / 4 == b1 % 16,
                b1 < 256,
        ;
        assert((s2 % 4) * 64 + s3 == b2) by (nonlinear_arith)
            requires
                s2 % 4 == b2 / 64,
                s3 == b2 % 64,
                b2 < 256,
        ;
        assert(b64_decode(e) matches Some(d) && d =~= bytes);
    }
}

/// Relies on base64's `STANDARD` engine `encode`: it emits the canonical
/// padded base64 encoding of the input bytes.
#[verifier::external_body]
pub fn b64_encode_exec(bytes: &[u8]) -> (r: Vec<u8>)
    ensures
        r@ == b64_encode(bytes@),
{
    base64::engine::general_purpose::STANDARD.encode(bytes).into_bytes()
}

/// Relies on base64's `STANDARD` engine `decode`: it requires canonical
/// padding, rejects set trailing bits, and inverts `encode`.
#[verifier::external_body]
pub fn b64_decode_exec(bytes: &[u8]) -> (r: Option<Vec<u8>>)
    ensures
        r is Some <==> b64_decode(bytes@) is Some,
        r matches Some(v) ==> Some(v@) == b64_decode(bytes@),
{
    base64::engine::general_purpose::STANDARD.decode(bytes).ok()
}

} // verus!
