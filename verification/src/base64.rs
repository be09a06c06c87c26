//! Base64 for the wire form of binary attribute values: the standard
//! alphabet with `=` padding, encode and strict decode, and the proof that
//! decoding undoes encoding.

use vstd::prelude::*;
use crate::chars::{chars_of, push_char};

verus! {

/// The character of one six-bit group, in the standard alphabet.
pub open spec fn b64_char(x: u8) -> char
    recommends
        x < 64,
{
    if x < 26 {
        ((65 + x) as u32) as char
    } else if x < 52 {
        ((71 + x) as u32) as char
    } else if x < 62 {
        (((x - 52) + 48) as u32) as char
    } else if x == 62 {
        '+'
    } else {
        '/'
    }
}

/// The six-bit group a character stands for, if it is in the alphabet.
pub open spec fn b64_sextet(c: char) -> Option<u8> {
    let u = c as u32;
    if 65 <= u && u <= 90 {
        Some((u - 65) as u8)
    } else if 97 <= u && u <= 122 {
        Some((u - 71) as u8)
    } else if 48 <= u && u <= 57 {
        Some(((u - 48) + 52) as u8)
    } else if c == '+' {
        Some(62u8)
    } else if c == '/' {
        Some(63u8)
    } else {
        None
    }
}

/// The base64 text of a byte sequence: blocks of three bytes become four
/// characters, and a short final block is padded with `=`.
pub open spec fn b64_encode(b: Seq<u8>) -> Seq<char>
    decreases b.len(),
{
    if b.len() == 0 {
        Seq::empty()
    } else if b.len() == 1 {
        seq![b64_char(b[0] >> 2), b64_char((b[0] & 3) << 4), '=', '=']
    } else if b.len() == 2 {
        seq![
            b64_char(b[0] >> 2),
            b64_char(((b[0] & 3) << 4) | (b[1] >> 4)),
            b64_char((b[1] & 15) << 2),
            '=',
        ]
    } else {
        seq![
            b64_char(b[0] >> 2),
            b64_char(((b[0] & 3) << 4) | (b[1] >> 4)),
            b64_char(((b[1] & 15) << 2) | (b[2] >> 6)),
            b64_char(b[2] & 63),
        ] + b64_encode(b.skip(3))
    }
}

/// One full block of four alphabet characters, decoded to three bytes.
pub open spec fn b64_decode_full(s: Seq<char>) -> Option<Seq<u8>>
    recommends
        s.len() == 4,
{
    match (b64_sextet(s[0]), b64_sextet(s[1]), b64_sextet(s[2]), b64_sextet(s[3])) {
        (Some(a), Some(b), Some(c), Some(d)) => Some(
            seq![(a << 2) | (b >> 4), ((b & 15) << 4) | (c >> 2), ((c & 3) << 6) | d],
        ),
        _ => None,
    }
}

/// The final block of four characters, which may end in `=` padding; the
/// unused low bits of the last alphabet character must be zero.
pub open spec fn b64_decode_last(s: Seq<char>) -> Option<Seq<u8>>
    recommends
        s.len() == 4,
{
    if s[3] == '=' {
        if s[2] == '=' {
            match (b64_sextet(s[0]), b64_sextet(s[1])) {
                (Some(a), Some(b)) => if b & 15 == 0 {
                    Some(seq![(a << 2) | (b >> 4)])
                } else {
                    None
                },
                _ => None,
            }
        } else {
            match (b64_sextet(s[0]), b64_sextet(s[1]), b64_sextet(s[2])) {
                (Some(a), Some(b), Some(c)) => if c & 3 == 0 {
                    Some(seq![(a << 2) | (b >> 4), ((b & 15) << 4) | (c >> 2)])
                } else {
                    None
                },
                _ => None,
            }
        }
    } else {
        b64_decode_full(s)
    }
}

/// The bytes a base64 text stands for, or nothing if the text is not a
/// strict base64 encoding.
pub open spec fn b64_decode(s: Seq<char>) -> Option<Seq<u8>>
    decreases s.len(),
{
    if s.len() == 0 {
        Some(Seq::empty())
    } else if s.len() < 4 {
        None
    } else if s.len() == 4 {
        b64_decode_last(s)
    } else {
        match (b64_decode_full(s.take(4)), b64_decode(s.skip(4))) {
            (Some(h), Some(t)) => Some(h + t),
            _ => None,
        }
    }
}

/// The alphabet maps each six-bit group to a character that decodes back to
/// it, and never to the padding character.
pub proof fn lemma_sextet_char(x: u8)
    requires
        x < 64,
    ensures
        b64_sextet(b64_char(x)) == Some(x),
        b64_char(x) != '=',
{
}

/// Decoding undoes encoding: the strict decoder accepts every encoding this
/// library produces and returns exactly the bytes that were encoded.
pub proof fn lemma_b64_round_trip(b: Seq<u8>)
    ensures
        b64_decode(b64_encode(b)) == Some(b),
    decreases b.len(),
{
    if b.len() == 0 {
    } else if b.len() == 1 {
        let b0 = b[0];
        assert(b0 >> 2 < 64 && (b0 & 3) << 4 < 64 && (((b0 & 3) << 4) & 15) == 0
            && (((b0 >> 2) << 2) | (((b0 & 3) << 4) >> 4)) == b0) by (bit_vector);
        lemma_sextet_char(b0 >> 2);
        lemma_sextet_char((b0 & 3) << 4);
        assert(b64_decode(b64_encode(b)).unwrap() =~= b);
    } else if b.len() == 2 {
        let b0 = b[0];
        let b1 = b[1];
        assert(b0 >> 2 < 64 && (((b0 & 3) << 4) | (b1 >> 4)) < 64 && (b1 & 15) << 2 < 64
            && (((b1 & 15) << 2) & 3) == 0
            && (((b0 >> 2) << 2) | ((((b0 & 3) << 4) | (b1 >> 4)) >> 4)) == b0
            && ((((((b0 & 3) << 4) | (b1 >> 4)) & 15) << 4) | (((b1 & 15) << 2) >> 2)) == b1)
            by (bit_vector);
        lemma_sextet_char(b0 >> 2);
        lemma_sextet_char(((b0 & 3) << 4) | (b1 >> 4));
        lemma_sextet_char((b1 & 15) << 2);
        assert(b64_decode(b64_encode(b)).unwrap() =~= b);
    } else {
        let b0 = b[0];
        let b1 = b[1];
        let b2 = b[2];
        assert(b0 >> 2 < 64 && (((b0 & 3) << 4) | (b1 >> 4)) < 64 && (((b1 & 15) << 2) | (b2
            >> 6)) < 64 && b2 & 63 < 64
            && (((b0 >> 2) << 2) | ((((b0 & 3) << 4) | (b1 >> 4)) >> 4)) == b0
            && ((((((b0 & 3) << 4) | (b1 >> 4)) & 15) << 4) | ((((b1 & 15) << 2) | (b2 >> 6))
            >> 2)) == b1
            && ((((((b1 & 15) << 2) | (b2 >> 6)) & 3) << 6) | (b2 & 63)) == b2) by (bit_vector);
        lemma_sextet_char(b0 >> 2);
        lemma_sextet_char(((b0 & 3) << 4) | (b1 >> 4));
        lemma_sextet_char(((b1 & 15) << 2) | (b2 >> 6));
        lemma_sextet_char(b2 & 63);
        lemma_b64_round_trip(b.skip(3));
        let s = b64_encode(b);
        if b.len() == 3 {
            assert(b.skip(3) =~= Seq::<u8>::empty());
            assert(s.len() == 4);
            assert(b64_decode_last(s).unwrap() =~= b);
        } else {
            assert(s.len() > 4);
            assert(s.take(4) =~= seq![
                b64_char(b0 >> 2),
                b64_char(((b0 & 3) << 4) | (b1 >> 4)),
                b64_char(((b1 & 15) << 2) | (b2 >> 6)),
                b64_char(b2 & 63),
            ]);
            assert(s.skip(4) =~= b64_encode(b.skip(3)));
            assert(b64_decode(s).unwrap() =~= b);
        }
    }
}

/// One six-bit group, encoded as its alphabet character.
fn sextet_char(x: u8) -> (c: char)
    requires
        x < 64,
    ensures
        c == b64_char(x),
{
    if x < 26 {
        (65 + x) as char
    } else if x < 52 {
        (71 + x) as char
    } else if x < 62 {
        ((x - 52) + 48) as char
    } else if x == 62 {
        '+'
    } else {
        '/'
    }
}

/// The six-bit group of one character, if it is in the alphabet.
fn sextet_of(c: char) -> (r: Option<u8>)
    ensures
        r == b64_sextet(c),
{
    let u = c as u32;
    if 65 <= u && u <= 90 {
        Some((u - 65) as u8)
    } else if 97 <= u && u <= 122 {
        Some((u - 71) as u8)
    } else if 48 <= u && u <= 57 {
        Some(((u - 48) + 52) as u8)
    } else if c == '+' {
        Some(62u8)
    } else if c == '/' {
        Some(63u8)
    } else {
        None
    }
}

fn encode_from(bytes: &[u8], i: usize, out: &mut String)
    requires
        i <= bytes@.len(),
    ensures
        final(out)@ == old(out)@ + b64_encode(bytes@.skip(i as int)),
    decreases bytes@.len() - i,
{
    let ghost rest = bytes@.skip(i as int);
    let n = bytes.len() - i;
    if n == 0 {
        proof {
            assert(final(out)@ =~= old(out)@ + b64_encode(rest));
        }
    } else if n == 1 {
        let b0 = bytes[i];
        assert(b0 >> 2 < 64 && (b0 & 3) << 4 < 64) by (bit_vector);
        push_char(out, sextet_char(b0 >> 2));
        push_char(out, sextet_char((b0 & 3) << 4));
        push_char(out, '=');
        push_char(out, '=');
        proof {
            assert(rest.len() == 1 && rest[0] == b0);
            assert(out@ =~= old(out)@ + b64_encode(rest));
        }
    } else if n == 2 {
        let b0 = bytes[i];
        let b1 = bytes[i + 1];
        assert(b0 >> 2 < 64 && (((b0 & 3) << 4) | (b1 >> 4)) < 64 && (b1 & 15) << 2 < 64)
            by (bit_vector);
        push_char(out, sextet_char(b0 >> 2));
        push_char(out, sextet_char(((b0 & 3) << 4) | (b1 >> 4)));
        push_char(out, sextet_char((b1 & 15) << 2));
        push_char(out, '=');
        proof {
            assert(rest.len() == 2 && rest[0] == b0 && rest[1] == b1);
            assert(out@ =~= old(out)@ + b64_encode(rest));
        }
    } else {
        let b0 = bytes[i];
        let b1 = bytes[i + 1];
        let b2 = bytes[i + 2];
        assert(b0 >> 2 < 64 && (((b0 & 3) << 4) | (b1 >> 4)) < 64 && (((b1 & 15) << 2) | (b2
            >> 6)) < 64 && b2 & 63 < 64) by (bit_vector);
        push_char(out, sextet_char(b0 >> 2));
        push_char(out, sextet_char(((b0 & 3) << 4) | (b1 >> 4)));
        push_char(out, sextet_char(((b1 & 15) << 2) | (b2 >> 6)));
        push_char(out, sextet_char(b2 & 63));
        encode_from(bytes, i + 3, out);
        proof {
            assert(rest.len() >= 3 && rest[0] == b0 && rest[1] == b1 && rest[2] == b2);
            assert(rest.skip(3) =~= bytes@.skip(i + 3));
            assert(out@ =~= old(out)@ + b64_encode(rest));
        }
    }
}

/// The base64 text of the given bytes.
pub fn base64_encode(bytes: &[u8]) -> (r: String)
    ensures
        r@ == b64_encode(bytes@),
{
    let mut out = String::new();
    encode_from(bytes, 0, &mut out);
    proof {
        assert(bytes@.skip(0) =~= bytes@);
    }
    out
}

fn decode_from(cs: &Vec<char>, i: usize, out: &mut Vec<u8>) -> (ok: bool)
    requires
        i <= cs@.len(),
    ensures
        ok ==> (b64_decode(cs@.skip(i as int)) matches Some(t) && final(out)@ == old(out)@ + t),
        !ok ==> b64_decode(cs@.skip(i as int)) is None,
    decreases cs@.len() - i,
{
    let ghost rest = cs@.skip(i as int);
    let n = cs.len() - i;
    if n == 0 {
        proof {
            assert(old(out)@ + b64_decode(rest).unwrap() =~= old(out)@);
        }
        true
    } else if n < 4 {
        false
    } else {
        let a = sextet_of(cs[i]);
        let b = sextet_of(cs[i + 1]);
        if n == 4 {
            let last = cs[i + 3] == '=';
            if last && cs[i + 2] == '=' {
                match (a, b) {
                    (Some(a), Some(b)) => {
                        if b & 15 == 0 {
                            out.push((a << 2) | (b >> 4));
                            proof {
                                assert(out@ =~= old(out)@ + b64_decode_last(rest).unwrap());
                            }
                            true
                        } else {
                            false
                        }
                    },
                    _ => false,
                }
            } else if last {
                match (a, b, sextet_of(cs[i + 2])) {
                    (Some(a), Some(b), Some(c)) => {
                        if c & 3 == 0 {
                            out.push((a << 2) | (b >> 4));
                            out.push(((b & 15) << 4) | (c >> 2));
                            proof {
                                assert(out@ =~= old(out)@ + b64_decode_last(rest).unwrap());
                            }
                            true
                        } else {
                            false
                        }
                    },
                    _ => false,
                }
            } else {
                match (a, b, sextet_of(cs[i + 2]), sextet_of(cs[i + 3])) {
                    (Some(a), Some(b), Some(c), Some(d)) => {
                        out.push((a << 2) | (b >> 4));
                        out.push(((b & 15) << 4) | (c >> 2));
                        out.push(((c & 3) << 6) | d);
                        proof {
                            assert(b64_decode_last(rest) == b64_decode_full(rest));
                            assert(out@ =~= old(out)@ + b64_decode_full(rest).unwrap());
                        }
                        true
                    },
                    _ => false,
                }
            }
        } else {
            proof {
                assert(rest.take(4)[0] == cs@[i as int] && rest.take(4)[1] == cs@[i + 1]
                    && rest.take(4)[2] == cs@[i + 2] && rest.take(4)[3] == cs@[i + 3]);
            }
            match (a, b, sextet_of(cs[i + 2]), sextet_of(cs[i + 3])) {
                (Some(a), Some(b), Some(c), Some(d)) => {
                    out.push((a << 2) | (b >> 4));
                    out.push(((b & 15) << 4) | (c >> 2));
                    out.push(((c & 3) << 6) | d);
                    let tail_ok = decode_from(cs, i + 4, out);
                    proof {
                        assert(rest.skip(4) =~= cs@.skip(i + 4));
                    }
                    if tail_ok {
                        proof {
                            assert(out@ =~= old(out)@ + b64_decode(rest).unwrap());
                        }
                        true
                    } else {
                        false
                    }
                },
                _ => {
                    proof {
                        assert(b64_decode_full(rest.take(4)) is None);
                    }
                    false
                },
            }
        }
    }
}

/// The bytes of a strict base64 text, or nothing if the text is not one.
pub fn base64_decode(s: &str) -> (r: Option<Vec<u8>>)
    ensures
        match r {
            Some(v) => b64_decode(s@) == Some(v@),
            None => b64_decode(s@) is None,
        },
{
    let cs = chars_of(s);
    let mut out: Vec<u8> = Vec::new();
    let ok = decode_from(&cs, 0, &mut out);
    proof {
        assert(cs@.skip(0) =~= s@);
    }
    if ok {
        Some(out)
    } else {
        None
    }
}

} // verus!
