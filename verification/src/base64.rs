//! An unpadded base64 codec over byte vectors: three input bytes become four
//! alphabet bytes, a trailing pair or single byte becomes three or two.

use vstd::prelude::*;
use crate::board;

verus! {

/// The alphabet: `A..Z`, `a..z`, `0..9`, `+`, `/`.
pub open spec fn b64_char(v: u8) -> u8
    recommends
        v < 64,
{
    if v < 26 {
        (v + 65) as u8
    } else if v < 52 {
        (v + 71) as u8
    } else if v < 62 {
        (v - 4) as u8
    } else if v == 62 {
        43u8
    } else {
        47u8
    }
}

/// Whether a byte belongs to the alphabet.
pub open spec fn is_b64(c: u8) -> bool {
    ||| 65 <= c <= 90
    ||| 97 <= c <= 122
    ||| 48 <= c <= 57
    ||| c == 43
    ||| c == 47
}

/// The value a byte of the alphabet stands for.
pub open spec fn b64_val(c: u8) -> u8
    recommends
        is_b64(c),
{
    if 65 <= c <= 90 {
        (c - 65) as u8
    } else if 97 <= c <= 122 {
        (c - 71) as u8
    } else if 48 <= c <= 57 {
        (c + 4) as u8
    } else if c == 43 {
        62u8
    } else {
        63u8
    }
}

/// The alphabet mapping is injective: every value below 64 reads back.
pub proof fn lemma_b64_char_val(v: u8)
    requires
        v < 64,
    ensures
        is_b64(b64_char(v)),
        b64_val(b64_char(v)) == v,
{
}

/// The base64 form of a byte sequence, chunk by chunk of three.
pub open spec fn b64_enc(s: Seq<u8>) -> Seq<u8>
    decreases s.len(),
{
    if s.len() == 0 {
        Seq::empty()
    } else if s.len() == 1 {
        seq![b64_char(s[0] / 4), b64_char(((s[0] % 4) * 16) as u8)]
    } else if s.len() == 2 {
        seq![
            b64_char(s[0] / 4),
            b64_char(((s[0] % 4) * 16 + s[1] / 16) as u8),
            b64_char(((s[1] % 16) * 4) as u8),
        ]
    } else {
        seq![
            b64_char(s[0] / 4),
            b64_char(((s[0] % 4) * 16 + s[1] / 16) as u8),
            b64_char(((s[1] % 16) * 4 + s[2] / 64) as u8),
            b64_char((s[2] % 64) as u8),
        ] + b64_enc(s.skip(3))
    }
}

/// The bytes a base64 sequence spells, or `None` for a sequence whose
/// length leaves a single trailing character or which holds a byte outside
/// the alphabet.
pub open spec fn b64_dec(s: Seq<u8>) -> Option<Seq<u8>>
    decreases s.len(),
{
    if s.len() == 0 {
        Option::Some(Seq::empty())
    } else if s.len() == 1 {
        Option::None
    } else if s.len() == 2 {
        if is_b64(s[0]) && is_b64(s[1]) {
            Option::Some(seq![(b64_val(s[0]) * 4 + b64_val(s[1]) / 16) as u8])
        } else {
            Option::None
        }
    } else if s.len() == 3 {
        if is_b64(s[0]) && is_b64(s[1]) && is_b64(s[2]) {
            Option::Some(
                seq![
                    (b64_val(s[0]) * 4 + b64_val(s[1]) / 16) as u8,
                    ((b64_val(s[1]) % 16) * 16 + b64_val(s[2]) / 4) as u8,
                ],
            )
        } else {
            Option::None
        }
    } else {
        if is_b64(s[0]) && is_b64(s[1]) && is_b64(s[2]) && is_b64(s[3]) {
            match b64_dec(s.skip(4)) {
                Option::Some(rest) => Option::Some(
                    seq![
                        (b64_val(s[0]) * 4 + b64_val(s[1]) / 16) as u8,
                        ((b64_val(s[1]) % 16) * 16 + b64_val(s[2]) / 4) as u8,
                        ((b64_val(s[2]) % 4) * 64 + b64_val(s[3])) as u8,
                    ] + rest,
                ),
                Option::None => Option::None,
            }
        } else {
            Option::None
        }
    }
}

/// `(q*b + r) / b == q` and `(q*b + r) % b == r`, and the splitting of a
/// byte by a power of two, packaged for the chunk proofs.
proof fn lemma_byte_split(x: u8, b: int)
    requires
        b == 4 || b == 16 || b == 64,
    ensures
        x as int / b * b + x as int % b == x as int,
        0 <= x as int % b < b,
        0 <= x as int / b < 256int / b,
{
    vstd::arithmetic::div_mod::lemma_fundamental_div_mod(x as int, b);
    vstd::arithmetic::div_mod::lemma_mod_bound(x as int, b);
    vstd::arithmetic::div_mod::lemma_div_pos_is_pos(x as int, b);
    vstd::arithmetic::mul::lemma_mul_is_commutative(b, x as int / b);
    if x as int / b >= 256int / b {
        vstd::arithmetic::mul::lemma_mul_inequality(256int / b, x as int / b, b);
    }
}

/// Decoding an encoding restores the bytes: the base64 round trip is the
/// identity on every byte sequence.
pub proof fn lemma_b64_roundtrip(s: Seq<u8>)
    ensures
        b64_dec(b64_enc(s)) == Option::Some(s),
    decreases s.len(),
{
    let e = b64_enc(s);
    if s.len() == 0 {
        assert(b64_dec(e).unwrap() =~= s);
    } else if s.len() == 1 {
        lemma_byte_split(s[0], 4);
        let v1 = s[0] / 4;
        let v2 = ((s[0] % 4) * 16) as u8;
        lemma_b64_char_val(v1);
        lemma_b64_char_val(v2);
        board::lemma_band_member(16, s[0] as int % 4, 0);
        assert(v2 as int / 16 == s[0] as int % 4);
        assert(b64_dec(e).unwrap() =~= s);
    } else if s.len() == 2 {
        lemma_byte_split(s[0], 4);
        lemma_byte_split(s[1], 16);
        let v1 = s[0] / 4;
        let v2 = ((s[0] % 4) * 16 + s[1] / 16) as u8;
        let v3 = ((s[1] % 16) * 4) as u8;
        lemma_b64_char_val(v1);
        lemma_b64_char_val(v2);
        lemma_b64_char_val(v3);
        board::lemma_band_member(16, s[0] as int % 4, s[1] as int / 16);
        assert(v2 as int / 16 == s[0] as int % 4 && v2 as int % 16 == s[1] as int / 16);
        board::lemma_band_member(4, s[1] as int % 16, 0);
        assert(v3 as int / 4 == s[1] as int % 16);
        assert(b64_dec(e).unwrap() =~= s);
    } else {
        lemma_b64_roundtrip(s.skip(3));
        lemma_byte_split(s[0], 4);
        lemma_byte_split(s[1], 16);
        lemma_byte_split(s[2], 64);
        let v1 = s[0] / 4;
        let v2 = ((s[0] % 4) * 16 + s[1] / 16) as u8;
        let v3 = ((s[1] % 16) * 4 + s[2] / 64) as u8;
        let v4 = (s[2] % 64) as u8;
        lemma_b64_char_val(v1);
        lemma_b64_char_val(v2);
        lemma_b64_char_val(v3);
        lemma_b64_char_val(v4);
        board::lemma_band_member(16, s[0] as int % 4, s[1] as int / 16);
        assert(v2 as int / 16 == s[0] as int % 4 && v2 as int % 16 == s[1] as int / 16);
        board::lemma_band_member(4, s[1] as int % 16, s[2] as int / 64);
        assert(v3 as int / 4 == s[1] as int % 16 && v3 as int % 4 == s[2] as int / 64);
        assert(e.skip(4) =~= b64_enc(s.skip(3)));
        assert(e[0] == b64_char(v1) && e[1] == b64_char(v2) && e[2] == b64_char(v3) && e[3]
            == b64_char(v4));
        assert(b64_dec(e.skip(4)) == Option::Some(s.skip(3)));
        assert((b64_val(e[0]) * 4 + b64_val(e[1]) / 16) as u8 == s[0]);
        assert(((b64_val(e[1]) % 16) * 16 + b64_val(e[2]) / 4) as u8 == s[1]);
        assert(((b64_val(e[2]) % 4) * 64 + b64_val(e[3])) as u8 == s[2]);
        assert(b64_dec(e).unwrap() =~= s);
    }
}

/// The length of the base64 form of `len` input bytes.
pub fn encoded_len(s: &[u8]) -> (r: usize)
    requires
        s@.len() * 8 + 5 <= usize::MAX,
    ensures
        r == (s@.len() * 8 + 5) / 6,
{
    (s.len() * 8 + 5) / 6
}

/// The number of bytes a base64 sequence of `len` characters spells.
pub fn decoded_len(s: &[u8]) -> (r: usize)
    requires
        s@.len() * 6 <= usize::MAX,
    ensures
        r == s@.len() * 6 / 8,
{
    s.len() * 6 / 8
}

/// Encodes one value below 64 as its alphabet byte.
fn byte_to_char(b: u8) -> (r: Option<u8>)
    ensures
        r is Some <==> b < 64,
        b < 64 ==> r == Option::Some(b64_char(b)),
{
    if b < 26 {
        Some(b + 65)
    } else if b < 52 {
        Some(b + 71)
    } else if b < 62 {
        Some(b - 4)
    } else if b == 62 {
        Some(43)
    } else if b == 63 {
        Some(47)
    } else {
        None
    }
}

/// Reads one alphabet byte back as its value.
fn char_to_byte(c: u8) -> (r: Option<u8>)
    ensures
        r is Some <==> is_b64(c),
        is_b64(c) ==> r == Option::Some(b64_val(c)),
{
    if 65 <= c && c <= 90 {
        Some(c - 65)
    } else if 97 <= c && c <= 122 {
        Some(c - 71)
    } else if 48 <= c && c <= 57 {
        Some(c + 4)
    } else if c == 43 {
        Some(62)
    } else if c == 47 {
        Some(63)
    } else {
        None
    }
}

/// The base64 form of a byte slice.
pub fn encode(s: &[u8]) -> (r: Vec<u8>)
    ensures
        r@ == b64_enc(s@),
{
    let mut r: Vec<u8> = Vec::new();
    let mut i: usize = 0;
    proof {
        assert(s@.skip(0) =~= s@);
    }
    while s.len() - i >= 3
        invariant
            i <= s@.len(),
            i % 3 == 0,
            b64_enc(s@) == r@ + b64_enc(s@.skip(i as int)),
        decreases s@.len() - i,
    {
        let b1 = s[i];
        let b2 = s[i + 1];
        let b3 = s[i + 2];
        proof {
            assert(s@.skip(i as int).len() >= 3);
            assert(s@.skip(i as int)[0] == b1 && s@.skip(i as int)[1] == b2 && s@.skip(
                i as int,
            )[2] == b3);
            assert(s@.skip(i as int).skip(3) =~= s@.skip(i + 3));
        }
        r.push(byte_to_char(b1 / 4).unwrap());
        r.push(byte_to_char((b1 % 4) * 16 + b2 / 16).unwrap());
        r.push(byte_to_char((b2 % 16) * 4 + b3 / 64).unwrap());
        r.push(byte_to_char(b3 % 64).unwrap());
        proof {
            assert(b64_enc(s@) =~= r@ + b64_enc(s@.skip(i + 3)));
        }
        i = i + 3;
    }
    if s.len() - i == 1 {
        let b1 = s[i];
        proof {
            assert(s@.skip(i as int).len() == 1);
            assert(s@.skip(i as int)[0] == b1);
        }
        r.push(byte_to_char(b1 / 4).unwrap());
        r.push(byte_to_char((b1 % 4) * 16).unwrap());
        proof {
            assert(b64_enc(s@) =~= r@);
        }
    } else if s.len() - i == 2 {
        let b1 = s[i];
        let b2 = s[i + 1];
        proof {
            assert(s@.skip(i as int).len() == 2);
            assert(s@.skip(i as int)[0] == b1 && s@.skip(i as int)[1] == b2);
        }
        r.push(byte_to_char(b1 / 4).unwrap());
        r.push(byte_to_char((b1 % 4) * 16 + b2 / 16).unwrap());
        r.push(byte_to_char((b2 % 16) * 4).unwrap());
        proof {
            assert(b64_enc(s@) =~= r@);
        }
    } else {
        proof {
            assert(s@.skip(i as int).len() == 0);
            assert(b64_enc(s@) =~= r@);
        }
    }
    r
}

/// The bytes a base64 slice spells; `None` when a character falls outside
/// the alphabet or a single character trails.
pub fn decode(s: &[u8]) -> (r: Option<Vec<u8>>)
    ensures
        r is Some <==> b64_dec(s@) is Some,
        r is Some ==> r.unwrap()@ == b64_dec(s@).unwrap(),
{
    let mut r: Vec<u8> = Vec::new();
    let mut i: usize = 0;
    proof {
        assert(s@.skip(0) =~= s@);
    }
    while s.len() - i >= 4
        invariant
            i <= s@.len(),
            i % 4 == 0,
            b64_dec(s@.skip(i as int)) is Some ==> b64_dec(s@) is Some && b64_dec(s@).unwrap()
                == r@ + b64_dec(s@.skip(i as int)).unwrap(),
            b64_dec(s@.skip(i as int)) is None ==> b64_dec(s@) is None,
        decreases s@.len() - i,
    {
        let c1 = char_to_byte(s[i]);
        let c2 = char_to_byte(s[i + 1]);
        let c3 = char_to_byte(s[i + 2]);
        let c4 = char_to_byte(s[i + 3]);
        proof {
            assert(s@.skip(i as int).len() >= 4);
            assert(s@.skip(i as int)[0] == s@[i as int] && s@.skip(i as int)[1] == s@[i + 1]
                && s@.skip(i as int)[2] == s@[i + 2] && s@.skip(i as int)[3] == s@[i + 3]);
            assert(s@.skip(i as int).skip(4) =~= s@.skip(i + 4));
        }
        match (c1, c2, c3, c4) {
            (Some(v1), Some(v2), Some(v3), Some(v4)) => {
                r.push(v1 * 4 + v2 / 16);
                r.push((v2 % 16) * 16 + v3 / 4);
                r.push((v3 % 4) * 64 + v4);
                proof {
                    if b64_dec(s@.skip(i + 4)) is Some {
                        assert(b64_dec(s@.skip(i as int)).unwrap() =~= seq![
                            (v1 * 4 + v2 / 16) as u8,
                            ((v2 % 16) * 16 + v3 / 4) as u8,
                            ((v3 % 4) * 64 + v4) as u8,
                        ] + b64_dec(s@.skip(i + 4)).unwrap());
                        assert(b64_dec(s@).unwrap() =~= r@ + b64_dec(s@.skip(i + 4)).unwrap());
                    }
                }
            },
            _ => {
                return None;
            },
        }
        i = i + 4;
    }
    let rest = s.len() - i;
    if rest == 0 {
        proof {
            assert(s@.skip(i as int).len() == 0);
            assert(b64_dec(s@).unwrap() =~= r@);
        }
        Some(r)
    } else if rest == 1 {
        proof {
            assert(s@.skip(i as int).len() == 1);
        }
        None
    } else if rest == 2 {
        let c1 = char_to_byte(s[i]);
        let c2 = char_to_byte(s[i + 1]);
        proof {
            assert(s@.skip(i as int).len() == 2);
            assert(s@.skip(i as int)[0] == s@[i as int] && s@.skip(i as int)[1] == s@[i + 1]);
        }
        match (c1, c2) {
            (Some(v1), Some(v2)) => {
                r.push(v1 * 4 + v2 / 16);
                proof {
                    assert(b64_dec(s@).unwrap() =~= r@);
                }
                Some(r)
            },
            _ => None,
        }
    } else {
        let c1 = char_to_byte(s[i]);
        let c2 = char_to_byte(s[i + 1]);
        let c3 = char_to_byte(s[i + 2]);
        proof {
            assert(s@.skip(i as int).len() == 3);
            assert(s@.skip(i as int)[0] == s@[i as int] && s@.skip(i as int)[1] == s@[i + 1]
                && s@.skip(i as int)[2] == s@[i + 2]);
        }
        match (c1, c2, c3) {
            (Some(v1), Some(v2), Some(v3)) => {
                r.push(v1 * 4 + v2 / 16);
                r.push((v2 % 16) * 16 + v3 / 4);
                proof {
                    assert(b64_dec(s@).unwrap() =~= r@);
                }
                Some(r)
            },
            _ => None,
        }
    }
}

} // verus!
