use vstd::prelude::*;

verus! {

// base64url (RFC 4648 section 5) without padding: the digit set used by the
// token wire format for the header, the claims payload and the signature.

/// The base64url digit for a six-bit value.
pub open spec fn b64_char(x: u8) -> u8
    recommends
        x < 64,
{
    if x < 26 {
        (65 + x) as u8  // 'A'..='Z'
    } else if x < 52 {
        (71 + x) as u8  // 'a'..='z'
    } else if x < 62 {
        (x - 4) as u8  // '0'..='9'
    } else if x == 62 {
        45  // '-'
    } else {
        95  // '_'
    }
}

/// The six-bit value of a base64url digit, if the byte is one.
pub open spec fn b64_val(c: u8) -> Option<u8> {
    if 65 <= c && c <= 90 {
        Some((c - 65) as u8)
    } else if 97 <= c && c <= 122 {
        Some((c - 71) as u8)
    } else if 48 <= c && c <= 57 {
        Some((c + 4) as u8)
    } else if c == 45 {
        Some(62u8)
    } else if c == 95 {
        Some(63u8)
    } else {
        None
    }
}

/// Whether a byte belongs to the base64url digit set.
pub open spec fn is_b64_byte(c: u8) -> bool {
    b64_val(c) is Some
}

pub proof fn lemma_b64_val_char(x: u8)
    requires
        x < 64,
    ensures
        b64_val(b64_char(x)) == Some(x),
{
}

pub proof fn lemma_b64_char_in_alphabet(x: u8)
    ensures
        is_b64_byte(b64_char(x)),
{
}

pub open spec fn enc_tail1(b0: u8) -> Seq<u8> {
    seq![b64_char(b0 >> 2), b64_char((b0 & 3) << 4)]
}

pub open spec fn enc_tail2(b0: u8, b1: u8) -> Seq<u8> {
    seq![
        b64_char(b0 >> 2),
        b64_char(((b0 & 3) << 4) | (b1 >> 4)),
        b64_char((b1 & 15) << 2),
    ]
}

pub open spec fn enc_block(b0: u8, b1: u8, b2: u8) -> Seq<u8> {
    seq![
        b64_char(b0 >> 2),
        b64_char(((b0 & 3) << 4) | (b1 >> 4)),
        b64_char(((b1 & 15) << 2) | (b2 >> 6)),
        b64_char(b2 & 63),
    ]
}

/// The base64url encoding of a byte sequence, without padding.
pub open spec fn b64_encode_spec(b: Seq<u8>) -> Seq<u8>
    decreases b.len(),
{
    if b.len() == 0 {
        Seq::empty()
    } else if b.len() == 1 {
        enc_tail1(b[0])
    } else if b.len() == 2 {
        enc_tail2(b[0], b[1])
    } else {
        enc_block(b[0], b[1], b[2]) + b64_encode_spec(b.skip(3))
    }
}

pub open spec fn dec_first(v0: u8, v1: u8) -> u8 {
    (v0 << 2) | (v1 >> 4)
}

pub open spec fn dec_mid(v1: u8, v2: u8) -> u8 {
    ((v1 & 15) << 4) | (v2 >> 2)
}

pub open spec fn dec_last(v2: u8, v3: u8) -> u8 {
    ((v2 & 3) << 6) | v3
}

/// Strict base64url decoding: only the canonical (shortest, zero-filled)
/// encoding of a byte sequence is accepted.
pub open spec fn b64_decode_spec(s: Seq<u8>) -> Option<Seq<u8>>
    decreases s.len(),
{
    if s.len() == 0 {
        Some(Seq::empty())
    } else if s.len() == 1 {
        None
    } else if s.len() == 2 {
        match (b64_val(s[0]), b64_val(s[1])) {
            (Some(v0), Some(v1)) => if v1 & 15 == 0 {
                Some(seq![dec_first(v0, v1)])
            } else {
                None
            },
            _ => None,
        }
    } else if s.len() == 3 {
        match (b64_val(s[0]), b64_val(s[1]), b64_val(s[2])) {
            (Some(v0), Some(v1), Some(v2)) => if v2 & 3 == 0 {
                Some(seq![dec_first(v0, v1), dec_mid(v1, v2)])
            } else {
                None
            },
            _ => None,
        }
    } else {
        match (b64_val(s[0]), b64_val(s[1]), b64_val(s[2]), b64_val(s[3])) {
            (Some(v0), Some(v1), Some(v2), Some(v3)) => match b64_decode_spec(s.skip(4)) {
                Some(rest) => Some(
                    seq![dec_first(v0, v1), dec_mid(v1, v2), dec_last(v2, v3)] + rest,
                ),
                None => None,
            },
            _ => None,
        }
    }
}

/// Decoding inverts encoding: every byte sequence round-trips.
pub proof fn lemma_b64_round_trip(b: Seq<u8>)
    ensures
        b64_decode_spec(b64_encode_spec(b)) == Some(b),
    decreases b.len(),
{
    let e = b64_encode_spec(b);
    if b.len() == 0 {
        assert(b =~= Seq::<u8>::empty());
    } else if b.len() == 1 {
        let b0 = b[0];
        assert((b0 >> 2) < 64 && ((b0 & 3) << 4) < 64) by (bit_vector);
        lemma_b64_val_char(b0 >> 2);
        lemma_b64_val_char((b0 & 3) << 4);
        assert(((b0 & 3) << 4) & 15 == 0) by (bit_vector);
        assert(((b0 >> 2) << 2) | (((b0 & 3) << 4) >> 4) == b0) by (bit_vector);
        assert(seq![dec_first(b0 >> 2, (b0 & 3) << 4)] =~= b);
    } else if b.len() == 2 {
        let b0 = b[0];
        let b1 = b[1];
        let x0 = b0 >> 2;
        let x1 = ((b0 & 3) << 4) | (b1 >> 4);
        let x2 = (b1 & 15) << 2;
        assert(b0 >> 2 < 64 && (((b0 & 3) << 4) | (b1 >> 4)) < 64 && ((b1 & 15) << 2) < 64)
            by (bit_vector);
        lemma_b64_val_char(x0);
        lemma_b64_val_char(x1);
        lemma_b64_val_char(x2);
        assert(((b1 & 15) << 2) & 3 == 0) by (bit_vector);
        assert(((b0 >> 2) << 2) | ((((b0 & 3) << 4) | (b1 >> 4)) >> 4) == b0) by (bit_vector);
        assert((((((b0 & 3) << 4) | (b1 >> 4)) & 15) << 4) | ((((b1 & 15) << 2)) >> 2) == b1)
            by (bit_vector);
        assert(seq![dec_first(x0, x1), dec_mid(x1, x2)] =~= b);
    } else {
        let b0 = b[0];
        let b1 = b[1];
        let b2 = b[2];
        let x0 = b0 >> 2;
        let x1 = ((b0 & 3) << 4) | (b1 >> 4);
        let x2 = ((b1 & 15) << 2) | (b2 >> 6);
        let x3 = b2 & 63;
        let rest = b64_encode_spec(b.skip(3));
        assert(e =~= enc_block(b0, b1, b2) + rest);
        assert(e.len() >= 4);
        assert(e[0] == b64_char(x0) && e[1] == b64_char(x1) && e[2] == b64_char(x2) && e[3]
            == b64_char(x3));
        assert(b0 >> 2 < 64 && (((b0 & 3) << 4) | (b1 >> 4)) < 64 && ((((b1 & 15) << 2) | (b2
            >> 6))) < 64 && (b2 & 63) < 64) by (bit_vector);
        lemma_b64_val_char(x0);
        lemma_b64_val_char(x1);
        lemma_b64_val_char(x2);
        lemma_b64_val_char(x3);
        assert(e.skip(4) =~= rest);
        lemma_b64_round_trip(b.skip(3));
        assert(((b0 >> 2) << 2) | ((((b0 & 3) << 4) | (b1 >> 4)) >> 4) == b0) by (bit_vector);
        assert((((((b0 & 3) << 4) | (b1 >> 4)) & 15) << 4) | (((((b1 & 15) << 2) | (b2 >> 6)))
            >> 2) == b1) by (bit_vector);
        assert((((((b1 & 15) << 2) | (b2 >> 6)) & 3) << 6) | (b2 & 63) == b2) by (bit_vector);
        assert(seq![dec_first(x0, x1), dec_mid(x1, x2), dec_last(x2, x3)] + b.skip(3) =~= b);
    }
}

/// Every byte of an encoding lies in the base64url digit set.
pub proof fn lemma_b64_encode_alphabet(b: Seq<u8>)
    ensures
        forall|i: int|
            0 <= i < b64_encode_spec(b).len() ==> is_b64_byte(#[trigger] b64_encode_spec(b)[i]),
    decreases b.len(),
{
    if b.len() == 0 {
    } else if b.len() == 1 {
        assert forall|i: int| 0 <= i < b64_encode_spec(b).len() implies is_b64_byte(
            b64_encode_spec(b)[i],
        ) by {
            lemma_b64_char_in_alphabet(b[0] >> 2);
            lemma_b64_char_in_alphabet((b[0] & 3) << 4);
        }
    } else if b.len() == 2 {
        assert forall|i: int| 0 <= i < b64_encode_spec(b).len() implies is_b64_byte(
            b64_encode_spec(b)[i],
        ) by {
            lemma_b64_char_in_alphabet(b[0] >> 2);
            lemma_b64_char_in_alphabet(((b[0] & 3) << 4) | (b[1] >> 4));
            lemma_b64_char_in_alphabet((b[1] & 15) << 2);
        }
    } else {
        lemma_b64_encode_alphabet(b.skip(3));
        assert forall|i: int| 0 <= i < b64_encode_spec(b).len() implies is_b64_byte(
            b64_encode_spec(b)[i],
        ) by {
            lemma_b64_char_in_alphabet(b[0] >> 2);
            lemma_b64_char_in_alphabet(((b[0] & 3) << 4) | (b[1] >> 4));
            lemma_b64_char_in_alphabet(((b[1] & 15) << 2) | (b[2] >> 6));
            lemma_b64_char_in_alphabet(b[2] & 63);
            if i >= 4 {
                assert(b64_encode_spec(b)[i] == b64_encode_spec(b.skip(3))[i - 4]);
            }
        }
    }
}

fn b64_char_exec(x: u8) -> (r: u8)
    requires
        x < 64,
    ensures
        r == b64_char(x),
{
    if x < 26 {
        65 + x
    } else if x < 52 {
        71 + x
    } else if x < 62 {
        x - 4
    } else if x == 62 {
        45
    } else {
        95
    }
}

fn b64_val_exec(c: u8) -> (r: Option<u8>)
    ensures
        r == b64_val(c),
{
    if 65 <= c && c <= 90 {
        Some(c - 65)
    } else if 97 <= c && c <= 122 {
        Some(c - 71)
    } else if 48 <= c && c <= 57 {
        Some(c + 4)
    } else if c == 45 {
        Some(62u8)
    } else if c == 95 {
        Some(63u8)
    } else {
        None
    }
}

fn b64_encode_from(bytes: &Vec<u8>, i: usize) -> (r: Vec<u8>)
    requires
        i <= bytes.len(),
    ensures
        r@ == b64_encode_spec(bytes@.skip(i as int)),
    decreases bytes.len() - i,
{
    let ghost s = bytes@.skip(i as int);
    let rem = bytes.len() - i;
    let mut r: Vec<u8> = Vec::new();
    if rem == 0 {
        assert(s =~= Seq::<u8>::empty());
    } else if rem == 1 {
        let b0 = bytes[i];
        assert((b0 >> 2) < 64 && ((b0 & 3) << 4) < 64) by (bit_vector);
        r.push(b64_char_exec(b0 >> 2));
        r.push(b64_char_exec((b0 & 3) << 4));
        assert(r@ =~= enc_tail1(b0));
        assert(s =~= seq![b0]);
    } else if rem == 2 {
        let b0 = bytes[i];
        let b1 = bytes[i + 1];
        assert(b0 >> 2 < 64 && (((b0 & 3) << 4) | (b1 >> 4)) < 64 && ((b1 & 15) << 2) < 64)
            by (bit_vector);
        r.push(b64_char_exec(b0 >> 2));
        r.push(b64_char_exec(((b0 & 3) << 4) | (b1 >> 4)));
        r.push(b64_char_exec((b1 & 15) << 2));
        assert(r@ =~= enc_tail2(b0, b1));
        assert(s =~= seq![b0, b1]);
    } else {
        let b0 = bytes[i];
        let b1 = bytes[i + 1];
        let b2 = bytes[i + 2];
        assert(b0 >> 2 < 64 && (((b0 & 3) << 4) | (b1 >> 4)) < 64 && ((((b1 & 15) << 2) | (b2
            >> 6))) < 64 && (b2 & 63) < 64) by (bit_vector);
        r.push(b64_char_exec(b0 >> 2));
        r.push(b64_char_exec(((b0 & 3) << 4) | (b1 >> 4)));
        r.push(b64_char_exec(((b1 & 15) << 2) | (b2 >> 6)));
        r.push(b64_char_exec(b2 & 63));
        let mut tail = b64_encode_from(bytes, i + 3);
        r.append(&mut tail);
        assert(s.len() >= 3 && s[0] == b0 && s[1] == b1 && s[2] == b2);
        assert(s.skip(3) =~= bytes@.skip(i + 3));
        assert(r@ =~= enc_block(b0, b1, b2) + b64_encode_spec(s.skip(3)));
    }
    r
}

/// base64url-encode a byte vector, without padding.
pub fn b64_encode(bytes: &Vec<u8>) -> (r: Vec<u8>)
    ensures
        r@ == b64_encode_spec(bytes@),
{
    let r = b64_encode_from(bytes, 0);
    assert(bytes@.skip(0) =~= bytes@);
    r
}

fn b64_decode_from(s: &Vec<u8>, i: usize) -> (r: Option<Vec<u8>>)
    requires
        i <= s.len(),
    ensures
        match r {
            Some(v) => b64_decode_spec(s@.skip(i as int)) == Some(v@),
            None => b64_decode_spec(s@.skip(i as int)) is None,
        },
    decreases s.len() - i,
{
    let ghost sq = s@.skip(i as int);
    let rem = s.len() - i;
    if rem == 0 {
        assert(sq =~= Seq::<u8>::empty());
        Some(Vec::new())
    } else if rem == 1 {
        None
    } else if rem == 2 {
        assert(sq =~= seq![s@[i as int], s@[i + 1]]);
        match (b64_val_exec(s[i]), b64_val_exec(s[i + 1])) {
            (Some(v0), Some(v1)) => {
                if v1 & 15 == 0 {
                    let out = vec![(v0 << 2) | (v1 >> 4)];
                    assert(out@ =~= seq![dec_first(v0, v1)]);
                    Some(out)
                } else {
                    None
                }
            },
            _ => None,
        }
    } else if rem == 3 {
        assert(sq =~= seq![s@[i as int], s@[i + 1], s@[i + 2]]);
        match (b64_val_exec(s[i]), b64_val_exec(s[i + 1]), b64_val_exec(s[i + 2])) {
            (Some(v0), Some(v1), Some(v2)) => {
                if v2 & 3 == 0 {
                    let out = vec![(v0 << 2) | (v1 >> 4), ((v1 & 15) << 4) | (v2 >> 2)];
                    assert(out@ =~= seq![dec_first(v0, v1), dec_mid(v1, v2)]);
                    Some(out)
                } else {
                    None
                }
            },
            _ => None,
        }
    } else {
        assert(sq.len() >= 4 && sq[0] == s@[i as int] && sq[1] == s@[i + 1] && sq[2] == s@[i + 2]
            && sq[3] == s@[i + 3]);
        match (b64_val_exec(s[i]), b64_val_exec(s[i + 1]), b64_val_exec(s[i + 2]), b64_val_exec(
            s[i + 3],
        )) {
            (Some(v0), Some(v1), Some(v2), Some(v3)) => {
                match b64_decode_from(s, i + 4) {
                    Some(mut rest) => {
                        let mut out = vec![
                            (v0 << 2) | (v1 >> 4),
                            ((v1 & 15) << 4) | (v2 >> 2),
                            ((v2 & 3) << 6) | v3,
                        ];
                        let ghost restv = rest@;
                        out.append(&mut rest);
                        assert(sq.skip(4) =~= s@.skip(i + 4));
                        assert(out@ =~= seq![
                            dec_first(v0, v1),
                            dec_mid(v1, v2),
                            dec_last(v2, v3),
                        ] + restv);
                        Some(out)
                    },
                    None => {
                        assert(sq.skip(4) =~= s@.skip(i + 4));
                        None
                    },
                }
            },
            _ => None,
        }
    }
}

/// Strictly decode a base64url byte vector; `None` on any byte outside the
/// digit set or a non-canonical trailing group.
pub fn b64_decode(s: &Vec<u8>) -> (r: Option<Vec<u8>>)
    ensures
        match r {
            Some(v) => b64_decode_spec(s@) == Some(v@),
            None => b64_decode_spec(s@) is None,
        },
{
    let r = b64_decode_from(s, 0);
    assert(s@.skip(0) =~= s@);
    r
}

} // verus!
