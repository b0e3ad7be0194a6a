use vstd::prelude::*;
use vstd::utf8::{valid_utf8, decode_utf8, encode_utf8, is_leading_byte_width_1, pop_first_scalar,
    valid_first_scalar, decode_first_scalar};
use crate::b64::{b64_encode_spec, b64_decode_spec, is_b64_byte, b64_val, lemma_b64_round_trip,
    lemma_b64_encode_alphabet};
use crate::wire::{payload_ser, parse_payload, lemma_parse_payload_round};
use crate::trusted::hs512_sig;

verus! {

// Token structure: base64url(header) "." base64url(payload) "." signature,
// signed over the first two segments, with an optional "Bearer" prefix and
// surrounding ASCII whitespace stripped before decoding.

pub const DOT: u8 = 46;

/// The fixed header `{"typ":"JWT","alg":"HS512"}`.
pub open spec fn header_json() -> Seq<u8> {
    seq![123u8, 34, 116, 121, 112, 34, 58, 34, 74, 87, 84, 34, 44, 34, 97, 108, 103, 34, 58, 34,
        72, 83, 53, 49, 50, 34, 125]
}

/// `Bearer`
pub open spec fn bearer_lit() -> Seq<u8> {
    seq![66u8, 101, 97, 114, 101, 114]
}

pub open spec fn is_ws(c: u8) -> bool {
    c == 32 || (9 <= c && c <= 13)
}

pub open spec fn trim_start_spec(b: Seq<u8>) -> Seq<u8>
    decreases b.len(),
{
    if b.len() > 0 && is_ws(b[0]) {
        trim_start_spec(b.skip(1))
    } else {
        b
    }
}

pub open spec fn trim_end_spec(b: Seq<u8>) -> Seq<u8>
    decreases b.len(),
{
    if b.len() > 0 && is_ws(b.last()) {
        trim_end_spec(b.drop_last())
    } else {
        b
    }
}

pub open spec fn strip_bearer(b: Seq<u8>) -> Seq<u8> {
    if bearer_lit().is_prefix_of(b) {
        b.skip(6)
    } else {
        b
    }
}

/// The raw header value after prefix and whitespace stripping.
pub open spec fn canon_trim(b: Seq<u8>) -> Seq<u8> {
    trim_end_spec(trim_start_spec(strip_bearer(b)))
}

pub proof fn lemma_trim_start_char(b: Seq<u8>, m: int)
    requires
        0 <= m <= b.len(),
        forall|j: int| 0 <= j < m ==> is_ws(#[trigger] b[j]),
        m == b.len() || !is_ws(b[m]),
    ensures
        trim_start_spec(b) == b.skip(m),
    decreases b.len(),
{
    if m == 0 {
        assert(b.skip(0) =~= b);
    } else {
        assert(is_ws(b[0]));
        lemma_trim_start_char(b.skip(1), m - 1);
        assert(b.skip(1).skip(m - 1) =~= b.skip(m));
    }
}

pub proof fn lemma_trim_end_char(b: Seq<u8>, m: int)
    requires
        0 <= m <= b.len(),
        forall|j: int| m <= j < b.len() ==> is_ws(#[trigger] b[j]),
        m == 0 || !is_ws(b[m - 1]),
    ensures
        trim_end_spec(b) == b.take(m),
    decreases b.len(),
{
    if m == b.len() {
        assert(b.take(m) =~= b);
    } else {
        assert(is_ws(b.last()));
        lemma_trim_end_char(b.drop_last(), m);
        assert(b.drop_last().take(m) =~= b.take(m));
    }
}

/// Index of the first `.`, or -1 when there is none.
pub open spec fn find_dot(b: Seq<u8>) -> int
    decreases b.len(),
{
    if b.len() == 0 {
        -1
    } else if b[0] == DOT {
        0
    } else {
        let r = find_dot(b.skip(1));
        if r == -1 {
            -1
        } else {
            r + 1
        }
    }
}

pub proof fn lemma_find_dot_at(b: Seq<u8>, j: int)
    requires
        0 <= j < b.len(),
        b[j] == DOT,
        forall|t: int| 0 <= t < j ==> b[t] != DOT,
    ensures
        find_dot(b) == j,
    decreases b.len(),
{
    if j == 0 {
    } else {
        lemma_find_dot_at(b.skip(1), j - 1);
    }
}

pub proof fn lemma_find_dot_none(b: Seq<u8>)
    requires
        forall|t: int| 0 <= t < b.len() ==> b[t] != DOT,
    ensures
        find_dot(b) == -1,
    decreases b.len(),
{
    if b.len() > 0 {
        lemma_find_dot_none(b.skip(1));
    }
}

/// ASCII bytes are valid UTF-8 and decode byte for byte.
pub proof fn lemma_ascii_bytes_utf8(b: Seq<u8>)
    requires
        forall|i: int| 0 <= i < b.len() ==> #[trigger] b[i] < 128,
    ensures
        valid_utf8(b),
        decode_utf8(b) == b.map(|i: int, x: u8| x as char),
    decreases b.len(),
{
    if b.len() == 0 {
        assert(b.map(|i: int, x: u8| x as char) =~= Seq::<char>::empty());
    } else {
        let b0 = b[0];
        assert(b0 < 128 ==> b0 & 0x80 == 0) by (bit_vector);
        assert(is_leading_byte_width_1(b0));
        assert(b0 < 128 ==> (b0 & 0x7f) == b0) by (bit_vector);
        assert(valid_first_scalar(b));
        assert(pop_first_scalar(b) =~= b.skip(1));
        lemma_ascii_bytes_utf8(b.skip(1));
        assert(decode_first_scalar(b) == b0 as u32);
        assert(decode_utf8(b) == seq![decode_first_scalar(b) as char] + decode_utf8(b.skip(1)));
        assert(b.map(|i: int, x: u8| x as char) =~= seq![b0 as char] + b.skip(1).map(
            |i: int, x: u8| x as char,
        ));
    }
}

pub proof fn lemma_b64_byte_facts(c: u8)
    ensures
        is_b64_byte(c) ==> c != DOT && !is_ws(c) && c < 128,
{
}

/// The signed part of a token: b64(header) "." b64(payload).
pub open spec fn spec_message(sub: Seq<u8>, perms: Seq<Seq<u8>>, exp: u64) -> Seq<u8> {
    b64_encode_spec(header_json()) + seq![DOT] + b64_encode_spec(payload_ser(sub, perms, exp))
}

/// The whole token: the signed part, a dot, and the signature bytes.
pub open spec fn spec_token_bytes(sub: Seq<u8>, perms: Seq<Seq<u8>>, exp: u64, secret: Seq<u8>)
    -> Seq<u8> {
    spec_message(sub, perms, exp) + seq![DOT] + hs512_sig(spec_message(sub, perms, exp), secret)
}

/// What decoding a token can yield.
pub ghost enum DecodeOutcome {
    Accept { subject_id: Seq<char>, permissions: Seq<Seq<char>>, expires_at: u64 },
    Expired,
    Invalid,
    Malformed,
}

/// The decode procedure over token bytes: strip, split on the two dots,
/// check the header, check the signature, decode and parse the payload,
/// check expiry, and hand back the embedded claims.
pub open spec fn spec_decode(raw: Seq<u8>, now: u64, secret: Seq<u8>) -> DecodeOutcome {
    let t = canon_trim(raw);
    let i = find_dot(t);
    if i < 0 {
        DecodeOutcome::Malformed
    } else {
        let rest = t.skip(i + 1);
        let j = find_dot(rest);
        if j < 0 {
            DecodeOutcome::Malformed
        } else {
            let sig = rest.skip(j + 1);
            if find_dot(sig) >= 0 {
                DecodeOutcome::Malformed
            } else if t.take(i) != b64_encode_spec(header_json()) {
                DecodeOutcome::Malformed
            } else {
                let msg = t.take(i + 1 + j);
                if sig != hs512_sig(msg, secret) {
                    DecodeOutcome::Invalid
                } else {
                    match b64_decode_spec(rest.take(j)) {
                        None => DecodeOutcome::Malformed,
                        Some(pl) => match parse_payload(pl) {
                            None => DecodeOutcome::Malformed,
                            Some((sub, ps, exp)) => {
                                if !valid_utf8(sub) || exists|k: int|
                                    0 <= k < ps.len() && !valid_utf8(#[trigger] ps[k]) {
                                    DecodeOutcome::Malformed
                                } else if exp < now {
                                    DecodeOutcome::Expired
                                } else {
                                    DecodeOutcome::Accept {
                                        subject_id: decode_utf8(sub),
                                        permissions: ps.map(|k: int, pb: Seq<u8>| decode_utf8(pb)),
                                        expires_at: exp,
                                    }
                                }
                            },
                        },
                    }
                }
            }
        }
    }
}

/// What decoding does with a well-formed token: reject a wrong signature as
/// invalid, a stale expiry as expired, and otherwise return exactly the
/// embedded claims.
#[verifier::rlimit(100)]
pub proof fn lemma_decode_of_shaped_token(
    sub: Seq<u8>,
    perms: Seq<Seq<u8>>,
    exp: u64,
    sig: Seq<u8>,
    now: u64,
    secret: Seq<u8>,
)
    requires
        forall|i: int| 0 <= i < sig.len() ==> is_b64_byte(#[trigger] sig[i]),
    ensures
        ({
            let msg = spec_message(sub, perms, exp);
            let tok = msg + seq![DOT] + sig;
            spec_decode(tok, now, secret) == (if sig != hs512_sig(msg, secret) {
                DecodeOutcome::Invalid
            } else if !valid_utf8(sub) || exists|k: int|
                0 <= k < perms.len() && !valid_utf8(#[trigger] perms[k]) {
                DecodeOutcome::Malformed
            } else if exp < now {
                DecodeOutcome::Expired
            } else {
                DecodeOutcome::Accept {
                    subject_id: decode_utf8(sub),
                    permissions: perms.map(|k: int, pb: Seq<u8>| decode_utf8(pb)),
                    expires_at: exp,
                }
            })
        }),
{
    let hb = b64_encode_spec(header_json());
    let pb = b64_encode_spec(payload_ser(sub, perms, exp));
    let msg = spec_message(sub, perms, exp);
    let tok = msg + seq![DOT] + sig;
    lemma_b64_encode_alphabet(header_json());
    lemma_b64_encode_alphabet(payload_ser(sub, perms, exp));
    assert(hb.len() > 0);
    // every byte of the token is placed
    assert(tok =~= hb + seq![DOT] + pb + seq![DOT] + sig);
    assert(tok.len() == hb.len() + 1 + pb.len() + 1 + sig.len());
    assert(forall|t: int| 0 <= t < hb.len() ==> tok[t] == hb[t]);
    assert(tok[hb.len() as int] == DOT);
    assert(forall|t: int|
        0 <= t < pb.len() ==> tok[hb.len() as int + 1 + t] == #[trigger] pb[t]);
    assert(tok[hb.len() as int + 1 + pb.len() as int] == DOT);
    assert(forall|t: int|
        0 <= t < sig.len() ==> tok[hb.len() as int + 1 + pb.len() as int + 1 + t] == #[trigger] sig[t]);
    // no stripping happens
    assert(is_b64_byte(tok[0]) && tok[0] != 66 && !is_ws(tok[0])) by {
        lemma_b64_byte_facts(tok[0]);
        assert(tok[0] == hb[0]);
        assert(b64_val(66u8) is Some);
        assert(hb[0] == 66 ==> false) by {
            assert(header_json()[0] == 123);
            assert(hb[0] == crate::b64::b64_char(123u8 >> 2));
            assert((123u8 >> 2) == 30) by (bit_vector);
        }
    }
    assert(!bearer_lit().is_prefix_of(tok)) by {
        assert(bearer_lit()[0] == 66);
        assert(tok.subrange(0, 6)[0] == tok[0]) by {
            assert(tok.len() >= 6) by {
                assert(hb.len() >= 4);
            }
        }
    }
    assert(strip_bearer(tok) == tok);
    lemma_trim_start_char(tok, 0);
    assert(!is_ws(tok.last())) by {
        if sig.len() > 0 {
            assert(tok.last() == sig[sig.len() - 1]);
            lemma_b64_byte_facts(sig[sig.len() - 1]);
        } else {
            assert(tok.last() == DOT);
        }
    }
    lemma_trim_end_char(tok, tok.len() as int);
    assert(tok.take(tok.len() as int) =~= tok);
    assert(canon_trim(tok) == tok);
    // the two dots are found
    assert forall|t: int| 0 <= t < hb.len() implies tok[t] != DOT by {
        lemma_b64_byte_facts(hb[t]);
    }
    lemma_find_dot_at(tok, hb.len() as int);
    let rest = tok.skip(hb.len() as int + 1);
    assert(rest =~= pb + seq![DOT] + sig);
    assert forall|t: int| 0 <= t < pb.len() implies rest[t] != DOT by {
        lemma_b64_byte_facts(pb[t]);
    }
    assert(rest[pb.len() as int] == DOT);
    lemma_find_dot_at(rest, pb.len() as int);
    let sigseg = rest.skip(pb.len() as int + 1);
    assert(sigseg =~= sig);
    assert forall|t: int| 0 <= t < sig.len() implies sig[t] != DOT by {
        lemma_b64_byte_facts(sig[t]);
    }
    lemma_find_dot_none(sig);
    // header and message segments
    assert(tok.take(hb.len() as int) =~= hb);
    assert(tok.take(hb.len() as int + 1 + pb.len() as int) =~= msg);
    assert(rest.take(pb.len() as int) =~= pb);
    // payload round trip
    lemma_b64_round_trip(payload_ser(sub, perms, exp));
    lemma_parse_payload_round(sub, perms, exp);
}


// --- executable codec -------------------------------------------------------

/// Why a token failed verification. `Other` is the catch-all category for
/// failures outside the three defined kinds; this decoder never produces
/// it.
#[derive(Debug, Clone, PartialEq, Eq)]
pub enum VerificationError {
    Expired,
    Invalid,
    Malformed,
    Other(String),
}

/// What a successful login hands back.
#[derive(Debug, Clone)]
pub struct TokenResponse {
    pub access_token: String,
    pub refresh_token: String,
    pub expiration: i64,
}

/// Process-wide signing configuration, read once at startup.
#[derive(Debug, Clone)]
pub struct AuthConfig {
    pub secret: String,
    pub access_ttl: u64,
    pub refresh_ttl: u64,
}

/// The largest timestamp that fits the reported expiration.
pub const MAX_TS: u64 = 0x7fff_ffff_ffff_ffff;

/// The error type issuance would propagate if signing could fail; the
/// signing call used here cannot, so no function ever returns it.
#[derive(Debug, Clone, Copy, PartialEq, Eq)]
pub struct SigningError;

/// The sentinel permission list carried by a refresh token.
pub open spec fn sentinel_perms() -> Seq<Seq<char>> {
    seq!["N/A"@]
}

/// The UTF-8 bytes of each permission string.
pub open spec fn utf8_perms(ps: Seq<Seq<char>>) -> Seq<Seq<u8>> {
    ps.map(|k: int, s: Seq<char>| encode_utf8(s))
}

/// Whether an executable decode result agrees with the decode specification.
pub open spec fn decode_agrees(r: Result<crate::claims::Claims, VerificationError>, o: DecodeOutcome) -> bool {
    match o {
        DecodeOutcome::Accept { subject_id, permissions, expires_at } => r matches Ok(c)
            && c.subject_id@ == subject_id && c.permissions.deep_view() == permissions
            && c.expires_at == expires_at,
        DecodeOutcome::Expired => r matches Err(e) && e is Expired,
        DecodeOutcome::Invalid => r matches Err(e) && e is Invalid,
        DecodeOutcome::Malformed => r matches Err(e) && e is Malformed,
    }
}

fn is_ws_exec(c: u8) -> (r: bool)
    ensures
        r == is_ws(c),
{
    c == 32 || (9 <= c && c <= 13)
}

fn header_json_vec() -> (r: Vec<u8>)
    ensures
        r@ == header_json(),
{
    let v: Vec<u8> = vec![123u8, 34, 116, 121, 112, 34, 58, 34, 74, 87, 84, 34, 44, 34, 97, 108,
        103, 34, 58, 34, 72, 83, 53, 49, 50, 34, 125];
    assert(v@ =~= header_json());
    v
}

fn bearer_vec() -> (r: Vec<u8>)
    ensures
        r@ == bearer_lit(),
{
    let v: Vec<u8> = vec![66u8, 101, 97, 114, 101, 114];
    assert(v@ =~= bearer_lit());
    v
}

fn copy_range(b: &Vec<u8>, lo: usize, hi: usize) -> (r: Vec<u8>)
    requires
        lo <= hi <= b.len(),
    ensures
        r@ == b@.subrange(lo as int, hi as int),
{
    let mut out: Vec<u8> = Vec::new();
    let mut i = lo;
    while i < hi
        invariant
            lo <= i <= hi <= b.len(),
            out@ == b@.subrange(lo as int, i as int),
        decreases hi - i,
    {
        out.push(b[i]);
        assert(out@ =~= b@.subrange(lo as int, i + 1));
        i = i + 1;
    }
    out
}

fn range_eq(b: &Vec<u8>, lo: usize, hi: usize, w: &Vec<u8>) -> (r: bool)
    requires
        lo <= hi <= b.len(),
    ensures
        r == (b@.subrange(lo as int, hi as int) == w@),
{
    let ghost s = b@.subrange(lo as int, hi as int);
    if hi - lo != w.len() {
        assert(s.len() != w@.len());
        return false;
    }
    let mut i: usize = 0;
    while i < w.len()
        invariant
            0 <= i <= w.len(),
            lo <= hi <= b.len(),
            hi - lo == w.len(),
            s == b@.subrange(lo as int, hi as int),
            forall|t: int| 0 <= t < i ==> s[t] == #[trigger] w@[t],
        decreases w.len() - i,
    {
        if b[lo + i] != w[i] {
            assert(s[i as int] == b@[lo + i]);
            assert(s[i as int] != w@[i as int]);
            return false;
        }
        assert(s[i as int] == b@[lo + i]);
        i = i + 1;
    }
    assert(s =~= w@);
    true
}

fn find_dot_from(b: &Vec<u8>, from: usize) -> (r: Option<usize>)
    requires
        from <= b.len(),
    ensures
        match r {
            Some(i) => from <= i < b.len() && b@[i as int] == DOT && forall|t: int|
                from <= t < i ==> b@[t] != DOT,
            None => forall|t: int| from <= t < b.len() ==> b@[t] != DOT,
        },
{
    let mut i = from;
    while i < b.len()
        invariant
            from <= i <= b.len(),
            forall|t: int| from <= t < i ==> b@[t] != DOT,
        decreases b.len() - i,
    {
        if b[i] == DOT {
            return Some(i);
        }
        i = i + 1;
    }
    None
}

/// Strip the optional `Bearer` prefix and surrounding whitespace, yielding
/// the token bytes the decoder works on.
fn trim_token(tb: &Vec<u8>) -> (r: Vec<u8>)
    ensures
        r@ == canon_trim(tb@),
{
    let bearer = bearer_vec();
    assert(tb@.skip(0) =~= tb@);
    let s0: usize = if crate::wire::has_lit_at(tb, 0, &bearer) {
        assert(strip_bearer(tb@) == tb@.skip(6));
        6
    } else {
        assert(strip_bearer(tb@) == tb@);
        assert(tb@.skip(0) =~= tb@);
        0
    };
    assert(s0 <= tb.len()) by {
        if s0 == 6 {
            assert(bearer_lit().len() <= tb@.len());
        }
    }
    let ghost stripped = tb@.skip(s0 as int);
    assert(strip_bearer(tb@) == stripped);
    let mut start = s0;
    while start < tb.len() && is_ws_exec(tb[start])
        invariant
            s0 <= start <= tb.len(),
            forall|j: int| s0 <= j < start ==> is_ws(#[trigger] tb@[j]),
        decreases tb.len() - start,
    {
        start = start + 1;
    }
    proof {
        assert forall|j: int| 0 <= j < start - s0 implies is_ws(#[trigger] stripped[j]) by {
            assert(stripped[j] == tb@[s0 + j]);
        }
        if start < tb.len() {
            assert(stripped[start - s0] == tb@[start as int]);
        }
        lemma_trim_start_char(stripped, start - s0);
        assert(stripped.skip(start - s0) =~= tb@.skip(start as int));
    }
    let ghost u = tb@.skip(start as int);
    let mut end = tb.len();
    while end > start && is_ws_exec(tb[end - 1])
        invariant
            start <= end <= tb.len(),
            forall|j: int| end <= j < tb@.len() ==> is_ws(#[trigger] tb@[j]),
        decreases end,
    {
        end = end - 1;
    }
    proof {
        assert forall|j: int| end - start <= j < u.len() implies is_ws(#[trigger] u[j]) by {
            assert(u[j] == tb@[start + j]);
        }
        if end > start {
            assert(u[end - start - 1] == tb@[end - 1]);
        }
        lemma_trim_end_char(u, end - start);
    }
    let out = copy_range(tb, start, end);
    assert(out@ =~= u.take(end - start));
    out
}

/// Assemble and sign one token over the given subject and permission bytes.
fn build_token(
    sub_b: &Vec<u8>,
    perms_b: &Vec<Vec<u8>>,
    exp: u64,
    sb: &Vec<u8>,
) -> (r: Result<String, SigningError>)
    ensures
        r is Ok,
        (r matches Ok(s) ==> ({
            let m = spec_message(sub_b@, perms_b.deep_view(), exp);
            &&& encode_utf8(s@) == spec_token_bytes(sub_b@, perms_b.deep_view(), exp, sb@)
            &&& s@ == decode_utf8(spec_token_bytes(sub_b@, perms_b.deep_view(), exp, sb@))
            &&& forall|i: int|
                0 <= i < hs512_sig(m, sb@).len() ==> is_b64_byte(#[trigger] hs512_sig(m, sb@)[i])
        })),
{
    let hv = header_json_vec();
    let hb = crate::b64::b64_encode(&hv);
    let pl = crate::wire::ser_payload(sub_b, perms_b, exp);
    let mut pb = crate::b64::b64_encode(&pl);
    let ghost m = spec_message(sub_b@, perms_b.deep_view(), exp);
    let mut msg = hb;
    msg.push(DOT);
    msg.append(&mut pb);
    assert(msg@ =~= m);
    let sig = match crate::trusted::sign_hs512(&msg, sb) {
        Ok(s) => s,
        Err(_) => {
            proof {
                assert(false);
            }
            return Err(SigningError);
        },
    };
    let ghost sigv = sig@;
    let mut tokb = msg;
    tokb.push(DOT);
    let mut sig2 = sig;
    tokb.append(&mut sig2);
    let ghost tv = tokb@;
    proof {
        assert(tv =~= m + seq![DOT] + sigv);
        assert(tv =~= spec_token_bytes(sub_b@, perms_b.deep_view(), exp, sb@));
        lemma_b64_encode_alphabet(header_json());
        lemma_b64_encode_alphabet(payload_ser(sub_b@, perms_b.deep_view(), exp));
        assert forall|i: int| 0 <= i < tv.len() implies #[trigger] tv[i] < 128 by {
            let hl = b64_encode_spec(header_json()).len() as int;
            let pll = b64_encode_spec(payload_ser(sub_b@, perms_b.deep_view(), exp)).len() as int;
            if i < hl {
                lemma_b64_byte_facts(tv[i]);
            } else if i == hl {
            } else if i < hl + 1 + pll {
                lemma_b64_byte_facts(tv[i]);
            } else if i == hl + 1 + pll {
            } else {
                lemma_b64_byte_facts(tv[i]);
            }
        }
        lemma_ascii_bytes_utf8(tv);
        vstd::utf8::decode_utf8_encode_utf8(tv);
    }
    match crate::trusted::bytes_to_string(&tokb) {
        Some(s) => Ok(s),
        None => {
            proof {
                assert(false);
            }
            Err(SigningError)
        },
    }
}

/// Everything issuance promises of a token pair: the reported expiry, the
/// exact token bytes, and that each token decodes back to its claims until
/// it expires.
pub open spec fn issued_tokens_ok(
    id: Seq<char>,
    perms: Seq<Seq<char>>,
    now: u64,
    secret: Seq<char>,
    access_ttl: u64,
    refresh_ttl: u64,
    t: TokenResponse,
) -> bool {
    let sb = encode_utf8(secret);
    let access_exp = (now + access_ttl) as u64;
    let refresh_exp = (now + refresh_ttl) as u64;
    &&& t.expiration == access_exp as i64
    &&& encode_utf8(t.access_token@) == spec_token_bytes(
        encode_utf8(id),
        utf8_perms(perms),
        access_exp,
        sb,
    )
    &&& encode_utf8(t.refresh_token@) == spec_token_bytes(
        encode_utf8(id),
        utf8_perms(sentinel_perms()),
        refresh_exp,
        sb,
    )
    &&& forall|t2: u64|
        spec_decode(encode_utf8(t.access_token@), t2, sb) == (if access_exp < t2 {
            DecodeOutcome::Expired
        } else {
            DecodeOutcome::Accept { subject_id: id, permissions: perms, expires_at: access_exp }
        })
    &&& forall|t2: u64|
        spec_decode(encode_utf8(t.refresh_token@), t2, sb) == (if refresh_exp < t2 {
            DecodeOutcome::Expired
        } else {
            DecodeOutcome::Accept {
                subject_id: id,
                permissions: sentinel_perms(),
                expires_at: refresh_exp,
            }
        })
}

/// Issuance always succeeds — the HMAC signing call cannot fail — and the
/// issued pair keeps `issued_tokens_ok`.
pub open spec fn create_jwt_post(
    id: Seq<char>,
    perms: Seq<Seq<char>>,
    now: u64,
    secret: Seq<char>,
    access_ttl: u64,
    refresh_ttl: u64,
    r: Result<TokenResponse, SigningError>,
) -> bool {
    match r {
        Ok(t) => issued_tokens_ok(id, perms, now, secret, access_ttl, refresh_ttl, t),
        Err(_) => false,
    }
}

/// Issue an access and a refresh token for a subject: the access token
/// carries the given permissions, the refresh token the sentinel list; both
/// expire their configured number of seconds after `now`, and both decode
/// back to exactly what was put in, for as long as they are fresh.
pub fn create_jwt(
    id: String,
    permissions: Vec<String>,
    now: u64,
    cfg: &AuthConfig,
) -> (r: Result<TokenResponse, SigningError>)
    requires
        now + cfg.access_ttl <= MAX_TS,
        now + cfg.refresh_ttl <= MAX_TS,
    ensures
        create_jwt_post(
            id@,
            permissions.deep_view(),
            now,
            cfg.secret@,
            cfg.access_ttl,
            cfg.refresh_ttl,
            r,
        ),
{
    let sb = cfg.secret.as_str().as_bytes_vec();
    let id_b = id.as_str().as_bytes_vec();
    let ghost idv = id@;
    let mut perms_b: Vec<Vec<u8>> = Vec::new();
    let ghost pv = permissions.deep_view();
    proof {
        assert(pv.len() == permissions@.len());
        assert(forall|j: int| 0 <= j < pv.len() ==> pv[j] == #[trigger] permissions@[j]@);
        assert(perms_b.deep_view() =~= utf8_perms(pv).take(0));
    }
    let mut i: usize = 0;
    while i < permissions.len()
        invariant
            i <= permissions.len(),
            pv == permissions.deep_view(),
            pv.len() == permissions@.len(),
            forall|j: int| 0 <= j < pv.len() ==> pv[j] == #[trigger] permissions@[j]@,
            perms_b.deep_view() == utf8_perms(pv).take(i as int),
            perms_b@.len() == i,
        decreases permissions.len() - i,
    {
        let pb = permissions[i].as_str().as_bytes_vec();
        let ghost before = perms_b.deep_view();
        perms_b.push(pb);
        proof {
            assert forall|t: int| 0 <= t < i + 1 implies perms_b.deep_view()[t] == utf8_perms(
                pv,
            ).take(i + 1)[t] by {
                if t < i {
                    assert(perms_b@[t] == perms_b@.subrange(0, i as int)[t]);
                    assert(perms_b.deep_view()[t] == before[t]);
                } else {
                    assert(perms_b@[t] == pb);
                }
            }
            assert(perms_b.deep_view() =~= utf8_perms(pv).take(i + 1));
        }
        i = i + 1;
    }
    proof {
        assert(utf8_perms(pv).take(pv.len() as int) =~= utf8_perms(pv));
    }
    let access_exp = now + cfg.access_ttl;
    let refresh_exp = now + cfg.refresh_ttl;
    let access_token = match build_token(&id_b, &perms_b, access_exp, &sb) {
        Ok(s) => s,
        Err(e) => {
            proof {
                assert(false);
            }
            return Err(e);
        },
    };
    let mut sentinel_b: Vec<Vec<u8>> = Vec::new();
    let nav = "N/A";
    sentinel_b.push(nav.as_bytes_vec());
    proof {
        assert(sentinel_b.deep_view() =~= utf8_perms(sentinel_perms())) by {
            assert(sentinel_b.deep_view().len() == 1);
            assert(sentinel_b@[0]@ == encode_utf8(nav@));
            assert(sentinel_b.deep_view()[0] == sentinel_b@[0]@);
            assert(utf8_perms(sentinel_perms())[0] == encode_utf8("N/A"@));
        }
    }
    let refresh_token = match build_token(&id_b, &sentinel_b, refresh_exp, &sb) {
        Ok(s) => s,
        Err(e) => {
            proof {
                assert(false);
            }
            return Err(e);
        },
    };
    let result = TokenResponse {
        access_token,
        refresh_token,
        expiration: access_exp as i64,
    };
    proof {
        broadcast use vstd::utf8::encode_utf8_valid_utf8;
        broadcast use vstd::utf8::encode_utf8_decode_utf8;

        let sub = encode_utf8(idv);
        let apb = utf8_perms(pv);
        let am = spec_message(sub, apb, access_exp);
        assert forall|t2: u64|
            spec_decode(encode_utf8(result.access_token@), t2, sb@) == (if access_exp < t2 {
                DecodeOutcome::Expired
            } else {
                (DecodeOutcome::Accept {
                    subject_id: idv,
                    permissions: pv,
                    expires_at: access_exp,
                })
            }) by {
            lemma_decode_of_shaped_token(sub, apb, access_exp, hs512_sig(am, sb@), t2, sb@);
            assert(am + seq![DOT] + hs512_sig(am, sb@) =~= spec_token_bytes(
                sub,
                apb,
                access_exp,
                sb@,
            ));
            assert(valid_utf8(sub));
            assert forall|k: int| 0 <= k < apb.len() implies valid_utf8(#[trigger] apb[k]) by {
                assert(apb[k] == encode_utf8(pv[k]));
            }
            if !(access_exp < t2) {
                assert(decode_utf8(sub) == idv);
                assert(apb.map(|k: int, pbx: Seq<u8>| decode_utf8(pbx)) =~= pv) by {
                    assert forall|k: int| 0 <= k < apb.len() implies apb.map(
                        |k2: int, pbx: Seq<u8>| decode_utf8(pbx),
                    )[k] == pv[k] by {
                        assert(apb[k] == encode_utf8(pv[k]));
                        assert(decode_utf8(encode_utf8(pv[k])) == pv[k]);
                    }
                }
            }
        }
        let spb = utf8_perms(sentinel_perms());
        let rm = spec_message(sub, spb, refresh_exp);
        assert forall|t2: u64|
            spec_decode(encode_utf8(result.refresh_token@), t2, sb@) == (if refresh_exp < t2 {
                DecodeOutcome::Expired
            } else {
                (DecodeOutcome::Accept {
                    subject_id: idv,
                    permissions: sentinel_perms(),
                    expires_at: refresh_exp,
                })
            }) by {
            lemma_decode_of_shaped_token(sub, spb, refresh_exp, hs512_sig(rm, sb@), t2, sb@);
            assert(rm + seq![DOT] + hs512_sig(rm, sb@) =~= spec_token_bytes(
                sub,
                spb,
                refresh_exp,
                sb@,
            ));
            assert(valid_utf8(sub));
            assert forall|k: int| 0 <= k < spb.len() implies valid_utf8(#[trigger] spb[k]) by {
                assert(spb[k] == encode_utf8(sentinel_perms()[k]));
            }
            if !(refresh_exp < t2) {
                assert(decode_utf8(sub) == idv);
                assert(spb.map(|k: int, pbx: Seq<u8>| decode_utf8(pbx)) =~= sentinel_perms()) by {
                    assert(spb[0] == encode_utf8(sentinel_perms()[0]));
                    assert(decode_utf8(encode_utf8(sentinel_perms()[0])) == sentinel_perms()[0]);
                }
            }
        }
        assert(issued_tokens_ok(idv, pv, now, cfg.secret@, cfg.access_ttl, cfg.refresh_ttl, result));

    }
    Ok(result)
}

/// Verify and decode a token string at the given time: strip the optional
/// `Bearer` prefix and surrounding whitespace, check the token's shape and
/// header, check the signature, parse the payload, and check expiry. The
/// result agrees with the decode specification on every input.
pub fn decode_jwt(token: &String, now: u64, secret: &String) -> (r: Result<
    crate::claims::Claims,
    VerificationError,
>)
    ensures
        decode_agrees(r, spec_decode(encode_utf8(token@), now, encode_utf8(secret@))),
{
    let tb = token.as_str().as_bytes_vec();
    let t = trim_token(&tb);
    let ghost tv = t@;
    let i1 = match find_dot_from(&t, 0) {
        Some(i) => i,
        None => {
            proof {
                lemma_find_dot_none(tv);
            }
            return Err(VerificationError::Malformed);
        },
    };
    proof {
        lemma_find_dot_at(tv, i1 as int);
    }
    let ghost rest = tv.skip(i1 as int + 1);
    let i2 = match find_dot_from(&t, i1 + 1) {
        Some(i) => i,
        None => {
            proof {
                assert forall|k: int| 0 <= k < rest.len() implies rest[k] != DOT by {
                    assert(rest[k] == tv[i1 + 1 + k]);
                }
                lemma_find_dot_none(rest);
            }
            return Err(VerificationError::Malformed);
        },
    };
    proof {
        assert(rest[i2 - i1 - 1] == tv[i2 as int]);
        assert forall|k: int| 0 <= k < i2 - i1 - 1 implies rest[k] != DOT by {
            assert(rest[k] == tv[i1 + 1 + k]);
        }
        lemma_find_dot_at(rest, i2 - i1 - 1);
    }
    let ghost sigseg = rest.skip(i2 - i1 as int);
    proof {
        assert(sigseg =~= tv.skip(i2 as int + 1));
    }
    match find_dot_from(&t, i2 + 1) {
        Some(i3) => {
            proof {
                assert(sigseg[i3 - i2 - 1] == tv[i3 as int]);
                assert forall|k: int| 0 <= k < i3 - i2 - 1 implies sigseg[k] != DOT by {
                    assert(sigseg[k] == tv[i2 + 1 + k]);
                }
                lemma_find_dot_at(sigseg, i3 - i2 - 1);
            }
            return Err(VerificationError::Malformed);
        },
        None => {
            proof {
                assert forall|k: int| 0 <= k < sigseg.len() implies sigseg[k] != DOT by {
                    assert(sigseg[k] == tv[i2 + 1 + k]);
                }
                lemma_find_dot_none(sigseg);
            }
        },
    }
    let hv = header_json_vec();
    let hb = crate::b64::b64_encode(&hv);
    if !range_eq(&t, 0, i1, &hb) {
        proof {
            assert(tv.take(i1 as int) =~= tv.subrange(0, i1 as int));
        }
        return Err(VerificationError::Malformed);
    }
    proof {
        assert(tv.take(i1 as int) =~= tv.subrange(0, i1 as int));
    }
    let msg = copy_range(&t, 0, i2);
    proof {
        assert(msg@ =~= tv.take(i1 as int + 1 + (i2 - i1 - 1)));
    }
    let sb = secret.as_str().as_bytes_vec();
    let sig2 = match crate::trusted::sign_hs512(&msg, &sb) {
        Ok(s) => s,
        Err(_) => {
            proof {
                assert(false);
            }
            let m = String::from_str("token signature could not be computed");
            return Err(VerificationError::Other(m));
        },
    };
    if !range_eq(&t, i2 + 1, t.len(), &sig2) {
        proof {
            assert(sigseg =~= tv.subrange(i2 as int + 1, tv.len() as int));
        }
        return Err(VerificationError::Invalid);
    }
    proof {
        assert(sigseg =~= tv.subrange(i2 as int + 1, tv.len() as int));
    }
    let pvec = copy_range(&t, i1 + 1, i2);
    proof {
        assert(pvec@ =~= rest.take(i2 - i1 - 1));
    }
    let pl = match crate::b64::b64_decode(&pvec) {
        Some(p) => p,
        None => {
            return Err(VerificationError::Malformed);
        },
    };
    let parsed = match crate::wire::parse_payload_exec(&pl) {
        Some(x) => x,
        None => {
            return Err(VerificationError::Malformed);
        },
    };
    let (sub_b, ps_b, exp) = parsed;
    let ghost psv = ps_b.deep_view();
    proof {
        assert(psv.len() == ps_b@.len());
        assert(forall|j: int| 0 <= j < psv.len() ==> psv[j] == #[trigger] ps_b@[j]@);
    }
    let sub_s = match crate::trusted::bytes_to_string(&sub_b) {
        Some(s) => s,
        None => {
            return Err(VerificationError::Malformed);
        },
    };
    let mut perms: Vec<String> = Vec::new();
    let mut k: usize = 0;
    let mut bad: bool = false;
    while k < ps_b.len() && !bad
        invariant
            k <= ps_b.len(),
            psv == ps_b.deep_view(),
            psv.len() == ps_b@.len(),
            forall|j: int| 0 <= j < psv.len() ==> psv[j] == #[trigger] ps_b@[j]@,
            !bad ==> perms@.len() == k,
            !bad ==> forall|j: int|
                0 <= j < k ==> valid_utf8(#[trigger] psv[j]) && perms@[j]@ == decode_utf8(psv[j]),
            bad ==> exists|j: int| 0 <= j < psv.len() && !valid_utf8(#[trigger] psv[j]),
        decreases ps_b.len() - k + (if bad { 0int } else { 1int }),
    {
        match crate::trusted::bytes_to_string(&ps_b[k]) {
            Some(s) => {
                perms.push(s);
                k = k + 1;
            },
            None => {
                bad = true;
            },
        }
    }
    if bad {
        return Err(VerificationError::Malformed);
    }
    if exp < now {
        return Err(VerificationError::Expired);
    }
    let out = crate::claims::Claims { subject_id: sub_s, permissions: perms, expires_at: exp };
    proof {
        assert(out.permissions.deep_view() =~~= psv.map(|j: int, pb: Seq<u8>| decode_utf8(pb)))
            by {
            assert(out.permissions.deep_view().len() == psv.len());
            assert forall|j: int| 0 <= j < psv.len() implies out.permissions.deep_view()[j]
                == decode_utf8(psv[j]) by {
                assert(out.permissions.deep_view()[j] == perms@[j]@);
            }
        }
    }
    Ok(out)
}

/// A token decoded at a time past its embedded expiry is never accepted.
pub proof fn lemma_expired_never_accepted(raw: Seq<u8>, now: u64, secret: Seq<u8>)
    ensures
        (spec_decode(raw, now, secret) matches DecodeOutcome::Accept { expires_at, .. } ==> now
            <= expires_at),
{
}

/// A well-shaped token whose signature is not the one the decoding secret
/// yields is rejected as invalid, never accepted: in particular a token
/// signed under one secret is rejected under any secret whose tag over the
/// same message differs.
pub proof fn lemma_other_secret_rejected(
    sub: Seq<u8>,
    perms: Seq<Seq<u8>>,
    exp: u64,
    now: u64,
    s1: Seq<u8>,
    s2: Seq<u8>,
)
    ensures
        ({
            let m = spec_message(sub, perms, exp);
            ((forall|i: int| 0 <= i < hs512_sig(m, s1).len() ==> is_b64_byte(
                #[trigger] hs512_sig(m, s1)[i],
            )) && hs512_sig(m, s1) != hs512_sig(m, s2)) ==> spec_decode(
                spec_token_bytes(sub, perms, exp, s1),
                now,
                s2,
            ) == DecodeOutcome::Invalid
        }),
{
    let m = spec_message(sub, perms, exp);
    if (forall|i: int| 0 <= i < hs512_sig(m, s1).len() ==> is_b64_byte(
        #[trigger] hs512_sig(m, s1)[i],
    )) && hs512_sig(m, s1) != hs512_sig(m, s2) {
        lemma_decode_of_shaped_token(sub, perms, exp, hs512_sig(m, s1), now, s2);
    }
}

/// Round trip: a token built over a subject and permission list decodes,
/// under the same secret and at any time not past its expiry, to exactly
/// the claims that were put in.
pub proof fn lemma_encode_decode_round_trip(
    subject_id: Seq<char>,
    permissions: Seq<Seq<char>>,
    exp: u64,
    now: u64,
    secret: Seq<u8>,
)
    ensures
        ({
            let sub = encode_utf8(subject_id);
            let pb = utf8_perms(permissions);
            let m = spec_message(sub, pb, exp);
            ((forall|i: int| 0 <= i < hs512_sig(m, secret).len() ==> is_b64_byte(
                #[trigger] hs512_sig(m, secret)[i],
            )) && now <= exp) ==> spec_decode(spec_token_bytes(sub, pb, exp, secret), now, secret)
                == (DecodeOutcome::Accept {
                subject_id: subject_id,
                permissions: permissions,
                expires_at: exp,
            })
        }),
{
    broadcast use vstd::utf8::encode_utf8_valid_utf8;
    broadcast use vstd::utf8::encode_utf8_decode_utf8;

    let sub = encode_utf8(subject_id);
    let pb = utf8_perms(permissions);
    let m = spec_message(sub, pb, exp);
    if (forall|i: int| 0 <= i < hs512_sig(m, secret).len() ==> is_b64_byte(
        #[trigger] hs512_sig(m, secret)[i],
    )) && now <= exp {
        lemma_decode_of_shaped_token(sub, pb, exp, hs512_sig(m, secret), now, secret);
        assert(m + seq![DOT] + hs512_sig(m, secret) =~= spec_token_bytes(sub, pb, exp, secret));
        assert(valid_utf8(sub));
        assert forall|k: int| 0 <= k < pb.len() implies valid_utf8(#[trigger] pb[k]) by {
            assert(pb[k] == encode_utf8(permissions[k]));
        }
        assert(decode_utf8(sub) == subject_id);
        assert(pb.map(|k: int, pbx: Seq<u8>| decode_utf8(pbx)) =~= permissions) by {
            assert forall|k: int| 0 <= k < pb.len() implies pb.map(
                |k2: int, pbx: Seq<u8>| decode_utf8(pbx),
            )[k] == permissions[k] by {
                assert(pb[k] == encode_utf8(permissions[k]));
                assert(decode_utf8(encode_utf8(permissions[k])) == permissions[k]);
            }
        }
    }
}

} // verus!
