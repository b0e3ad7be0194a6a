use vstd::prelude::*;
use vstd::arithmetic::div_mod::lemma_fundamental_div_mod;

verus! {

// The canonical wire form of the claims payload:
//   {"subject_id":"<escaped>","permissions":["<escaped>",...],"exp":<digits>}
// Strings carry their UTF-8 bytes; a quote, a backslash and control bytes are
// escaped, everything else (multi-byte UTF-8 runs included) passes through
// unchanged. The parser accepts exactly the canonical form.

pub const DQUOTE: u8 = 34;

pub const BSLASH: u8 = 92;

pub const COMMA: u8 = 44;

pub const RBRACK: u8 = 93;

pub const RBRACE: u8 = 125;

// --- string escaping --------------------------------------------------------

/// Lower-case hex digit for a value below 16.
pub open spec fn hex_digit(x: u8) -> u8
    recommends
        x < 16,
{
    if x < 10 {
        (48 + x) as u8
    } else {
        (87 + x) as u8
    }
}

pub open spec fn is_hex_lc(c: u8) -> bool {
    (48 <= c && c <= 57) || (97 <= c && c <= 102)
}

pub open spec fn hex_val(c: u8) -> u8
    recommends
        is_hex_lc(c),
{
    if c < 58 {
        (c - 48) as u8
    } else {
        (c - 87) as u8
    }
}

pub proof fn lemma_hex_digit_val(x: u8)
    requires
        x < 16,
    ensures
        is_hex_lc(hex_digit(x)),
        hex_val(hex_digit(x)) == x,
{
}

/// The escape sequence of a single byte inside a JSON string.
pub open spec fn esc_byte(x: u8) -> Seq<u8> {
    if x == DQUOTE {
        seq![BSLASH, DQUOTE]
    } else if x == BSLASH {
        seq![BSLASH, BSLASH]
    } else if x < 32 {
        seq![BSLASH, 117u8, 48u8, 48u8, hex_digit(x >> 4), hex_digit(x & 15)]
    } else {
        seq![x]
    }
}

/// The escaped form of a string's bytes.
pub open spec fn esc(b: Seq<u8>) -> Seq<u8>
    decreases b.len(),
{
    if b.len() == 0 {
        Seq::empty()
    } else {
        esc_byte(b[0]) + esc(b.drop_first())
    }
}

pub proof fn lemma_esc_snoc(b: Seq<u8>, x: u8)
    ensures
        esc(b + seq![x]) == esc(b) + esc_byte(x),
    decreases b.len(),
{
    if b.len() == 0 {
        assert(b + seq![x] =~= seq![x]);
        assert(esc(seq![x]) == esc_byte(x) + esc(seq![x].drop_first()));
        assert(seq![x].drop_first() =~= Seq::<u8>::empty());
        assert(esc(b) + esc_byte(x) =~= esc_byte(x));
    } else {
        let c = b + seq![x];
        assert(c[0] == b[0]);
        assert(c.drop_first() =~= b.drop_first() + seq![x]);
        lemma_esc_snoc(b.drop_first(), x);
        assert(esc(c) == esc_byte(b[0]) + (esc(b.drop_first()) + esc_byte(x)));
        assert(esc_byte(b[0]) + (esc(b.drop_first()) + esc_byte(x)) =~= (esc_byte(b[0]) + esc(
            b.drop_first(),
        )) + esc_byte(x));
    }
}

/// Parse the inside of a JSON string, starting just after the opening quote;
/// yields the unescaped content and what follows the closing quote.
pub open spec fn parse_jstr(b: Seq<u8>) -> Option<(Seq<u8>, Seq<u8>)>
    decreases b.len(),
{
    if b.len() == 0 {
        None
    } else if b[0] == DQUOTE {
        Some((Seq::empty(), b.skip(1)))
    } else if b[0] == BSLASH {
        if b.len() >= 2 && (b[1] == DQUOTE || b[1] == BSLASH) {
            match parse_jstr(b.skip(2)) {
                Some((s, r)) => Some((seq![b[1]] + s, r)),
                None => None,
            }
        } else if b.len() >= 6 && b[1] == 117 && b[2] == 48 && b[3] == 48 && is_hex_lc(b[4])
            && is_hex_lc(b[5]) && hex_val(b[4]) * 16 + hex_val(b[5]) < 32 {
            match parse_jstr(b.skip(6)) {
                Some((s, r)) => Some((seq![(hex_val(b[4]) * 16 + hex_val(b[5])) as u8] + s, r)),
                None => None,
            }
        } else {
            None
        }
    } else if b[0] < 32 {
        None
    } else {
        match parse_jstr(b.skip(1)) {
            Some((s, r)) => Some((seq![b[0]] + s, r)),
            None => None,
        }
    }
}

pub proof fn lemma_parse_jstr_shrinks(b: Seq<u8>)
    ensures
        parse_jstr(b) matches Some(p) ==> p.1.len() < b.len(),
    decreases b.len(),
{
    if b.len() == 0 {
    } else if b[0] == DQUOTE {
    } else if b[0] == BSLASH {
        if b.len() >= 2 && (b[1] == DQUOTE || b[1] == BSLASH) {
            lemma_parse_jstr_shrinks(b.skip(2));
        } else if b.len() >= 6 && b[1] == 117 && b[2] == 48 && b[3] == 48 && is_hex_lc(b[4])
            && is_hex_lc(b[5]) && hex_val(b[4]) * 16 + hex_val(b[5]) < 32 {
            lemma_parse_jstr_shrinks(b.skip(6));
        }
    } else {
        lemma_parse_jstr_shrinks(b.skip(1));
    }
}

/// Parsing inverts escaping: the content is recovered and the input after the
/// closing quote is handed back untouched.
pub proof fn lemma_parse_jstr_esc(s: Seq<u8>, rest: Seq<u8>)
    ensures
        parse_jstr(esc(s) + seq![DQUOTE] + rest) == Some((s, rest)),
    decreases s.len(),
{
    let b = esc(s) + seq![DQUOTE] + rest;
    if s.len() == 0 {
        assert(b =~= seq![DQUOTE] + rest);
        assert(b[0] == DQUOTE);
        assert(b.skip(1) =~= rest);
        assert(s =~= Seq::<u8>::empty());
    } else {
        let x = s[0];
        let tail = s.drop_first();
        assert(esc(s) == esc_byte(x) + esc(tail));
        assert(b =~= esc_byte(x) + (esc(tail) + seq![DQUOTE] + rest));
        let b2 = esc(tail) + seq![DQUOTE] + rest;
        lemma_parse_jstr_esc(tail, rest);
        if x == DQUOTE || x == BSLASH {
            assert(b.len() >= 2 && b[0] == BSLASH && b[1] == x);
            assert(b.skip(2) =~= b2);
            assert(seq![x] + tail =~= s);
        } else if x < 32 {
            assert((x >> 4) < 16 && (x & 15) < 16) by (bit_vector);
            lemma_hex_digit_val(x >> 4);
            lemma_hex_digit_val(x & 15);
            assert(b.len() >= 6);
            assert(b[0] == BSLASH && b[1] == 117 && b[2] == 48 && b[3] == 48);
            assert(b[4] == hex_digit(x >> 4) && b[5] == hex_digit(x & 15));
            assert((x >> 4) * 16 + (x & 15) == x) by (bit_vector);
            assert(hex_val(b[4]) * 16 + hex_val(b[5]) == x);
            assert(b.skip(6) =~= b2);
            assert(seq![x] + tail =~= s);
        } else {
            assert(b[0] == x && x != DQUOTE && x != BSLASH && x >= 32);
            assert(b.skip(1) =~= b2);
            assert(seq![x] + tail =~= s);
        }
    }
}

// --- decimal numbers --------------------------------------------------------

pub open spec fn is_digit(c: u8) -> bool {
    48 <= c && c <= 57
}

/// The canonical decimal digits of a number, most significant first.
pub open spec fn dec_digits(n: nat) -> Seq<u8>
    decreases n,
{
    if n < 10 {
        seq![(48 + n) as u8]
    } else {
        dec_digits(n / 10) + seq![(48 + n % 10) as u8]
    }
}

/// The value of a digit string.
pub open spec fn digits_val(d: Seq<u8>) -> nat
    decreases d.len(),
{
    if d.len() == 0 {
        0
    } else {
        digits_val(d.drop_last()) * 10 + (if is_digit(d.last()) {
            (d.last() - 48) as nat
        } else {
            0
        })
    }
}

pub proof fn lemma_dec_digits_shape(n: nat)
    ensures
        dec_digits(n).len() >= 1,
        forall|i: int| 0 <= i < dec_digits(n).len() ==> is_digit(#[trigger] dec_digits(n)[i]),
        dec_digits(n)[0] == 48 ==> n == 0,
        n == 0 ==> dec_digits(n).len() == 1,
    decreases n,
{
    if n < 10 {
    } else {
        lemma_dec_digits_shape(n / 10);
        assert(dec_digits(n) == dec_digits(n / 10) + seq![(48 + n % 10) as u8]);
        assert(dec_digits(n)[0] == dec_digits(n / 10)[0]);
    }
}

#[verifier::rlimit(100)]
#[verifier::spinoff_prover]
pub proof fn lemma_digits_val_dec_digits(n: nat)
    ensures
        digits_val(dec_digits(n)) == n,
    decreases n,
{
    if n < 10 {
        let d = dec_digits(n);
        assert(d == seq![(48 + n) as u8]);
        assert(d.len() == 1);
        assert(d.drop_last() =~= Seq::<u8>::empty());
        assert(digits_val(d.drop_last()) == 0);
        assert(is_digit(d.last()));
        assert((d.last() - 48) as nat == n);
        assert(digits_val(d) == digits_val(d.drop_last()) * 10 + ((d.last() - 48) as nat));
        assert(digits_val(dec_digits(n)) == n);
    } else {
        lemma_digits_val_dec_digits(n / 10);
        let d = dec_digits(n);
        assert(d.drop_last() =~= dec_digits(n / 10));
        assert(d.last() == (48 + n % 10) as u8);
        assert(0 <= n % 10 < 10);
        assert(is_digit(d.last()));
        assert((d.last() - 48) as nat == n % 10);
        assert(d.len() > 0);
        assert(digits_val(d) == digits_val(d.drop_last()) * 10 + ((d.last() - 48) as nat));
        assert(digits_val(d) == (n / 10) * 10 + n % 10);
        lemma_fundamental_div_mod(n as int, 10);
        assert((n / 10) * 10 + n % 10 == n);
    }
}

/// A prefix of a digit string is worth no more than the whole.
pub proof fn lemma_digits_val_prefix_le(d: Seq<u8>, m: int)
    requires
        0 <= m <= d.len(),
    ensures
        digits_val(d.take(m)) <= digits_val(d),
    decreases d.len() - m,
{
    if m == d.len() {
        assert(d.take(m) =~= d);
    } else {
        lemma_digits_val_prefix_le(d, m + 1);
        let e = d.take(m + 1);
        assert(e.drop_last() =~= d.take(m));
        assert(digits_val(d.take(m)) <= digits_val(e));
    }
}

pub proof fn lemma_digits_val_snoc(d: Seq<u8>, c: u8)
    requires
        is_digit(c),
    ensures
        digits_val(d + seq![c]) == digits_val(d) * 10 + (c - 48),
{
    let e = d + seq![c];
    assert(e.drop_last() =~= d);
    assert(e.last() == c);
}

pub open spec fn digit_prefix_len(b: Seq<u8>) -> int
    decreases b.len(),
{
    if b.len() > 0 && is_digit(b[0]) {
        1 + digit_prefix_len(b.skip(1))
    } else {
        0
    }
}

pub proof fn lemma_digit_prefix_len_char(b: Seq<u8>, m: int)
    requires
        0 <= m <= b.len(),
        forall|j: int| 0 <= j < m ==> is_digit(#[trigger] b[j]),
        m == b.len() || !is_digit(b[m]),
    ensures
        digit_prefix_len(b) == m,
    decreases b.len(),
{
    if m == 0 {
    } else {
        assert(is_digit(b[0]));
        lemma_digit_prefix_len_char(b.skip(1), m - 1);
    }
}

/// Strict decimal parse: a non-empty digit prefix, no leading zero, value
/// within `u64`; yields the value and the rest of the input.
pub open spec fn parse_num(b: Seq<u8>) -> Option<(u64, Seq<u8>)> {
    let n = digit_prefix_len(b);
    if n == 0 {
        None
    } else if b[0] == 48 && n > 1 {
        None
    } else {
        let v = digits_val(b.take(n));
        if v > u64::MAX {
            None
        } else {
            Some((v as u64, b.skip(n)))
        }
    }
}

pub proof fn lemma_parse_num_round(n: u64, rest: Seq<u8>)
    requires
        rest.len() == 0 || !is_digit(rest[0]),
    ensures
        parse_num(dec_digits(n as nat) + rest) == Some((n, rest)),
{
    let d = dec_digits(n as nat);
    let b = d + rest;
    lemma_dec_digits_shape(n as nat);
    assert forall|j: int| 0 <= j < d.len() implies is_digit(#[trigger] b[j]) by {
        assert(b[j] == d[j]);
    }
    if d.len() < b.len() {
        assert(b[d.len() as int] == rest[0]);
    }
    lemma_digit_prefix_len_char(b, d.len() as int);
    assert(b.take(d.len() as int) =~= d);
    lemma_digits_val_dec_digits(n as nat);
    assert(b[0] == d[0]);
    assert(b.skip(d.len() as int) =~= rest);
}

// --- the permissions array --------------------------------------------------

/// The comma-separated list of quoted, escaped permission strings.
pub open spec fn perms_ser_items(ps: Seq<Seq<u8>>) -> Seq<u8>
    decreases ps.len(),
{
    if ps.len() == 0 {
        Seq::empty()
    } else if ps.len() == 1 {
        seq![DQUOTE] + esc(ps[0]) + seq![DQUOTE]
    } else {
        seq![DQUOTE] + esc(ps[0]) + seq![DQUOTE, COMMA] + perms_ser_items(ps.skip(1))
    }
}

pub proof fn lemma_perms_ser_snoc(ps: Seq<Seq<u8>>, x: Seq<u8>)
    ensures
        perms_ser_items(ps + seq![x]) == if ps.len() == 0 {
            seq![DQUOTE] + esc(x) + seq![DQUOTE]
        } else {
            perms_ser_items(ps) + seq![COMMA] + (seq![DQUOTE] + esc(x) + seq![DQUOTE])
        },
    decreases ps.len(),
{
    let c = ps + seq![x];
    if ps.len() == 0 {
        assert(c =~= seq![x]);
        assert(c[0] == x);
    } else if ps.len() == 1 {
        assert(c.len() == 2);
        assert(c[0] == ps[0]);
        assert(c.skip(1) =~= seq![x]);
        assert(perms_ser_items(c) == seq![DQUOTE] + esc(ps[0]) + seq![DQUOTE, COMMA]
            + perms_ser_items(seq![x]));
        assert(perms_ser_items(seq![x]) == seq![DQUOTE] + esc(x) + seq![DQUOTE]);
        assert(seq![DQUOTE] + esc(ps[0]) + seq![DQUOTE, COMMA] + (seq![DQUOTE] + esc(x)
            + seq![DQUOTE]) =~= (seq![DQUOTE] + esc(ps[0]) + seq![DQUOTE]) + seq![COMMA] + (
        seq![DQUOTE] + esc(x) + seq![DQUOTE]));
    } else {
        assert(c[0] == ps[0]);
        assert(c.skip(1) =~= ps.skip(1) + seq![x]);
        lemma_perms_ser_snoc(ps.skip(1), x);
        assert(ps.skip(1).len() > 0);
        assert(perms_ser_items(c) == seq![DQUOTE] + esc(ps[0]) + seq![DQUOTE, COMMA] + (
        perms_ser_items(ps.skip(1)) + seq![COMMA] + (seq![DQUOTE] + esc(x) + seq![DQUOTE])));
        assert(seq![DQUOTE] + esc(ps[0]) + seq![DQUOTE, COMMA] + (perms_ser_items(ps.skip(1))
            + seq![COMMA] + (seq![DQUOTE] + esc(x) + seq![DQUOTE])) =~= (seq![DQUOTE] + esc(ps[0])
            + seq![DQUOTE, COMMA] + perms_ser_items(ps.skip(1))) + seq![COMMA] + (seq![DQUOTE]
            + esc(x) + seq![DQUOTE]));
    }
}

/// Parse a possibly-empty array body, starting just after the opening
/// bracket; the closing bracket is consumed.
pub open spec fn parse_perms(b: Seq<u8>) -> Option<(Seq<Seq<u8>>, Seq<u8>)> {
    if b.len() == 0 {
        None
    } else if b[0] == RBRACK {
        Some((Seq::empty(), b.skip(1)))
    } else {
        parse_perms_ne(b)
    }
}

/// Parse a non-empty array body.
pub open spec fn parse_perms_ne(b: Seq<u8>) -> Option<(Seq<Seq<u8>>, Seq<u8>)>
    decreases b.len(),
    via parse_perms_ne_dec
{
    if b.len() == 0 || b[0] != DQUOTE {
        None
    } else {
        match parse_jstr(b.skip(1)) {
            None => None,
            Some((s, r)) => {
                if r.len() == 0 {
                    None
                } else if r[0] == RBRACK {
                    Some((seq![s], r.skip(1)))
                } else if r[0] == COMMA {
                    match parse_perms_ne(r.skip(1)) {
                        Some((ss, r2)) => Some((seq![s] + ss, r2)),
                        None => None,
                    }
                } else {
                    None
                }
            },
        }
    }
}

#[via_fn]
proof fn parse_perms_ne_dec(b: Seq<u8>) {
    if b.len() > 0 && b[0] == DQUOTE {
        lemma_parse_jstr_shrinks(b.skip(1));
    }
}

pub proof fn lemma_parse_perms_ne_round(ps: Seq<Seq<u8>>, rest: Seq<u8>)
    requires
        ps.len() > 0,
    ensures
        parse_perms_ne(perms_ser_items(ps) + seq![RBRACK] + rest) == Some((ps, rest)),
    decreases ps.len(),
{
    let b = perms_ser_items(ps) + seq![RBRACK] + rest;
    if ps.len() == 1 {
        assert(perms_ser_items(ps) == seq![DQUOTE] + esc(ps[0]) + seq![DQUOTE]);
        assert(b[0] == DQUOTE);
        assert(b.skip(1) =~= esc(ps[0]) + seq![DQUOTE] + (seq![RBRACK] + rest));
        lemma_parse_jstr_esc(ps[0], seq![RBRACK] + rest);
        let r = seq![RBRACK] + rest;
        assert(r[0] == RBRACK);
        assert(r.skip(1) =~= rest);
        assert(seq![ps[0]] =~= ps);
    } else {
        assert(perms_ser_items(ps) == seq![DQUOTE] + esc(ps[0]) + seq![DQUOTE, COMMA]
            + perms_ser_items(ps.skip(1)));
        assert(b[0] == DQUOTE);
        let after = seq![COMMA] + (perms_ser_items(ps.skip(1)) + seq![RBRACK] + rest);
        assert(b.skip(1) =~= esc(ps[0]) + seq![DQUOTE] + after);
        lemma_parse_jstr_esc(ps[0], after);
        assert(after[0] == COMMA);
        assert(after.len() > 0);
        assert(after[0] != RBRACK);
        assert(after.skip(1) =~= perms_ser_items(ps.skip(1)) + seq![RBRACK] + rest);
        lemma_parse_perms_ne_round(ps.skip(1), rest);
        assert(seq![ps[0]] + ps.skip(1) =~= ps);
    }
}

pub proof fn lemma_parse_perms_round(ps: Seq<Seq<u8>>, rest: Seq<u8>)
    ensures
        parse_perms(perms_ser_items(ps) + seq![RBRACK] + rest) == Some((ps, rest)),
{
    let b = perms_ser_items(ps) + seq![RBRACK] + rest;
    if ps.len() == 0 {
        assert(b =~= seq![RBRACK] + rest);
        assert(b[0] == RBRACK);
        assert(b.skip(1) =~= rest);
        assert(ps =~= Seq::<Seq<u8>>::empty());
    } else {
        assert(b[0] == DQUOTE);
        assert(b.len() > 0 && b[0] != RBRACK);
        lemma_parse_perms_ne_round(ps, rest);
    }
}

// --- the payload object -----------------------------------------------------

/// `{"subject_id":"`
pub open spec fn lit_open() -> Seq<u8> {
    seq![123u8, 34, 115, 117, 98, 106, 101, 99, 116, 95, 105, 100, 34, 58, 34]
}

/// `,"permissions":[` — what follows the subject string's closing quote.
pub open spec fn lit_perms_mid() -> Seq<u8> {
    seq![44u8, 34, 112, 101, 114, 109, 105, 115, 115, 105, 111, 110, 115, 34, 58, 91]
}

/// `,"exp":` — what follows the array's closing bracket.
pub open spec fn lit_exp_mid() -> Seq<u8> {
    seq![44u8, 34, 101, 120, 112, 34, 58]
}

/// The canonical payload bytes for the given subject, permissions and expiry.
pub open spec fn payload_ser(sub: Seq<u8>, ps: Seq<Seq<u8>>, exp: u64) -> Seq<u8> {
    lit_open() + esc(sub) + seq![DQUOTE] + lit_perms_mid() + perms_ser_items(ps) + seq![RBRACK]
        + lit_exp_mid() + dec_digits(exp as nat) + seq![RBRACE]
}

/// Parse exactly the canonical payload form.
pub open spec fn parse_payload(b: Seq<u8>) -> Option<(Seq<u8>, Seq<Seq<u8>>, u64)> {
    if !lit_open().is_prefix_of(b) {
        None
    } else {
        match parse_jstr(b.skip(15)) {
            None => None,
            Some((sub, r1)) => {
                if !lit_perms_mid().is_prefix_of(r1) {
                    None
                } else {
                    match parse_perms(r1.skip(16)) {
                        None => None,
                        Some((ps, r2)) => {
                            if !lit_exp_mid().is_prefix_of(r2) {
                                None
                            } else {
                                match parse_num(r2.skip(7)) {
                                    None => None,
                                    Some((v, r3)) => {
                                        if r3 == seq![RBRACE] {
                                            Some((sub, ps, v))
                                        } else {
                                            None
                                        }
                                    },
                                }
                            }
                        },
                    }
                }
            },
        }
    }
}

/// Parsing inverts serialization: every payload round-trips exactly.
pub proof fn lemma_parse_payload_round(sub: Seq<u8>, ps: Seq<Seq<u8>>, exp: u64)
    ensures
        parse_payload(payload_ser(sub, ps, exp)) == Some((sub, ps, exp)),
{
    let b = payload_ser(sub, ps, exp);
    let rest1 = lit_perms_mid() + perms_ser_items(ps) + seq![RBRACK] + lit_exp_mid()
        + dec_digits(exp as nat) + seq![RBRACE];
    assert(lit_open().len() == 15);
    assert(b =~= lit_open() + (esc(sub) + seq![DQUOTE] + rest1));
    assert(b.take(15) =~= lit_open());
    assert(lit_open().is_prefix_of(b));
    assert(b.skip(15) =~= esc(sub) + seq![DQUOTE] + rest1);
    lemma_parse_jstr_esc(sub, rest1);
    assert(lit_perms_mid().len() == 16);
    let rest2 = lit_exp_mid() + dec_digits(exp as nat) + seq![RBRACE];
    assert(rest1 =~= lit_perms_mid() + (perms_ser_items(ps) + seq![RBRACK] + rest2));
    assert(rest1.take(16) =~= lit_perms_mid());
    assert(lit_perms_mid().is_prefix_of(rest1));
    assert(rest1.skip(16) =~= perms_ser_items(ps) + seq![RBRACK] + rest2);
    lemma_parse_perms_round(ps, rest2);
    assert(lit_exp_mid().len() == 7);
    assert(rest2.take(7) =~= lit_exp_mid());
    assert(lit_exp_mid().is_prefix_of(rest2));
    assert(rest2.skip(7) =~= dec_digits(exp as nat) + seq![RBRACE]);
    lemma_parse_num_round(exp, seq![RBRACE]);
    assert(seq![RBRACE][0] == RBRACE && !is_digit(RBRACE));
}

// --- executable serializer --------------------------------------------------

fn hex_digit_exec(x: u8) -> (r: u8)
    requires
        x < 16,
    ensures
        r == hex_digit(x),
{
    if x < 10 {
        48 + x
    } else {
        87 + x
    }
}

fn push_esc_byte(out: &mut Vec<u8>, x: u8)
    ensures
        final(out)@ == old(out)@ + esc_byte(x),
{
    if x == DQUOTE {
        out.push(BSLASH);
        out.push(DQUOTE);
        assert(out@ =~= old(out)@ + esc_byte(x));
    } else if x == BSLASH {
        out.push(BSLASH);
        out.push(BSLASH);
        assert(out@ =~= old(out)@ + esc_byte(x));
    } else if x < 32 {
        out.push(BSLASH);
        out.push(117);
        out.push(48);
        out.push(48);
        let h1 = x >> 4;
        let h2 = x & 15;
        assert((x >> 4) < 16 && (x & 15) < 16) by (bit_vector);
        out.push(hex_digit_exec(h1));
        out.push(hex_digit_exec(h2));
        assert(out@ =~= old(out)@ + esc_byte(x));
    } else {
        out.push(x);
        assert(out@ =~= old(out)@ + esc_byte(x));
    }
}

fn append_escaped(out: &mut Vec<u8>, s: &Vec<u8>)
    ensures
        final(out)@ == old(out)@ + esc(s@),
{
    proof {
        assert(s@.take(0) =~= Seq::<u8>::empty());
        assert(old(out)@ + esc(s@.take(0)) =~= old(out)@);
    }
    let mut i: usize = 0;
    while i < s.len()
        invariant
            i <= s.len(),
            out@ == old(out)@ + esc(s@.take(i as int)),
        decreases s.len() - i,
    {
        push_esc_byte(out, s[i]);
        proof {
            assert(s@.take(i + 1) =~= s@.take(i as int) + seq![s@[i as int]]);
            lemma_esc_snoc(s@.take(i as int), s@[i as int]);
            assert(old(out)@ + esc(s@.take(i as int)) + esc_byte(s@[i as int]) =~= old(out)@ + esc(
                s@.take(i + 1),
            ));
        }
        i = i + 1;
    }
    assert(s@.take(s.len() as int) =~= s@);
}

fn push_digits(out: &mut Vec<u8>, n: u64)
    ensures
        final(out)@ == old(out)@ + dec_digits(n as nat),
    decreases n,
{
    if n < 10 {
        out.push(48 + (n as u8));
        assert(out@ =~= old(out)@ + dec_digits(n as nat));
    } else {
        push_digits(out, n / 10);
        assert((n / 10) as nat == (n as nat) / 10);
        out.push(48 + ((n % 10) as u8));
        assert((n % 10) as nat == (n as nat) % 10);
        assert(out@ =~= old(out)@ + dec_digits(n as nat));
    }
}

fn lit_open_vec() -> (r: Vec<u8>)
    ensures
        r@ == lit_open(),
{
    let v: Vec<u8> = vec![123u8, 34, 115, 117, 98, 106, 101, 99, 116, 95, 105, 100, 34, 58, 34];
    assert(v@ =~= lit_open());
    v
}

fn lit_perms_mid_vec() -> (r: Vec<u8>)
    ensures
        r@ == lit_perms_mid(),
{
    let v: Vec<u8> = vec![44u8, 34, 112, 101, 114, 109, 105, 115, 115, 105, 111, 110, 115, 34, 58, 91];
    assert(v@ =~= lit_perms_mid());
    v
}

fn lit_exp_mid_vec() -> (r: Vec<u8>)
    ensures
        r@ == lit_exp_mid(),
{
    let v: Vec<u8> = vec![44u8, 34, 101, 120, 112, 34, 58];
    assert(v@ =~= lit_exp_mid());
    v
}

/// Serialize a payload into its canonical wire bytes.
pub fn ser_payload(sub: &Vec<u8>, perms: &Vec<Vec<u8>>, exp: u64) -> (r: Vec<u8>)
    ensures
        r@ == payload_ser(sub@, perms.deep_view(), exp),
{
    let ghost pv = perms.deep_view();
    proof {
        assert(pv.len() == perms@.len());
        assert(forall|j: int| 0 <= j < pv.len() ==> pv[j] == #[trigger] perms@[j]@);
    }
    let mut out = lit_open_vec();
    append_escaped(&mut out, sub);
    out.push(DQUOTE);
    let mut mid = lit_perms_mid_vec();
    out.append(&mut mid);
    let ghost head = lit_open() + esc(sub@) + seq![DQUOTE] + lit_perms_mid();
    proof {
        assert(out@ =~= head + perms_ser_items(pv.take(0)));
    }
    let mut i: usize = 0;
    while i < perms.len()
        invariant
            i <= perms.len(),
            out@ == head + perms_ser_items(pv.take(i as int)),
            pv == perms.deep_view(),
            pv.len() == perms@.len(),
            forall|j: int| 0 <= j < pv.len() ==> pv[j] == #[trigger] perms@[j]@,
            head == lit_open() + esc(sub@) + seq![DQUOTE] + lit_perms_mid(),
        decreases perms.len() - i,
    {
        let ghost before = out@;
        if i > 0 {
            out.push(COMMA);
        }
        out.push(DQUOTE);
        append_escaped(&mut out, &perms[i]);
        out.push(DQUOTE);
        proof {
            let item = seq![DQUOTE] + esc(pv[i as int]) + seq![DQUOTE];
            if i > 0 {
                assert(out@ =~= before + seq![COMMA] + item);
            } else {
                assert(out@ =~= before + item);
            }
            assert(pv.take(i + 1) =~= pv.take(i as int) + seq![pv[i as int]]);
            lemma_perms_ser_snoc(pv.take(i as int), pv[i as int]);
            if i > 0 {
                assert(head + (perms_ser_items(pv.take(i as int)) + seq![COMMA] + item) =~= (head
                    + perms_ser_items(pv.take(i as int))) + seq![COMMA] + item);
            } else {
                assert(pv.take(0).len() == 0);
                assert(head + item =~= (head + perms_ser_items(pv.take(0))) + item);
            }
            assert(out@ =~= head + perms_ser_items(pv.take(i + 1)));
        }
        i = i + 1;
    }
    proof {
        assert(pv.take(perms.len() as int) =~= pv);
    }
    out.push(RBRACK);
    let mut e = lit_exp_mid_vec();
    out.append(&mut e);
    push_digits(&mut out, exp);
    out.push(RBRACE);
    assert(out@ =~= payload_ser(sub@, pv, exp));
    out
}


// --- executable parser ------------------------------------------------------

fn is_hex_lc_exec(c: u8) -> (r: bool)
    ensures
        r == is_hex_lc(c),
{
    (48 <= c && c <= 57) || (97 <= c && c <= 102)
}

fn hex_val_exec(c: u8) -> (r: u8)
    requires
        is_hex_lc(c),
    ensures
        r == hex_val(c),
        r < 16,
{
    if c < 58 {
        c - 48
    } else {
        c - 87
    }
}

fn parse_jstr_exec(b: &Vec<u8>, i: usize) -> (r: Option<(Vec<u8>, usize)>)
    requires
        i <= b.len(),
    ensures
        match r {
            Some(p) => i < p.1 <= b.len() && parse_jstr(b@.skip(i as int)) == Some(
                (p.0@, b@.skip(p.1 as int)),
            ),
            None => parse_jstr(b@.skip(i as int)) is None,
        },
    decreases b.len() - i,
{
    let ghost s = b@.skip(i as int);
    if i == b.len() {
        assert(s.len() == 0);
        return None;
    }
    let c = b[i];
    assert(s[0] == c);
    if c == DQUOTE {
        assert(s.skip(1) =~= b@.skip(i + 1));
        Some((Vec::new(), i + 1))
    } else if c == BSLASH {
        if b.len() - i >= 2 && (b[i + 1] == DQUOTE || b[i + 1] == BSLASH) {
            let e = b[i + 1];
            assert(s.len() >= 2 && s[1] == e);
            match parse_jstr_exec(b, i + 2) {
                Some(p) => {
                    let (tail, j) = p;
                    let ghost tv = tail@;
                    let mut v = tail;
                    v.insert(0, e);
                    proof {
                        assert(s.skip(2) =~= b@.skip(i + 2));
                        assert(v@ =~= seq![s[1]] + tv);
                    }
                    Some((v, j))
                },
                None => {
                    assert(s.skip(2) =~= b@.skip(i + 2));
                    None
                },
            }
        } else if b.len() - i >= 6 && b[i + 1] == 117 && b[i + 2] == 48 && b[i + 3] == 48
            && is_hex_lc_exec(b[i + 4]) && is_hex_lc_exec(b[i + 5]) {
            assert(s.len() >= 6 && s[1] == b@[i + 1] && s[2] == b@[i + 2] && s[3] == b@[i + 3]
                && s[4] == b@[i + 4] && s[5] == b@[i + 5]);
            let v1 = hex_val_exec(b[i + 4]);
            let v2 = hex_val_exec(b[i + 5]);
            let val = v1 * 16 + v2;
            if val < 32 {
                match parse_jstr_exec(b, i + 6) {
                    Some(p) => {
                        let (tail, j) = p;
                        let ghost tv = tail@;
                        let mut v = tail;
                        v.insert(0, val);
                        proof {
                            assert(s.skip(6) =~= b@.skip(i + 6));
                            assert(v@ =~= seq![val] + tv);
                        }
                        Some((v, j))
                    },
                    None => {
                        assert(s.skip(6) =~= b@.skip(i + 6));
                        None
                    },
                }
            } else {
                None
            }
        } else {
            assert(s.len() >= 2 ==> s[1] == b@[i + 1]);
            if b.len() - i >= 6 {
                assert(s.len() >= 6 && s[4] == b@[i + 4] && s[5] == b@[i + 5]);
            } else {
                assert(s.len() < 6);
            }
            None
        }
    } else if c < 32 {
        None
    } else {
        match parse_jstr_exec(b, i + 1) {
            Some(p) => {
                let (tail, j) = p;
                let ghost tv = tail@;
                let mut v = tail;
                v.insert(0, c);
                proof {
                    assert(s.skip(1) =~= b@.skip(i + 1));
                    assert(v@ =~= seq![s[0]] + tv);
                }
                Some((v, j))
            },
            None => {
                assert(s.skip(1) =~= b@.skip(i + 1));
                None
            },
        }
    }
}

fn parse_perms_ne_exec(b: &Vec<u8>, i: usize) -> (r: Option<(Vec<Vec<u8>>, usize)>)
    requires
        i <= b.len(),
    ensures
        match r {
            Some(p) => i < p.1 <= b.len() && parse_perms_ne(b@.skip(i as int)) == Some(
                (p.0.deep_view(), b@.skip(p.1 as int)),
            ),
            None => parse_perms_ne(b@.skip(i as int)) is None,
        },
    decreases b.len() - i,
{
    let ghost s = b@.skip(i as int);
    if i == b.len() {
        assert(s.len() == 0);
        return None;
    }
    if b[i] != DQUOTE {
        assert(s[0] == b@[i as int]);
        return None;
    }
    assert(s[0] == DQUOTE);
    assert(s.skip(1) =~= b@.skip(i + 1));
    match parse_jstr_exec(b, i + 1) {
        None => None,
        Some(p) => {
            let (item, j) = p;
            let ghost r1 = b@.skip(j as int);
            if j == b.len() {
                assert(r1.len() == 0);
                return None;
            }
            let d = b[j];
            assert(r1[0] == d);
            if d == RBRACK {
                let ghost iv = item@;
                let mut out: Vec<Vec<u8>> = Vec::new();
                out.push(item);
                proof {
                    assert(r1.skip(1) =~= b@.skip(j + 1));
                    assert(out.deep_view() =~= seq![iv]) by {
                        assert(out@.len() == 1 && out@[0] == item);
                        assert(out.deep_view()[0] == item.deep_view());
                        assert(item.deep_view() =~= iv);
                    }
                }
                Some((out, j + 1))
            } else if d == COMMA {
                assert(r1.skip(1) =~= b@.skip(j + 1));
                match parse_perms_ne_exec(b, j + 1) {
                    None => None,
                    Some(q) => {
                        let (rest, k) = q;
                        let ghost rv = rest.deep_view();
                        let ghost iv = item@;
                        let mut out = rest;
                        out.insert(0, item);
                        proof {
                            assert(out.deep_view() =~= seq![iv] + rv) by {
                                assert(out.deep_view().len() == 1 + rv.len());
                                assert forall|t: int| 0 <= t < out.deep_view().len() implies
                                    out.deep_view()[t] == (seq![iv] + rv)[t] by {
                                    if t == 0 {
                                        assert(out@[0] == item);
                                        assert(out.deep_view()[0] == item.deep_view());
                                        assert(item.deep_view() =~= iv);
                                    } else {
                                        assert(out@[t] == rest@[t - 1]);
                                        assert(out.deep_view()[t] == rest@[t - 1].deep_view());
                                        assert(rest.deep_view()[t - 1] == rest@[t - 1].deep_view());
                                    }
                                }
                            }
                        }
                        Some((out, k))
                    },
                }
            } else {
                None
            }
        },
    }
}

fn parse_perms_exec(b: &Vec<u8>, i: usize) -> (r: Option<(Vec<Vec<u8>>, usize)>)
    requires
        i <= b.len(),
    ensures
        match r {
            Some(p) => i < p.1 <= b.len() && parse_perms(b@.skip(i as int)) == Some(
                (p.0.deep_view(), b@.skip(p.1 as int)),
            ),
            None => parse_perms(b@.skip(i as int)) is None,
        },
{
    let ghost s = b@.skip(i as int);
    if i == b.len() {
        assert(s.len() == 0);
        return None;
    }
    assert(s[0] == b@[i as int]);
    if b[i] == RBRACK {
        let out: Vec<Vec<u8>> = Vec::new();
        proof {
            assert(s.skip(1) =~= b@.skip(i + 1));
            assert(out.deep_view() =~= Seq::<Seq<u8>>::empty()) by {
                assert(out.deep_view().len() == 0);
            }
        }
        Some((out, i + 1))
    } else {
        parse_perms_ne_exec(b, i)
    }
}

fn parse_num_exec(b: &Vec<u8>, i: usize) -> (r: Option<(u64, usize)>)
    requires
        i <= b.len(),
    ensures
        match r {
            Some(p) => i < p.1 <= b.len() && parse_num(b@.skip(i as int)) == Some(
                (p.0, b@.skip(p.1 as int)),
            ),
            None => parse_num(b@.skip(i as int)) is None,
        },
{
    let ghost s = b@.skip(i as int);
    let mut k = i;
    while k < b.len() && 48 <= b[k] && b[k] <= 57
        invariant
            i <= k <= b.len(),
            forall|j: int| i <= j < k ==> is_digit(#[trigger] b@[j]),
            i <= b.len(),
        decreases b.len() - k,
    {
        k = k + 1;
    }
    proof {
        assert forall|j: int| 0 <= j < k - i implies is_digit(#[trigger] s[j]) by {
            assert(s[j] == b@[i + j]);
        }
        if k < b.len() {
            assert(s[k - i] == b@[k as int]);
        }
        lemma_digit_prefix_len_char(s, k - i);
    }
    if k == i {
        return None;
    }
    assert(s[0] == b@[i as int]);
    if b[i] == 48 && k > i + 1 {
        return None;
    }
    let ghost n = (k - i) as int;
    let mut acc: u64 = 0;
    let mut j = i;
    proof {
        assert(s.take(0) =~= Seq::<u8>::empty());
    }
    while j < k
        invariant
            i <= j <= k <= b.len(),
            acc as nat == digits_val(s.take(j - i)),
            forall|t: int| i <= t < k ==> is_digit(#[trigger] b@[t]),
            s == b@.skip(i as int),
            n == k - i,
            i < k,
            digit_prefix_len(s) == n,
            !(s[0] == 48 && n > 1),
        decreases k - j,
    {
        let d = b[j] - 48;
        let ghost before = s.take(j - i);
        proof {
            assert(s[j - i] == b@[j as int]);
            assert(s.take(j - i + 1) =~= before + seq![s[j - i]]);
            lemma_digits_val_snoc(before, b@[j as int]);
        }
        match acc.checked_mul(10) {
            Some(m) => {
                match m.checked_add(d as u64) {
                    Some(a2) => {
                        acc = a2;
                    },
                    None => {
                        proof {
                            assert(digits_val(s.take(j - i + 1)) > u64::MAX);
                            assert(s.take(n).take(j - i + 1) =~= s.take(j - i + 1));
                            lemma_digits_val_prefix_le(s.take(n), j - i + 1);
                        }
                        return None;
                    },
                }
            },
            None => {
                proof {
                    assert(digits_val(s.take(j - i + 1)) > u64::MAX);
                    assert(s.take(n).take(j - i + 1) =~= s.take(j - i + 1));
                    lemma_digits_val_prefix_le(s.take(n), j - i + 1);
                }
                return None;
            },
        }
        j = j + 1;
    }
    proof {
        assert(b@.skip(k as int) =~= s.skip(n));
    }
    Some((acc, k))
}

pub(crate) fn has_lit_at(b: &Vec<u8>, i: usize, lit: &Vec<u8>) -> (r: bool)
    requires
        i <= b.len(),
    ensures
        r == lit@.is_prefix_of(b@.skip(i as int)),
{
    let ghost s = b@.skip(i as int);
    if b.len() - i < lit.len() {
        assert(s.len() < lit@.len());
        return false;
    }
    let mut j: usize = 0;
    while j < lit.len()
        invariant
            0 <= j <= lit.len(),
            i <= b.len(),
            lit.len() <= b.len() - i,
            s == b@.skip(i as int),
            forall|t: int| 0 <= t < j ==> b@[i + t] == #[trigger] lit@[t],
        decreases lit.len() - j,
    {
        if b[i + j] != lit[j] {
            proof {
                assert(s[j as int] == b@[i + j]);
                assert(s.subrange(0, lit@.len() as int)[j as int] != lit@[j as int]);
            }
            return false;
        }
        j = j + 1;
    }
    proof {
        assert(lit@ =~= s.subrange(0, lit@.len() as int)) by {
            assert forall|t: int| 0 <= t < lit@.len() implies s.subrange(0, lit@.len() as int)[t]
                == lit@[t] by {
                assert(s[t] == b@[i + t]);
            }
        }
    }
    true
}

/// Parse canonical payload bytes back into subject, permissions and expiry.
#[verifier::rlimit(100)]
pub fn parse_payload_exec(b: &Vec<u8>) -> (r: Option<(Vec<u8>, Vec<Vec<u8>>, u64)>)
    ensures
        match r {
            Some(p) => parse_payload(b@) == Some((p.0@, p.1.deep_view(), p.2)),
            None => parse_payload(b@) is None,
        },
{
    let lit1 = lit_open_vec();
    assert(b@.skip(0) =~= b@);
    if !has_lit_at(b, 0, &lit1) {
        return None;
    }
    assert(lit1@.len() == 15);
    assert(b@.len() >= 15);
    match parse_jstr_exec(b, 15) {
        None => None,
        Some(p) => {
            let (sub, j) = p;
            let ghost r1 = b@.skip(j as int);
            let lit2 = lit_perms_mid_vec();
            if !has_lit_at(b, j, &lit2) {
                return None;
            }
            assert(lit2@.len() == 16);
            assert(r1.len() >= 16);
            assert(r1.skip(16) =~= b@.skip(j + 16));
            match parse_perms_exec(b, j + 16) {
                None => None,
                Some(q) => {
                    let (ps, k) = q;
                    let ghost r2 = b@.skip(k as int);
                    let lit3 = lit_exp_mid_vec();
                    if !has_lit_at(b, k, &lit3) {
                        return None;
                    }
                    assert(lit3@.len() == 7);
                    assert(r2.len() >= 7);
                    assert(r2.skip(7) =~= b@.skip(k + 7));
                    match parse_num_exec(b, k + 7) {
                        None => None,
                        Some(w) => {
                            let (v, m) = w;
                            let ghost r3 = b@.skip(m as int);
                            if m < b.len() && b.len() - m == 1 && b[m] == RBRACE {
                                proof {
                                    assert(r3 =~= seq![RBRACE]);
                                }
                                Some((sub, ps, v))
                            } else {
                                proof {
                                    if m < b.len() && b@.len() - m == 1 {
                                        assert(r3[0] == b@[m as int]);
                                        assert(r3 != seq![RBRACE]);
                                    } else {
                                        assert(r3.len() != 1);
                                        assert(seq![RBRACE].len() == 1);
                                        assert(r3 != seq![RBRACE]);
                                    }
                                }
                                None
                            }
                        },
                    }
                },
            }
        },
    }
}

} // verus!\n