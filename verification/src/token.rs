//! Token service: issues and validates signed, time-limited identity
//! tokens from a server-held secret.
//!
//! A token is the text `<subject>.<expiry>.<signature>`: the subject and
//! expiry in decimal, and the HMAC-SHA256 signature (as produced by the
//! `jsonwebtoken` crate) of everything before the second dot.

use vstd::prelude::*;
use vstd::string::*;

verus! {

/// How long an issued token stays valid, in seconds.
pub const TOKEN_LIFETIME_SECS: u64 = 86400;

/// Decimal digits.
pub open spec fn is_digit(c: char) -> bool {
    48 <= (c as u32) && (c as u32) <= 57
}

/// The numeric value of a decimal digit.
pub open spec fn digit_val(c: char) -> nat {
    ((c as u32) - 48) as nat
}

/// The decimal digit for a value below ten.
pub open spec fn digit_char(d: nat) -> char {
    if d == 0 { '0' }
    else if d == 1 { '1' }
    else if d == 2 { '2' }
    else if d == 3 { '3' }
    else if d == 4 { '4' }
    else if d == 5 { '5' }
    else if d == 6 { '6' }
    else if d == 7 { '7' }
    else if d == 8 { '8' }
    else { '9' }
}

/// The decimal rendering of a natural number, most significant digit first.
pub open spec fn dec_digits(n: nat) -> Seq<char>
    decreases n,
{
    if n < 10 {
        seq![digit_char(n)]
    } else {
        dec_digits(n / 10).push(digit_char(n % 10))
    }
}

/// The value of a sequence of decimal digits.
pub open spec fn dec_val(s: Seq<char>) -> nat
    decreases s.len(),
{
    if s.len() == 0 {
        0
    } else {
        dec_val(s.drop_last()) * 10 + digit_val(s.last())
    }
}

pub open spec fn all_digits(s: Seq<char>) -> bool {
    forall|i: int| 0 <= i < s.len() ==> is_digit(#[trigger] s[i])
}

/// Ten to the `k`.
pub open spec fn pow10(k: nat) -> nat
    decreases k,
{
    if k == 0 { 1 } else { 10 * pow10((k - 1) as nat) }
}

/// A digit character reads back as its value, and is never a dot.
pub proof fn lemma_digit_char_val(d: nat)
    requires
        d < 10,
    ensures
        is_digit(digit_char(d)),
        digit_val(digit_char(d)) == d,
        digit_char(d) != '.',
{
}

/// The decimal rendering of `n` is made of digits and reads back as `n`.
pub proof fn lemma_dec_digits_val(n: nat)
    ensures
        all_digits(dec_digits(n)),
        dec_val(dec_digits(n)) == n,
        dec_digits(n).len() >= 1,
    decreases n,
{
    if n < 10 {
        lemma_digit_char_val(n);
        let s = dec_digits(n);
        assert(s.drop_last() =~= Seq::<char>::empty());
        assert(dec_val(Seq::<char>::empty()) == 0);
        assert(s.last() == digit_char(n));
        assert(dec_val(s) == dec_val(s.drop_last()) * 10 + digit_val(s.last()));
    } else {
        lemma_dec_digits_val(n / 10);
        lemma_digit_char_val(n % 10);
        let s = dec_digits(n);
        assert(s.drop_last() =~= dec_digits(n / 10));
        assert(forall|i: int|
            0 <= i < s.len() ==> is_digit(#[trigger] s[i]) == if i < s.len() - 1 {
                is_digit(dec_digits(n / 10)[i])
            } else {
                is_digit(digit_char(n % 10))
            });
    }
}

/// A number below `pow10(k)` renders in at most `k` digits.
pub proof fn lemma_dec_digits_len(n: nat, k: nat)
    requires
        1 <= k,
        n < pow10(k),
    ensures
        dec_digits(n).len() <= k,
    decreases n,
{
    if n < 10 {
    } else {
        assert(k >= 2) by {
            reveal_with_fuel(pow10, 3);
        };
        assert(n / 10 < pow10((k - 1) as nat)) by {
            assert(pow10(k) == 10 * pow10((k - 1) as nat));
        };
        lemma_dec_digits_len(n / 10, (k - 1) as nat);
    }
}

/// A sequence of `k` digits has a value below `pow10(k)`.
pub proof fn lemma_dec_val_bound(s: Seq<char>)
    requires
        all_digits(s),
    ensures
        dec_val(s) < pow10(s.len()),
    decreases s.len(),
{
    if s.len() == 0 {
    } else {
        lemma_dec_val_bound(s.drop_last());
        assert(is_digit(s.last()));
        assert(digit_val(s.last()) <= 9);
        assert(pow10(s.len()) == 10 * pow10((s.len() - 1) as nat));
    }
}

/// The single-character string for a decimal digit.
fn digit_str(d: u64) -> (r: &'static str)
    requires
        d < 10,
    ensures
        r@.len() == 1,
        r@[0] == digit_char(d as nat),
{
    proof {
        reveal_strlit("0");
        reveal_strlit("1");
        reveal_strlit("2");
        reveal_strlit("3");
        reveal_strlit("4");
        reveal_strlit("5");
        reveal_strlit("6");
        reveal_strlit("7");
        reveal_strlit("8");
        reveal_strlit("9");
    }
    if d == 0 { "0" }
    else if d == 1 { "1" }
    else if d == 2 { "2" }
    else if d == 3 { "3" }
    else if d == 4 { "4" }
    else if d == 5 { "5" }
    else if d == 6 { "6" }
    else if d == 7 { "7" }
    else if d == 8 { "8" }
    else { "9" }
}

/// Renders a number in decimal.
pub fn u64_to_dec_string(n: u64) -> (r: String)
    ensures
        r@ == dec_digits(n as nat),
    decreases n,
{
    if n < 10 {
        let s = String::from_str(digit_str(n));
        proof {
            assert(s@ =~= dec_digits(n as nat));
        }
        s
    } else {
        let mut s = u64_to_dec_string(n / 10);
        s.append(digit_str(n % 10));
        proof {
            assert(s@ =~= dec_digits(n as nat));
        }
        s
    }
}

/// What a well-formed decimal field of a token parses to: non-empty, at
/// most nineteen digits (so the value always fits the machine word), all
/// decimal.
pub open spec fn parse_dec(s: Seq<char>) -> Option<u64> {
    if 1 <= s.len() <= 19 && all_digits(s) {
        Some(dec_val(s) as u64)
    } else {
        None
    }
}

/// Parses a decimal field of a token.
pub fn parse_u64(s: &str) -> (r: Option<u64>)
    ensures
        r == parse_dec(s@),
{
    let len = s.unicode_len();
    if len == 0 || len > 19 {
        return None;
    }
    let mut i: usize = 0;
    let mut acc: u64 = 0;
    while i < len
        invariant
            i <= len,
            len == s@.len(),
            1 <= len <= 19,
            all_digits(s@.take(i as int)),
            acc == dec_val(s@.take(i as int)),
        decreases len - i,
    {
        let c = s.get_char(i);
        let cv = c as u32;
        if cv < 48 || cv > 57 {
            proof {
                assert(!is_digit(s@[i as int]));
                assert(!all_digits(s@));
            }
            return None;
        }
        proof {
            lemma_dec_val_bound(s@.take(i as int));
            lemma_pow10_19();
            lemma_pow10_mono(i as nat, 18);
            assert(acc < pow10(18));
        }
        let d = (cv - 48) as u64;
        acc = acc * 10 + d;
        i = i + 1;
        proof {
            assert(s@.take(i as int).drop_last() =~= s@.take(i - 1));
            assert(s@.take(i as int).last() == s@[i - 1]);
        }
    }
    proof {
        assert(s@.take(len as int) =~= s@);
    }
    Some(acc)
}

/// `pow10` is monotone in its exponent.
pub proof fn lemma_pow10_mono(a: nat, b: nat)
    requires
        a <= b,
    ensures
        pow10(a) <= pow10(b),
    decreases b,
{
    if a < b {
        lemma_pow10_mono(a, (b - 1) as nat);
        assert(pow10(b) == 10 * pow10((b - 1) as nat));
    }
}

/// Concrete bounds of `pow10` used for overflow arguments.
pub proof fn lemma_pow10_19()
    ensures
        pow10(18) == 1_000_000_000_000_000_000,
        pow10(19) == 10_000_000_000_000_000_000,
{
    reveal_with_fuel(pow10, 21);
}

/// The HMAC-SHA256 signature text that the `jsonwebtoken` crate computes
/// for a message under a secret: the base64url rendering, without
/// padding, of the message's MAC. A pure function of secret and message.
pub uninterp spec fn hs256_sig(secret: Seq<u8>, msg: Seq<char>) -> Seq<char>;

/// Relies on `jsonwebtoken::crypto::sign` with `Algorithm::HS256` and a
/// key built by `EncodingKey::from_secret`: on success the returned text
/// is the base64url-encoded HMAC-SHA256 of the message bytes, a function
/// of secret and message alone.
#[verifier::external_body]
fn sign_hs256(secret: &[u8], msg: &str) -> (r: Option<String>)
    ensures
        r matches Some(s) ==> s@ == hs256_sig(secret@, msg@),
{
    jsonwebtoken::crypto::sign(
        msg.as_bytes(),
        &jsonwebtoken::EncodingKey::from_secret(secret),
        jsonwebtoken::Algorithm::HS256,
    ).ok()
}

/// Relies on `jsonwebtoken::crypto::verify` with `Algorithm::HS256` and a
/// key built by `DecodingKey::from_secret`: it reports a match exactly
/// when the signature text base64url-decodes to the message's recomputed
/// MAC. The decoder rejects padding and non-canonical trailing bits, so a
/// match means the text equals the canonical signature; decode errors are
/// mapped to "no match".
#[verifier::external_body]
fn verify_hs256(secret: &[u8], msg: &str, sig: &str) -> (r: bool)
    ensures
        r == (sig@ == hs256_sig(secret@, msg@)),
{
    jsonwebtoken::crypto::verify(
        sig,
        msg.as_bytes(),
        &jsonwebtoken::DecodingKey::from_secret(secret),
        jsonwebtoken::Algorithm::HS256,
    ).unwrap_or(false)
}

/// The position of the first `.` at or after `from`, or the length of the
/// text when there is none.
pub open spec fn first_dot(s: Seq<char>, from: int) -> int
    decreases s.len() - from
    when 0 <= from <= s.len()
{
    if from >= s.len() {
        s.len() as int
    } else if s[from] == '.' {
        from
    } else {
        first_dot(s, from + 1)
    }
}

/// Characterizes `first_dot`: a dot-free stretch followed by a dot or the
/// end pins the position down.
pub proof fn lemma_first_dot_at(s: Seq<char>, from: int, j: int)
    requires
        0 <= from <= j <= s.len(),
        forall|k: int| from <= k < j ==> s[k] != '.',
        j < s.len() ==> s[j] == '.',
    ensures
        first_dot(s, from) == j,
    decreases j - from,
{
    if from < j {
        lemma_first_dot_at(s, from + 1, j);
    }
}

/// Finds the first `.` at or after `from`.
pub fn find_dot(s: &str, from: usize) -> (r: Option<usize>)
    requires
        from <= s@.len(),
    ensures
        match r {
            Some(j) => from <= j < s@.len() && first_dot(s@, from as int) == j,
            None => first_dot(s@, from as int) == s@.len(),
        },
{
    let len = s.unicode_len();
    let mut i = from;
    while i < len
        invariant
            from <= i <= len,
            len == s@.len(),
            forall|k: int| from <= k < i ==> s@[k] != '.',
        decreases len - i,
    {
        if s.get_char(i) == '.' {
            proof {
                lemma_first_dot_at(s@, from as int, i as int);
            }
            return Some(i);
        }
        i = i + 1;
    }
    proof {
        lemma_first_dot_at(s@, from as int, s@.len() as int);
    }
    None
}

/// The signed part of a token: subject and expiry in decimal, separated
/// by a dot.
pub open spec fn token_payload(sub: u64, exp: u64) -> Seq<char> {
    dec_digits(sub as nat) + seq!['.'] + dec_digits(exp as nat)
}

/// The full token text for a subject and expiry under a secret.
pub open spec fn token_chars(secret: Seq<u8>, sub: u64, exp: u64) -> Seq<char> {
    token_payload(sub, exp) + seq!['.'] + hs256_sig(secret, token_payload(sub, exp))
}

/// What validation decides for a token text: the claims when the text
/// splits at its first two dots into a well-formed subject that fits an
/// id, a well-formed expiry still in the future, and the signature of
/// everything before the second dot; nothing otherwise.
pub open spec fn spec_validate(secret: Seq<u8>, t: Seq<char>, now: u64) -> Option<
    crate::auth::Claims,
> {
    let i = first_dot(t, 0);
    if i >= t.len() {
        None
    } else {
        let j = first_dot(t, i + 1);
        if j >= t.len() {
            None
        } else {
            let sub_part = t.subrange(0, i);
            let exp_part = t.subrange(i + 1, j);
            let msg = t.subrange(0, j);
            let sig = t.subrange(j + 1, t.len() as int);
            match (parse_dec(sub_part), parse_dec(exp_part)) {
                (Some(sub), Some(exp)) => if sig == hs256_sig(secret, msg) && sub
                    <= i64::MAX as u64 && now < exp {
                    Some(crate::auth::Claims { sub: sub as i64, exp })
                } else {
                    None
                },
                _ => None,
            }
        }
    }
}

/// A freshly issued token splits back into its parts: the first two dots
/// of the token text are the two separators of the payload, because the
/// decimal fields hold no dot.
proof fn lemma_token_shape(secret: Seq<u8>, sub: u64, exp: u64)
    requires
        sub < pow10(19),
        exp < pow10(19),
    ensures
        ({
            let ds = dec_digits(sub as nat);
            let de = dec_digits(exp as nat);
            let t = token_payload(sub, exp) + seq!['.'] + hs256_sig(
                secret,
                token_payload(sub, exp),
            );
            &&& first_dot(t, 0) == ds.len()
            &&& first_dot(t, ds.len() as int + 1) == ds.len() + 1 + de.len()
            &&& t.subrange(0, ds.len() as int) == ds
            &&& t.subrange(ds.len() as int + 1, ds.len() + 1 + de.len() as int) == de
            &&& t.subrange(0, ds.len() + 1 + de.len() as int) == token_payload(sub, exp)
            &&& t.subrange(ds.len() + 1 + de.len() + 1 as int, t.len() as int) == hs256_sig(
                secret,
                token_payload(sub, exp),
            )
        }),
{
    lemma_dec_digits_val(sub as nat);
    lemma_dec_digits_val(exp as nat);
    let ds = dec_digits(sub as nat);
    let de = dec_digits(exp as nat);
    let payload = token_payload(sub, exp);
    let sig = hs256_sig(secret, payload);
    let t = payload + seq!['.'] + sig;
    assert(forall|k: int| 0 <= k < ds.len() ==> t[k] == ds[k]);
    assert(forall|k: int| 0 <= k < ds.len() ==> #[trigger] t[k] != '.') by {
        assert(forall|k: int| 0 <= k < ds.len() ==> is_digit(#[trigger] ds[k]));
    };
    let dl = ds.len() as int;
    let el = de.len() as int;
    assert(t[dl] == '.');
    lemma_first_dot_at(t, 0, dl);
    assert(forall|k: int| dl + 1 <= k < dl + 1 + el ==> t[k] == de[k - dl - 1]);
    assert(forall|k: int| dl + 1 <= k < dl + 1 + el ==> #[trigger] t[k] != '.') by {
        assert(forall|k: int| 0 <= k < de.len() ==> is_digit(#[trigger] de[k]));
    };
    assert(t[dl + 1 + el] == '.');
    lemma_first_dot_at(t, dl + 1, dl + 1 + el);
    assert(t.subrange(0, dl) =~= ds);
    assert(t.subrange(dl + 1, dl + 1 + el) =~= de);
    assert(t.subrange(0, dl + 1 + el) =~= payload);
    assert(t.subrange(dl + 1 + el + 1, t.len() as int) =~= sig);
}

/// Token round trip: validating a freshly issued token yields exactly the
/// claims it was issued for, as long as the token has not yet expired.
pub proof fn lemma_token_roundtrip(secret: Seq<u8>, sub: u64, exp: u64, now: u64)
    requires
        sub <= i64::MAX as u64,
        exp < pow10(19),
        now < exp,
    ensures
        spec_validate(secret, token_chars(secret, sub, exp), now) == Some(
            crate::auth::Claims { sub: sub as i64, exp },
        ),
{
    lemma_pow10_19();
    lemma_token_shape(secret, sub, exp);
    lemma_dec_digits_val(sub as nat);
    lemma_dec_digits_val(exp as nat);
    lemma_dec_digits_len(sub as nat, 19);
    lemma_dec_digits_len(exp as nat, 19);
}

/// A token whose signature part is not the signature of its payload is
/// always rejected, whatever the current time.
pub proof fn lemma_tampered_token_rejected(
    secret: Seq<u8>,
    sub: u64,
    exp: u64,
    sig: Seq<char>,
    now: u64,
)
    requires
        sub < pow10(19),
        exp < pow10(19),
        sig != hs256_sig(secret, token_payload(sub, exp)),
    ensures
        spec_validate(secret, token_payload(sub, exp) + seq!['.'] + sig, now) is None,
{
    lemma_dec_digits_val(sub as nat);
    lemma_dec_digits_val(exp as nat);
    let ds = dec_digits(sub as nat);
    let de = dec_digits(exp as nat);
    let payload = token_payload(sub, exp);
    let t = payload + seq!['.'] + sig;
    assert(forall|k: int| 0 <= k < ds.len() ==> t[k] == ds[k]);
    assert(forall|k: int| 0 <= k < ds.len() ==> #[trigger] t[k] != '.') by {
        assert(forall|k: int| 0 <= k < ds.len() ==> is_digit(#[trigger] ds[k]));
    };
    let dl = ds.len() as int;
    let el = de.len() as int;
    assert(t[dl] == '.');
    lemma_first_dot_at(t, 0, dl);
    assert(forall|k: int| dl + 1 <= k < dl + 1 + el ==> t[k] == de[k - dl - 1]);
    assert(forall|k: int| dl + 1 <= k < dl + 1 + el ==> #[trigger] t[k] != '.') by {
        assert(forall|k: int| 0 <= k < de.len() ==> is_digit(#[trigger] de[k]));
    };
    assert(t[dl + 1 + el] == '.');
    lemma_first_dot_at(t, dl + 1, dl + 1 + el);
    assert(t.subrange(0, dl + 1 + el) =~= payload);
    assert(t.subrange(dl + 1 + el + 1, t.len() as int) =~= sig);
}

/// Latest timestamp the token service accepts as "now" when issuing: the
/// end of year 9999 in seconds since the epoch.
pub const MAX_TIMESTAMP: u64 = 253_402_300_799;

/// Issues a signed token for a subject, valid for
/// [`TOKEN_LIFETIME_SECS`] from `now`. A signing failure is reported as
/// `TokenCreation`, the server-fault kind.
pub fn issue_token(keys: &crate::auth::Keys, sub: i64, now: u64) -> (r: Result<
    String,
    crate::auth::AuthError,
>)
    requires
        0 <= sub,
        now <= MAX_TIMESTAMP,
    ensures
        r matches Ok(t) ==> t@ == token_chars(
            keys.spec_secret(),
            sub as u64,
            (now + TOKEN_LIFETIME_SECS) as u64,
        ),
        r matches Err(e) ==> e == crate::auth::AuthError::TokenCreation,
{
    let exp = now + TOKEN_LIFETIME_SECS;
    let mut msg = u64_to_dec_string(sub as u64);
    msg.append(".");
    let exp_s = u64_to_dec_string(exp);
    msg.append(exp_s.as_str());
    proof {
        reveal_strlit(".");
        assert(msg@ =~= token_payload(sub as u64, exp));
    }
    match sign_hs256(keys.secret_bytes(), msg.as_str()) {
        Some(sig) => {
            msg.append(".");
            msg.append(sig.as_str());
            proof {
                reveal_strlit(".");
                assert(msg@ =~= token_chars(keys.spec_secret(), sub as u64, exp));
            }
            Ok(msg)
        },
        None => Err(crate::auth::AuthError::TokenCreation),
    }
}

/// Validates a token text against the secret and the current time.
/// Signature, shape and expiry failures all map to the same rejection.
pub fn validate_token(secret: &[u8], token: &str, now: u64) -> (r: Result<
    crate::auth::Claims,
    crate::auth::AuthError,
>)
    ensures
        match spec_validate(secret@, token@, now) {
            Some(c) => r == Ok::<crate::auth::Claims, crate::auth::AuthError>(c),
            None => r == Err::<crate::auth::Claims, crate::auth::AuthError>(
                crate::auth::AuthError::InvalidToken,
            ),
        },
{
    let len = token.unicode_len();
    let i = match find_dot(token, 0) {
        Some(i) => i,
        None => {
            return Err(crate::auth::AuthError::InvalidToken);
        },
    };
    let j = match find_dot(token, i + 1) {
        Some(j) => j,
        None => {
            return Err(crate::auth::AuthError::InvalidToken);
        },
    };
    let sub_part = token.substring_char(0, i);
    let exp_part = token.substring_char(i + 1, j);
    let sub = match parse_u64(sub_part) {
        Some(v) => v,
        None => {
            return Err(crate::auth::AuthError::InvalidToken);
        },
    };
    let exp = match parse_u64(exp_part) {
        Some(v) => v,
        None => {
            return Err(crate::auth::AuthError::InvalidToken);
        },
    };
    let msg = token.substring_char(0, j);
    let sig = token.substring_char(j + 1, len);
    if !verify_hs256(secret, msg, sig) {
        return Err(crate::auth::AuthError::InvalidToken);
    }
    if sub > i64::MAX as u64 {
        return Err(crate::auth::AuthError::InvalidToken);
    }
    if now >= exp {
        return Err(crate::auth::AuthError::InvalidToken);
    }
    Ok(crate::auth::Claims { sub: sub as i64, exp })
}

/// Relies on `chrono::Utc::now`: a reading of the system clock, as
/// seconds since the epoch. Nothing is assumed of what the clock reads.
#[verifier::external_body]
fn system_time_secs() -> i64 {
    chrono::Utc::now().timestamp()
}

/// The current time for issuing and validating tokens, clamped into the
/// range the service represents: whatever the clock reads, the result is
/// a usable timestamp.
pub fn current_timestamp() -> (r: u64)
    ensures
        r <= MAX_TIMESTAMP,
{
    let t = system_time_secs();
    if t < 0 {
        0
    } else {
        let u = t as u64;
        if u > MAX_TIMESTAMP {
            MAX_TIMESTAMP
        } else {
            u
        }
    }
}

} // verus!
