//! Generation of Steam Guard style time-based one-time codes.
//!
//! A code is derived from a base64-encoded shared secret and a Unix time:
//! the secret text is normalized and decoded, an HMAC-SHA1 digest is taken
//! over the 30-second time counter, and five characters of a fixed
//! 26-symbol alphabet are extracted by dynamic truncation and repeated
//! division by 26.

use vstd::prelude::*;
use vstd::string::StrSliceExecFns;
use vstd::string::StringExecFns;

verus! {

/// Why a code could not be generated.
#[derive(Clone, Copy, Debug, PartialEq, Eq, Structural)]
pub enum CodeError {
    /// The normalized secret is not valid standard base64.
    DecodeError,
    /// The decoded key was rejected by HMAC initialization (defensive:
    /// HMAC-SHA1 accepts keys of any length).
    KeyError,
    /// The derived code bytes were not valid text (defensive: the fixed
    /// alphabet only yields valid text).
    EncodingError,
}

impl CodeError {
    /// A human-readable message for the boundary, one per error kind.
    pub fn message(&self) -> (r: &'static str)
        ensures
            *self == CodeError::DecodeError ==> r@ == "Failed to decode Base64"@,
            *self == CodeError::KeyError ==> r@ == "Failed to create HMAC instance"@,
            *self == CodeError::EncodingError ==> r@ == "Failed to convert to UTF-8"@,
    {
        match self {
            CodeError::DecodeError => "Failed to decode Base64",
            CodeError::KeyError => "Failed to create HMAC instance",
            CodeError::EncodingError => "Failed to convert to UTF-8",
        }
    }
}

// ---------------------------------------------------------------------
// Normalization of the secret text
// ---------------------------------------------------------------------

/// The Unicode whitespace characters, as trimmed from the ends of a
/// secret before decoding.
pub open spec fn is_space_char(c: char) -> bool {
    c == '\u{9}' || c == '\u{a}' || c == '\u{b}' || c == '\u{c}' || c == '\u{d}' || c == ' '
        || c == '\u{85}' || c == '\u{a0}' || c == '\u{1680}' || c == '\u{2000}' || c == '\u{2001}'
        || c == '\u{2002}' || c == '\u{2003}' || c == '\u{2004}' || c == '\u{2005}' || c
        == '\u{2006}' || c == '\u{2007}' || c == '\u{2008}' || c == '\u{2009}' || c == '\u{200a}'
        || c == '\u{2028}' || c == '\u{2029}' || c == '\u{202f}' || c == '\u{205f}' || c
        == '\u{3000}'
}

fn char_is_space(c: char) -> (r: bool)
    ensures
        r == is_space_char(c),
{
    c == '\u{9}' || c == '\u{a}' || c == '\u{b}' || c == '\u{c}' || c == '\u{d}' || c == ' '
        || c == '\u{85}' || c == '\u{a0}' || c == '\u{1680}' || c == '\u{2000}' || c == '\u{2001}'
        || c == '\u{2002}' || c == '\u{2003}' || c == '\u{2004}' || c == '\u{2005}' || c
        == '\u{2006}' || c == '\u{2007}' || c == '\u{2008}' || c == '\u{2009}' || c == '\u{200a}'
        || c == '\u{2028}' || c == '\u{2029}' || c == '\u{202f}' || c == '\u{205f}' || c
        == '\u{3000}'
}

/// A single or double quote character.
pub open spec fn is_quote_char(c: char) -> bool {
    c == '"' || c == '\''
}

/// The sequence with its leading whitespace removed.
pub open spec fn drop_leading_spaces(s: Seq<char>) -> Seq<char>
    decreases s.len(),
{
    if s.len() > 0 && is_space_char(s[0]) {
        drop_leading_spaces(s.drop_first())
    } else {
        s
    }
}

/// The sequence with its trailing whitespace removed.
pub open spec fn drop_trailing_spaces(s: Seq<char>) -> Seq<char>
    decreases s.len(),
{
    if s.len() > 0 && is_space_char(s.last()) {
        drop_trailing_spaces(s.drop_last())
    } else {
        s
    }
}

/// The sequence with whitespace removed from both ends.
pub open spec fn trim_spaces(s: Seq<char>) -> Seq<char> {
    drop_trailing_spaces(drop_leading_spaces(s))
}

/// One layer of matching quote characters removed from both ends, if
/// present.
pub open spec fn strip_quotes(s: Seq<char>) -> Seq<char> {
    if s.len() >= 2 && s[0] == s[s.len() - 1] && is_quote_char(s[0]) {
        s.subrange(1, s.len() - 1)
    } else {
        s
    }
}

/// A secret as it is used: whitespace trimmed, then one layer of matching
/// quotes stripped.
pub open spec fn normalize_spec(s: Seq<char>) -> Seq<char> {
    strip_quotes(trim_spaces(s))
}

/// Normalizes the raw secret text: trims whitespace from both ends, then
/// strips one layer of matching single or double quotes.
pub fn normalize(s: &str) -> (r: String)
    ensures
        r@ == normalize_spec(s@),
{
    let n = s.unicode_len();
    proof {
        assert(s@.subrange(0, n as int) =~= s@);
    }
    let mut i: usize = 0;
    loop
        invariant
            0 <= i <= n,
            n == s@.len(),
            drop_leading_spaces(s@) == drop_leading_spaces(s@.subrange(i as int, n as int)),
        ensures
            0 <= i <= n,
            n == s@.len(),
            drop_leading_spaces(s@) == s@.subrange(i as int, n as int),
        decreases n - i,
    {
        if i >= n {
            break ;
        }
        let c = s.get_char(i);
        if !char_is_space(c) {
            break ;
        }
        proof {
            let cur = s@.subrange(i as int, n as int);
            assert(cur.drop_first() =~= s@.subrange(i + 1, n as int));
        }
        i += 1;
    }
    let mut j: usize = n;
    loop
        invariant
            i <= j <= n,
            n == s@.len(),
            drop_trailing_spaces(s@.subrange(i as int, n as int)) == drop_trailing_spaces(
                s@.subrange(i as int, j as int),
            ),
        ensures
            i <= j <= n,
            n == s@.len(),
            drop_trailing_spaces(s@.subrange(i as int, n as int)) == s@.subrange(
                i as int,
                j as int,
            ),
        decreases j,
    {
        if j <= i {
            break ;
        }
        let c = s.get_char(j - 1);
        if !char_is_space(c) {
            break ;
        }
        proof {
            let cur = s@.subrange(i as int, j as int);
            assert(cur.drop_last() =~= s@.subrange(i as int, j - 1));
        }
        j -= 1;
    }
    proof {
        assert(trim_spaces(s@) == s@.subrange(i as int, j as int));
    }
    let ghost trimmed = s@.subrange(i as int, j as int);
    if j - i >= 2 {
        let a = s.get_char(i);
        let b = s.get_char(j - 1);
        if a == b && (a == '"' || a == '\'') {
            proof {
                assert(trimmed.subrange(1, trimmed.len() - 1) =~= s@.subrange(i + 1, j - 1));
            }
            i += 1;
            j -= 1;
        } else {
            proof {
                assert(strip_quotes(trimmed) == trimmed);
            }
        }
    } else {
        proof {
            assert(strip_quotes(trimmed) == trimmed);
        }
    }
    let out = s.substring_char(i, j);
    String::from_str(out)
}

// ---------------------------------------------------------------------
// Trusted boundary: base64 decoding and the HMAC-SHA1 digest
// ---------------------------------------------------------------------

/// What base64's `STANDARD` engine decodes a text to: `Some` of the
/// decoded bytes on valid padded standard base64, `None` otherwise.
pub uninterp spec fn b64_decode(s: Seq<char>) -> Option<Seq<u8>>;

/// Relies on base64's `STANDARD` engine `decode`: the result is a
/// function of the input text alone, and decoding fails exactly on text
/// that is not valid padded standard base64.
#[verifier::external_body]
fn base64_decode(s: &str) -> (r: Option<Vec<u8>>)
    ensures
        match r {
            Some(v) => b64_decode(s@) == Some(v@),
            None => b64_decode(s@) is None,
        },
{
    match base64::Engine::decode(&base64::engine::general_purpose::STANDARD, s) {
        Ok(v) => Some(v),
        Err(_) => None,
    }
}

/// What HMAC-SHA1 computes: the keyed digest of a message.
pub uninterp spec fn hmac_sha1_bytes(key: Seq<u8>, msg: Seq<u8>) -> Seq<u8>;

/// Relies on `hmac::Hmac<sha1::Sha1>`: the digest is a function of key
/// and message alone and is 20 bytes long; `new_from_slice` accepts keys
/// of any length, so initialization never fails.
#[verifier::external_body]
fn hmac_sha1(key: &Vec<u8>, msg: &Vec<u8>) -> (r: Vec<u8>)
    ensures
        r@ == hmac_sha1_bytes(key@, msg@),
        r@.len() == 20,
{
    let mut mac = <hmac::Hmac<sha1::Sha1> as hmac::KeyInit>::new_from_slice(key.as_slice())
        .expect("HMAC accepts keys of any length");
    hmac::Mac::update(&mut mac, msg.as_slice());
    hmac::Mac::finalize(mac).into_bytes().to_vec()
}

// ---------------------------------------------------------------------
// The time counter
// ---------------------------------------------------------------------

/// The 30-second time counter a code belongs to.
pub open spec fn counter_of(time: u64) -> u64 {
    time / 30
}

/// Byte `i` of the big-endian encoding of the counter.
pub open spec fn counter_byte(c: u64, i: int) -> u8
    recommends
        0 <= i < 8,
{
    ((c >> (((7 - i) * 8) as u64)) & 0xff) as u8
}

/// The 8-byte big-endian encoding of the time counter.
pub open spec fn counter_bytes(time: u64) -> Seq<u8> {
    Seq::new(8, |i: int| counter_byte(counter_of(time), i))
}

fn counter_bytes_exec(time: u64) -> (r: Vec<u8>)
    ensures
        r@ == counter_bytes(time),
{
    let c = time / 30;
    let mut out: Vec<u8> = Vec::new();
    let mut i: usize = 0;
    while i < 8
        invariant
            i <= 8,
            c == counter_of(time),
            out@.len() == i as int,
            forall|t: int| 0 <= t < i ==> out@[t] == counter_byte(c, t),
        decreases 8 - i,
    {
        let sh: u64 = ((7 - i) as u64) * 8;
        let b: u8 = ((c >> sh) & 0xff) as u8;
        proof {
            assert(sh == ((7 - i as int) * 8) as u64);
        }
        out.push(b);
        i += 1;
    }
    proof {
        assert(out@ =~= counter_bytes(time));
    }
    out
}

// ---------------------------------------------------------------------
// Dynamic truncation and the base-26 code
// ---------------------------------------------------------------------

/// The fixed 26-symbol code alphabet `23456789BCDFGHJKMNPQRTVWXY`
/// (ambiguous characters are excluded), by index.
pub open spec fn alphabet_char(i: int) -> char {
    if i == 0 {
        '2'
    } else if i == 1 {
        '3'
    } else if i == 2 {
        '4'
    } else if i == 3 {
        '5'
    } else if i == 4 {
        '6'
    } else if i == 5 {
        '7'
    } else if i == 6 {
        '8'
    } else if i == 7 {
        '9'
    } else if i == 8 {
        'B'
    } else if i == 9 {
        'C'
    } else if i == 10 {
        'D'
    } else if i == 11 {
        'F'
    } else if i == 12 {
        'G'
    } else if i == 13 {
        'H'
    } else if i == 14 {
        'J'
    } else if i == 15 {
        'K'
    } else if i == 16 {
        'M'
    } else if i == 17 {
        'N'
    } else if i == 18 {
        'P'
    } else if i == 19 {
        'Q'
    } else if i == 20 {
        'R'
    } else if i == 21 {
        'T'
    } else if i == 22 {
        'V'
    } else if i == 23 {
        'W'
    } else if i == 24 {
        'X'
    } else {
        'Y'
    }
}

/// Whether a character belongs to the code alphabet.
pub open spec fn is_code_char(c: char) -> bool {
    exists|i: int| 0 <= i < 26 && c == alphabet_char(i)
}

fn alphabet_char_at(i: u32) -> (c: char)
    requires
        i < 26,
    ensures
        c == alphabet_char(i as int),
{
    if i == 0 {
        '2'
    } else if i == 1 {
        '3'
    } else if i == 2 {
        '4'
    } else if i == 3 {
        '5'
    } else if i == 4 {
        '6'
    } else if i == 5 {
        '7'
    } else if i == 6 {
        '8'
    } else if i == 7 {
        '9'
    } else if i == 8 {
        'B'
    } else if i == 9 {
        'C'
    } else if i == 10 {
        'D'
    } else if i == 11 {
        'F'
    } else if i == 12 {
        'G'
    } else if i == 13 {
        'H'
    } else if i == 14 {
        'J'
    } else if i == 15 {
        'K'
    } else if i == 16 {
        'M'
    } else if i == 17 {
        'N'
    } else if i == 18 {
        'P'
    } else if i == 19 {
        'Q'
    } else if i == 20 {
        'R'
    } else if i == 21 {
        'T'
    } else if i == 22 {
        'V'
    } else if i == 23 {
        'W'
    } else if i == 24 {
        'X'
    } else {
        'Y'
    }
}

/// The dynamic truncation offset: the low nibble of the digest's last
/// byte.
pub open spec fn truncation_offset(digest: Seq<u8>) -> int
    recommends
        digest.len() == 20,
{
    (digest[19] & 0x0f) as int
}

/// The 31-bit code point read big-endian from four digest bytes at the
/// truncation offset, the top bit masked off.
pub open spec fn code_point(digest: Seq<u8>) -> u32
    recommends
        digest.len() == 20,
{
    let b = truncation_offset(digest);
    (((digest[b] & 0x7f) as u32) << 24) | (((digest[b + 1]) as u32) << 16) | (((digest[b + 2]) as u32)
        << 8) | ((digest[b + 3]) as u32)
}

fn code_point_exec(digest: &Vec<u8>) -> (r: u32)
    requires
        digest@.len() == 20,
    ensures
        r == code_point(digest@),
{
    let last = digest[19];
    let b: usize = (last & 0x0f) as usize;
    proof {
        assert(last & 0x0f < 16) by (bit_vector);
    }
    (((digest[b] & 0x7f) as u32) << 24u32) | (((digest[b + 1]) as u32) << 16u32) | (((digest[b
        + 2]) as u32) << 8u32) | ((digest[b + 3]) as u32)
}

/// The first `n` code characters drawn from a code point: each step takes
/// the code point modulo 26 as an alphabet index, then divides by 26.
pub open spec fn code_seq(cp: u32, n: nat) -> Seq<char>
    decreases n,
{
    if n == 0 {
        Seq::empty()
    } else {
        seq![alphabet_char((cp % 26) as int)] + code_seq(cp / 26, (n - 1) as nat)
    }
}

fn code_string(cp0: u32) -> (r: String)
    ensures
        r@ == code_seq(cp0, 5),
{
    let mut out = String::new();
    let mut cp = cp0;
    let mut i: usize = 0;
    while i < 5
        invariant
            i <= 5,
            out@ + code_seq(cp, (5 - i) as nat) == code_seq(cp0, 5),
        decreases 5 - i,
    {
        let idx = cp % 26;
        let c = alphabet_char_at(idx);
        let ghost out_old = out@;
        out.push(c);
        proof {
            assert(out@ =~= out_old + seq![c]);
            assert((out_old + seq![c]) + code_seq(cp / 26, (5 - (i + 1)) as nat) =~= out_old + (
            seq![c] + code_seq(cp / 26, (5 - (i + 1)) as nat)));
        }
        cp = cp / 26;
        i += 1;
    }
    proof {
        assert(code_seq(cp, 0) =~= Seq::<char>::empty());
        assert(out@ + Seq::<char>::empty() =~= out@);
    }
    out
}

// ---------------------------------------------------------------------
// The code generator
// ---------------------------------------------------------------------

/// What code generation returns for a secret text and a time: the
/// decode error on text that is not valid base64 after normalization,
/// and otherwise the five-character code derived from the HMAC-SHA1
/// digest of the time counter under the decoded key.
pub open spec fn spec_generate_code(secret: Seq<char>, time: u64) -> Result<Seq<char>, CodeError> {
    match b64_decode(normalize_spec(secret)) {
        Option::None => Result::Err(CodeError::DecodeError),
        Option::Some(key) => Result::Ok(
            code_seq(code_point(hmac_sha1_bytes(key, counter_bytes(time))), 5),
        ),
    }
}

/// Generates the Steam Guard code for a shared secret at the given Unix
/// time (seconds). The result is a function of the two inputs alone, so
/// repeated calls with equal inputs return equal codes.
pub fn generate_steam_guard_code(shared_secret: &str, time: u64) -> (r: Result<String, CodeError>)
    ensures
        match r {
            Ok(code) => spec_generate_code(shared_secret@, time) == Result::<
                Seq<char>,
                CodeError,
            >::Ok(code@),
            Err(e) => spec_generate_code(shared_secret@, time) == Result::<
                Seq<char>,
                CodeError,
            >::Err(e),
        },
{
    let cleaned = normalize(shared_secret);
    match base64_decode(cleaned.as_str()) {
        None => Err(CodeError::DecodeError),
        Some(key) => {
            let msg = counter_bytes_exec(time);
            let digest = hmac_sha1(&key, &msg);
            let cp = code_point_exec(&digest);
            Ok(code_string(cp))
        },
    }
}

// ---------------------------------------------------------------------
// Laws
// ---------------------------------------------------------------------

proof fn lemma_code_seq_props(cp: u32, n: nat)
    ensures
        code_seq(cp, n).len() == n,
        forall|i: int| 0 <= i < n ==> is_code_char(code_seq(cp, n)[i]),
    decreases n,
{
    if n > 0 {
        lemma_code_seq_props(cp / 26, (n - 1) as nat);
        let idx = (cp % 26) as int;
        let head = alphabet_char(idx);
        assert(0 <= idx && idx < 26);
        assert(is_code_char(head));
        let s = code_seq(cp, n);
        let tail = code_seq(cp / 26, (n - 1) as nat);
        assert forall|i: int| 0 <= i < n implies is_code_char(s[i]) by {
            if i == 0 {
                assert(s[0] == head);
            } else {
                assert(s[i] == tail[i - 1]);
            }
        }
    }
}

/// Code generation is deterministic: any two results obtained for the
/// same secret and time are equal.
pub proof fn lemma_generate_deterministic(
    secret: Seq<char>,
    time: u64,
    r1: Result<Seq<char>, CodeError>,
    r2: Result<Seq<char>, CodeError>,
)
    requires
        r1 == spec_generate_code(secret, time),
        r2 == spec_generate_code(secret, time),
    ensures
        r1 == r2,
{
}

/// A generated code is always exactly five characters, each drawn from
/// the fixed 26-symbol alphabet.
pub proof fn lemma_code_wellformed(secret: Seq<char>, time: u64)
    ensures
        spec_generate_code(secret, time) matches Ok(c) ==> c.len() == 5 && (forall|i: int|
            0 <= i < 5 ==> is_code_char(c[i])),
{
    match b64_decode(normalize_spec(secret)) {
        Option::Some(key) => {
            lemma_code_seq_props(code_point(hmac_sha1_bytes(key, counter_bytes(time))), 5);
        },
        Option::None => {},
    }
}

/// Two times in the same 30-second window yield the same result, code or
/// error, for every secret.
pub proof fn lemma_same_window(secret: Seq<char>, t1: u64, t2: u64)
    requires
        t1 / 30 == t2 / 30,
    ensures
        spec_generate_code(secret, t1) == spec_generate_code(secret, t2),
{
    assert(counter_bytes(t1) =~= counter_bytes(t2));
}

proof fn lemma_drop_leading_all_spaces(w: Seq<char>)
    requires
        forall|k: int| 0 <= k < w.len() ==> is_space_char(w[k]),
    ensures
        drop_leading_spaces(w) == Seq::<char>::empty(),
    decreases w.len(),
{
    if w.len() > 0 {
        lemma_drop_leading_all_spaces(w.drop_first());
    } else {
        assert(w =~= Seq::<char>::empty());
    }
}

proof fn lemma_drop_leading_prepend(w: Seq<char>, s: Seq<char>)
    requires
        forall|k: int| 0 <= k < w.len() ==> is_space_char(w[k]),
    ensures
        drop_leading_spaces(w + s) == drop_leading_spaces(s),
    decreases w.len(),
{
    if w.len() == 0 {
        assert(w + s =~= s);
    } else {
        assert((w + s)[0] == w[0]);
        assert((w + s).drop_first() =~= w.drop_first() + s);
        lemma_drop_leading_prepend(w.drop_first(), s);
    }
}

proof fn lemma_drop_trailing_append(s: Seq<char>, w: Seq<char>)
    requires
        forall|k: int| 0 <= k < w.len() ==> is_space_char(w[k]),
    ensures
        drop_trailing_spaces(s + w) == drop_trailing_spaces(s),
    decreases w.len(),
{
    if w.len() == 0 {
        assert(s + w =~= s);
    } else {
        assert((s + w).last() == w.last());
        assert((s + w).drop_last() =~= s + w.drop_last());
        lemma_drop_trailing_append(s, w.drop_last());
    }
}

proof fn lemma_drop_leading_len(s: Seq<char>)
    ensures
        drop_leading_spaces(s).len() <= s.len(),
        drop_leading_spaces(s).len() == s.len() ==> drop_leading_spaces(s) == s,
    decreases s.len(),
{
    if s.len() > 0 && is_space_char(s[0]) {
        lemma_drop_leading_len(s.drop_first());
    }
}

proof fn lemma_drop_trailing_len(s: Seq<char>)
    ensures
        drop_trailing_spaces(s).len() <= s.len(),
        drop_trailing_spaces(s).len() == s.len() ==> drop_trailing_spaces(s) == s,
    decreases s.len(),
{
    if s.len() > 0 && is_space_char(s.last()) {
        lemma_drop_trailing_len(s.drop_last());
    }
}

/// A secret that normalization leaves unchanged is already trimmed and
/// carries no matching outer quotes.
proof fn lemma_normalized_fixpoint(s: Seq<char>)
    requires
        normalize_spec(s) == s,
    ensures
        drop_leading_spaces(s) == s,
        drop_trailing_spaces(s) == s,
        strip_quotes(s) == s,
{
    lemma_drop_leading_len(s);
    let dl = drop_leading_spaces(s);
    lemma_drop_trailing_len(dl);
    let t = drop_trailing_spaces(dl);
    assert(strip_quotes(t).len() == s.len());
    if t.len() >= 2 && t[0] == t[t.len() - 1] && is_quote_char(t[0]) {
        assert(strip_quotes(t).len() == t.len() - 2);
        assert(false);
    }
    assert(t == s);
    assert(dl == s);
    lemma_drop_trailing_len(s);
}

/// Surrounding a normalized secret with whitespace does not change the
/// generated code.
pub proof fn lemma_code_ignores_whitespace(secret: Seq<char>, w1: Seq<char>, w2: Seq<char>, time: u64)
    requires
        forall|k: int| 0 <= k < w1.len() ==> is_space_char(w1[k]),
        forall|k: int| 0 <= k < w2.len() ==> is_space_char(w2[k]),
        normalize_spec(secret) == secret,
    ensures
        spec_generate_code(w1 + secret + w2, time) == spec_generate_code(secret, time),
{
    lemma_normalized_fixpoint(secret);
    assert((w1 + secret) + w2 =~= w1 + (secret + w2));
    lemma_drop_leading_prepend(w1, secret + w2);
    if secret.len() == 0 {
        assert(secret + w2 =~= w2);
        lemma_drop_leading_all_spaces(w2);
        assert(normalize_spec(w1 + secret + w2) == secret);
    } else {
        if is_space_char(secret[0]) {
            lemma_drop_leading_len(secret.drop_first());
            assert(false);
        }
        assert((secret + w2)[0] == secret[0]);
        assert(drop_leading_spaces(secret + w2) == secret + w2);
        lemma_drop_trailing_append(secret, w2);
        assert(normalize_spec(w1 + secret + w2) == secret);
    }
}

/// Wrapping a normalized secret in one layer of matching single or
/// double quotes does not change the generated code.
pub proof fn lemma_code_ignores_quotes(secret: Seq<char>, q: char, time: u64)
    requires
        is_quote_char(q),
        normalize_spec(secret) == secret,
    ensures
        spec_generate_code(seq![q] + secret + seq![q], time) == spec_generate_code(secret, time),
{
    lemma_normalized_fixpoint(secret);
    let t = (seq![q] + secret) + seq![q];
    assert(t[0] == q);
    assert(t.last() == q);
    assert(!is_space_char(q));
    assert(drop_leading_spaces(t) == t);
    assert(drop_trailing_spaces(t) == t);
    assert(t.len() >= 2);
    assert(t.subrange(1, t.len() - 1) =~= secret);
    assert(normalize_spec(t) == secret);
}

/// Generation fails exactly when the normalized secret is not valid
/// base64, and then always with the decode error: no input panics or
/// fails another way.
pub proof fn lemma_decode_error_exact(secret: Seq<char>, time: u64)
    ensures
        spec_generate_code(secret, time) is Err <==> b64_decode(normalize_spec(secret)) is None,
        spec_generate_code(secret, time) is Err ==> spec_generate_code(secret, time) == Result::<
            Seq<char>,
            CodeError,
        >::Err(CodeError::DecodeError),
{
}

/// Wrapping a normalized secret in matching quotes and surrounding the
/// result with whitespace still does not change the generated code.
pub proof fn lemma_code_ignores_wrapping(
    secret: Seq<char>,
    q: char,
    w1: Seq<char>,
    w2: Seq<char>,
    time: u64,
)
    requires
        is_quote_char(q),
        forall|k: int| 0 <= k < w1.len() ==> is_space_char(w1[k]),
        forall|k: int| 0 <= k < w2.len() ==> is_space_char(w2[k]),
        normalize_spec(secret) == secret,
    ensures
        spec_generate_code(w1 + (seq![q] + secret + seq![q]) + w2, time) == spec_generate_code(
            secret,
            time,
        ),
{
    lemma_normalized_fixpoint(secret);
    let t = (seq![q] + secret) + seq![q];
    assert(t[0] == q);
    assert(t.last() == q);
    assert(!is_space_char(q));
    assert((w1 + t) + w2 =~= w1 + (t + w2));
    lemma_drop_leading_prepend(w1, t + w2);
    assert((t + w2)[0] == q);
    assert(drop_leading_spaces(t + w2) == t + w2);
    lemma_drop_trailing_append(t, w2);
    assert(drop_trailing_spaces(t) == t);
    assert(t.len() >= 2);
    assert(t.subrange(1, t.len() - 1) =~= secret);
    assert(normalize_spec(w1 + t + w2) == secret);
}

} // verus!
