//! The configuration file format: a pretty-printed JSON document
//! `{ "secrets": [ {"name": ..., "shared_secret": ...}, ... ] }`.
//!
//! The writer emits one fixed layout (two-space indent, one field per
//! line) and the reader accepts exactly that layout, so that a stored
//! configuration always reloads to the same ordered list; any other text
//! is rejected and the caller falls back to an empty list.

use vstd::prelude::*;
use vstd::string::StrSliceExecFns;
use vstd::string::StringExecFns;

use crate::store::Config;
use crate::store::Secret;
use crate::store::SecretView;
use crate::store::secrets_view;

verus! {

// ---------------------------------------------------------------------
// The fixed pieces of the layout
// ---------------------------------------------------------------------

/// The document's opening, up to and including the `[` of the list.
pub open spec fn lit_head() -> Seq<char> {
    "{\n  \"secrets\": ["@
}

/// The document's close when the list is empty.
pub open spec fn lit_etail() -> Seq<char> {
    "]\n}"@
}

/// The document's close after the last list entry.
pub open spec fn lit_tail() -> Seq<char> {
    "\n  ]\n}"@
}

/// The newline and indent before each list entry.
pub open spec fn lit_ipre() -> Seq<char> {
    "\n    "@
}

/// An entry's opening, up to and including the opening quote of the
/// name.
pub open spec fn lit_name() -> Seq<char> {
    "{\n      \"name\": \""@
}

/// The text between the name's closing quote and the opening quote of
/// the shared secret.
pub open spec fn lit_mid() -> Seq<char> {
    ",\n      \"shared_secret\": \""@
}

/// An entry's close after the shared secret's closing quote.
pub open spec fn lit_post() -> Seq<char> {
    "\n    }"@
}

// ---------------------------------------------------------------------
// Encoding
// ---------------------------------------------------------------------

/// How one character appears inside a JSON string: quote and backslash
/// take a backslash escape, every other character stands as itself.
pub open spec fn esc_char(c: char) -> Seq<char> {
    if c == '"' || c == '\\' {
        seq!['\\', c]
    } else {
        seq![c]
    }
}

/// A text with its characters escaped for a JSON string.
pub open spec fn esc(s: Seq<char>) -> Seq<char>
    decreases s.len(),
{
    if s.len() == 0 {
        Seq::empty()
    } else {
        esc_char(s[0]) + esc(s.drop_first())
    }
}

/// One encoded list entry, from its `{` to its `}`.
pub open spec fn enc_secret(v: SecretView) -> Seq<char> {
    lit_name() + esc(v.name) + seq!['"'] + lit_mid() + esc(v.shared_secret) + seq!['"']
        + lit_post()
}

/// The encoded entries of a non-empty list, each preceded by its indent,
/// separated by commas.
pub open spec fn enc_items(vs: Seq<SecretView>) -> Seq<char>
    recommends
        vs.len() > 0,
    decreases vs.len(),
{
    if vs.len() <= 1 {
        lit_ipre() + enc_secret(vs[0])
    } else {
        lit_ipre() + enc_secret(vs[0]) + seq![','] + enc_items(vs.drop_first())
    }
}

/// The whole encoded document for a secret list.
pub open spec fn enc_config(vs: Seq<SecretView>) -> Seq<char> {
    if vs.len() == 0 {
        lit_head() + lit_etail()
    } else {
        lit_head() + enc_items(vs) + lit_tail()
    }
}

// ---------------------------------------------------------------------
// Parsing
// ---------------------------------------------------------------------

/// Consumes the exact literal `l` from the front of `s`, or fails.
pub open spec fn parse_lit(s: Seq<char>, l: Seq<char>) -> Option<Seq<char>> {
    if l.len() <= s.len() && s.subrange(0, l.len() as int) == l {
        Some(s.skip(l.len() as int))
    } else {
        None
    }
}

/// Consumes a JSON string body up to and including its closing quote,
/// undoing the two escapes; yields the text and the remainder.
pub open spec fn parse_string_body(s: Seq<char>) -> Option<(Seq<char>, Seq<char>)>
    decreases s.len(),
{
    if s.len() == 0 {
        None
    } else if s[0] == '"' {
        Some((Seq::empty(), s.skip(1)))
    } else if s[0] == '\\' {
        if s.len() >= 2 && (s[1] == '"' || s[1] == '\\') {
            match parse_string_body(s.skip(2)) {
                Some(p) => Some((seq![s[1]] + p.0, p.1)),
                None => None,
            }
        } else {
            None
        }
    } else {
        match parse_string_body(s.skip(1)) {
            Some(p) => Some((seq![s[0]] + p.0, p.1)),
            None => None,
        }
    }
}

/// Consumes one list entry, from its `{` to its `}`.
pub open spec fn parse_secret(s: Seq<char>) -> Option<(SecretView, Seq<char>)> {
    match parse_lit(s, lit_name()) {
        None => None,
        Some(r1) => match parse_string_body(r1) {
            None => None,
            Some(p1) => match parse_lit(p1.1, lit_mid()) {
                None => None,
                Some(r2) => match parse_string_body(r2) {
                    None => None,
                    Some(p2) => match parse_lit(p2.1, lit_post()) {
                        None => None,
                        Some(r3) => Some(
                            (SecretView { name: p1.0, shared_secret: p2.0 }, r3),
                        ),
                    },
                },
            },
        },
    }
}

/// Consumes the entries of a non-empty list together with the document's
/// close.
pub open spec fn parse_items(s: Seq<char>) -> Option<(Seq<SecretView>, Seq<char>)>
    decreases s.len(),
{
    match parse_lit(s, lit_ipre()) {
        None => None,
        Some(r1) => match parse_secret(r1) {
            None => None,
            Some(p) => {
                let r2 = p.1;
                if r2.len() > 0 && r2[0] == ',' {
                    let r3 = r2.skip(1);
                    if r3.len() < s.len() {
                        match parse_items(r3) {
                            Some(q) => Some((seq![p.0] + q.0, q.1)),
                            None => None,
                        }
                    } else {
                        None
                    }
                } else {
                    match parse_lit(r2, lit_tail()) {
                        None => None,
                        Some(r) => Some((seq![p.0], r)),
                    }
                }
            },
        },
    }
}

/// What a document parses to: the stored list on exactly the layout the
/// writer emits, nothing on any other text.
pub open spec fn parse_config(s: Seq<char>) -> Option<Seq<SecretView>> {
    match parse_lit(s, lit_head()) {
        None => None,
        Some(r) => if r.len() > 0 && r[0] == ']' {
            match parse_lit(r, lit_etail()) {
                Some(rest) => if rest.len() == 0 {
                    Some(Seq::empty())
                } else {
                    None
                },
                None => None,
            }
        } else {
            match parse_items(r) {
                Some(p) => if p.1.len() == 0 {
                    Some(p.0)
                } else {
                    None
                },
                None => None,
            }
        },
    }
}

// ---------------------------------------------------------------------
// The round trip
// ---------------------------------------------------------------------

proof fn lemma_parse_lit_prefix(l: Seq<char>, rest: Seq<char>)
    ensures
        parse_lit(l + rest, l) == Some(rest),
{
    assert((l + rest).subrange(0, l.len() as int) =~= l);
    assert((l + rest).skip(l.len() as int) =~= rest);
}

proof fn lemma_parse_string_body_esc(x: Seq<char>, rest: Seq<char>)
    ensures
        parse_string_body(esc(x) + seq!['"'] + rest) == Some((x, rest)),
    decreases x.len(),
{
    let s = (esc(x) + seq!['"']) + rest;
    if x.len() == 0 {
        assert(esc(x) =~= Seq::<char>::empty());
        assert(s =~= seq!['"'] + rest);
        assert(s[0] == '"');
        assert(s.skip(1) =~= rest);
    } else {
        let c = x[0];
        let x1 = x.drop_first();
        assert(esc(x) == esc_char(c) + esc(x1));
        lemma_parse_string_body_esc(x1, rest);
        let tail = (esc(x1) + seq!['"']) + rest;
        assert(seq![c] + x1 =~= x);
        if c == '"' || c == '\\' {
            assert(s =~= seq!['\\', c] + tail);
            assert(s[0] == '\\');
            assert(s[1] == c);
            assert(s.len() >= 2);
            assert(s.skip(2) =~= tail);
        } else {
            assert(s =~= seq![c] + tail);
            assert(s[0] == c);
            assert(s.skip(1) =~= tail);
        }
    }
}

proof fn lemma_parse_secret_enc(v: SecretView, rest: Seq<char>)
    ensures
        parse_secret(enc_secret(v) + rest) == Some((v, rest)),
{
    let r4 = lit_post() + rest;
    let r3 = (esc(v.shared_secret) + seq!['"']) + r4;
    let r2 = lit_mid() + r3;
    let r1 = (esc(v.name) + seq!['"']) + r2;
    assert(enc_secret(v) + rest =~= lit_name() + r1);
    lemma_parse_lit_prefix(lit_name(), r1);
    lemma_parse_string_body_esc(v.name, r2);
    lemma_parse_lit_prefix(lit_mid(), r3);
    lemma_parse_string_body_esc(v.shared_secret, r4);
    lemma_parse_lit_prefix(lit_post(), rest);
    assert(SecretView { name: v.name, shared_secret: v.shared_secret } == v);
}

proof fn lemma_parse_items_enc(vs: Seq<SecretView>, rest: Seq<char>)
    requires
        vs.len() > 0,
    ensures
        parse_items(enc_items(vs) + (lit_tail() + rest)) == Some((vs, rest)),
    decreases vs.len(),
{
    reveal_strlit("\n  ]\n}");
    let v0 = vs[0];
    let s = enc_items(vs) + (lit_tail() + rest);
    if vs.len() == 1 {
        let r2 = lit_tail() + rest;
        let r1 = enc_secret(v0) + r2;
        assert(s =~= lit_ipre() + r1);
        lemma_parse_lit_prefix(lit_ipre(), r1);
        lemma_parse_secret_enc(v0, r2);
        assert(r2[0] == lit_tail()[0]);
        assert(lit_tail()[0] == '\n');
        lemma_parse_lit_prefix(lit_tail(), rest);
        assert(seq![v0] =~= vs);
    } else {
        let vs1 = vs.drop_first();
        let r3 = enc_items(vs1) + (lit_tail() + rest);
        let r2 = seq![','] + r3;
        let r1 = enc_secret(v0) + r2;
        assert(s =~= lit_ipre() + r1);
        lemma_parse_lit_prefix(lit_ipre(), r1);
        lemma_parse_secret_enc(v0, r2);
        assert(r2[0] == ',');
        assert(s.len() > r3.len());
        assert(r2.skip(1) =~= r3);
        lemma_parse_items_enc(vs1, rest);
        assert(seq![v0] + vs1 =~= vs);
    }
}

// ---------------------------------------------------------------------
// The writer
// ---------------------------------------------------------------------

proof fn lemma_esc_snoc(x: Seq<char>, c: char)
    ensures
        esc(x.push(c)) == esc(x) + esc_char(c),
    decreases x.len(),
{
    if x.len() == 0 {
        assert(x.push(c)[0] == c);
        assert(x.push(c).drop_first() =~= Seq::<char>::empty());
        assert(esc_char(c) + esc(Seq::<char>::empty()) =~= esc_char(c));
        assert(esc(x) + esc_char(c) =~= esc_char(c));
    } else {
        assert(x.push(c)[0] == x[0]);
        assert(x.push(c).drop_first() =~= x.drop_first().push(c));
        lemma_esc_snoc(x.drop_first(), c);
        assert(esc_char(x[0]) + (esc(x.drop_first()) + esc_char(c)) =~= (esc_char(x[0]) + esc(
            x.drop_first(),
        )) + esc_char(c));
    }
}

fn append_escaped(out: &mut String, s: &str)
    ensures
        final(out)@ == old(out)@ + esc(s@),
{
    let n = s.unicode_len();
    proof {
        assert(s@.subrange(0, 0) =~= Seq::<char>::empty());
        assert(old(out)@ + esc(Seq::<char>::empty()) =~= old(out)@);
    }
    let mut k: usize = 0;
    while k < n
        invariant
            k <= n,
            n == s@.len(),
            out@ == old(out)@ + esc(s@.subrange(0, k as int)),
        decreases n - k,
    {
        let c = s.get_char(k);
        let ghost pre = out@;
        if c == '"' {
            out.append("\\\"");
        } else if c == '\\' {
            out.append("\\\\");
        } else {
            out.push(c);
        }
        proof {
            reveal_strlit("\\\"");
            reveal_strlit("\\\\");
            if c == '"' || c == '\\' {
                assert("\\\""@ =~= esc_char('"'));
                assert("\\\\"@ =~= esc_char('\\'));
            } else {
                assert(pre.push(c) =~= pre + esc_char(c));
            }
            assert(out@ == pre + esc_char(c));
            lemma_esc_snoc(s@.subrange(0, k as int), c);
            assert(s@.subrange(0, k + 1) =~= s@.subrange(0, k as int).push(c));
            assert((old(out)@ + esc(s@.subrange(0, k as int))) + esc_char(c) =~= old(out)@ + (esc(
                s@.subrange(0, k as int),
            ) + esc_char(c)));
        }
        k += 1;
    }
    proof {
        assert(s@.subrange(0, n as int) =~= s@);
    }
}

/// Writes the configuration in the module's fixed pretty-printed layout.
pub fn config_to_json(c: &Config) -> (r: String)
    ensures
        r@ == enc_config(c@),
{
    let mut out = String::from_str("{\n  \"secrets\": [");
    let n = c.secrets.len();
    if n == 0 {
        out.append("]\n}");
        proof {
            assert(c@.len() == 0);
            assert(out@ =~= enc_config(c@));
        }
    } else {
        proof {
            assert(c@.skip(0) =~= c@);
        }
        let mut k: usize = 0;
        while k < n
            invariant
                0 < n == c.secrets.len(),
                n == c@.len(),
                0 <= k <= n,
                k < n ==> out@ + enc_items(c@.skip(k as int)) == lit_head() + enc_items(c@),
                k == n ==> out@ == lit_head() + enc_items(c@),
            decreases n - k,
        {
            let ghost pre = out@;
            let sec = &c.secrets[k];
            out.append("\n    ");
            out.append("{\n      \"name\": \"");
            append_escaped(&mut out, sec.name.as_str());
            out.append("\"");
            out.append(",\n      \"shared_secret\": \"");
            append_escaped(&mut out, sec.shared_secret.as_str());
            out.append("\"");
            out.append("\n    }");
            proof {
                reveal_strlit("\"");
                assert("\""@ =~= seq!['"']);
                let vs = c@.skip(k as int);
                assert(vs[0] == c@[k as int]);
                assert(c@[k as int] == c.secrets@[k as int]@);
                assert(out@ =~= pre + (lit_ipre() + enc_secret(vs[0])));
            }
            if k + 1 < n {
                out.append(",");
                proof {
                    reveal_strlit(",");
                    assert(","@ =~= seq![',']);
                    let vs = c@.skip(k as int);
                    assert(vs.drop_first() =~= c@.skip(k + 1));
                    assert(enc_items(vs) == lit_ipre() + enc_secret(vs[0]) + seq![','] + enc_items(
                        vs.drop_first(),
                    ));
                    assert(out@ =~= pre + (lit_ipre() + enc_secret(vs[0]) + seq![',']));
                    assert(out@ + enc_items(c@.skip(k + 1)) =~= pre + enc_items(vs));
                }
            } else {
                proof {
                    let vs = c@.skip(k as int);
                    assert(vs.len() == 1);
                    assert(enc_items(vs) == lit_ipre() + enc_secret(vs[0]));
                    assert(out@ =~= pre + enc_items(vs));
                }
            }
            k += 1;
        }
        out.append("\n  ]\n}");
        proof {
            assert(out@ =~= enc_config(c@));
        }
    }
    out
}

// ---------------------------------------------------------------------
// The reader
// ---------------------------------------------------------------------

fn expect_lit(s: &str, i: usize, lit: &str) -> (r: Option<usize>)
    requires
        i <= s@.len(),
    ensures
        match r {
            Some(j) => i <= j <= s@.len() && j - i == lit@.len() && parse_lit(
                s@.skip(i as int),
                lit@,
            ) == Some(s@.skip(j as int)),
            None => parse_lit(s@.skip(i as int), lit@) is None,
        },
{
    let n = s.unicode_len();
    let m = lit.unicode_len();
    if m > n - i {
        proof {
            assert(s@.skip(i as int).len() == n - i);
        }
        return None;
    }
    let mut k: usize = 0;
    while k < m
        invariant
            0 <= k <= m,
            i + m <= n,
            n == s@.len(),
            m == lit@.len(),
            forall|t: int| 0 <= t < k ==> s@[i + t] == lit@[t],
        decreases m - k,
    {
        if s.get_char(i + k) != lit.get_char(k) {
            proof {
                let suf = s@.skip(i as int);
                assert(suf.subrange(0, m as int)[k as int] == s@[i + k]);
                assert(suf.subrange(0, m as int) != lit@);
            }
            return None;
        }
        k += 1;
    }
    proof {
        let suf = s@.skip(i as int);
        assert(suf.subrange(0, m as int) =~= lit@);
        assert(suf.skip(m as int) =~= s@.skip(i + m));
    }
    Some(i + m)
}

/// `o` with `p` put before its parsed text.
spec fn psb_prepend(p: Seq<char>, o: Option<(Seq<char>, Seq<char>)>) -> Option<
    (Seq<char>, Seq<char>),
> {
    match o {
        Some(q) => Some((p + q.0, q.1)),
        None => None,
    }
}

proof fn lemma_psb_prepend_assoc(a: Seq<char>, b: Seq<char>, o: Option<(Seq<char>, Seq<char>)>)
    ensures
        psb_prepend(a + b, o) == psb_prepend(a, psb_prepend(b, o)),
{
    match o {
        Some(q) => {
            assert((a + b) + q.0 =~= a + (b + q.0));
        },
        None => {},
    }
}

fn parse_string_at(s: &str, i: usize) -> (r: Option<(String, usize)>)
    requires
        i <= s@.len(),
    ensures
        match r {
            Some(p) => i < p.1 <= s@.len() && parse_string_body(s@.skip(i as int)) == Some(
                (p.0@, s@.skip(p.1 as int)),
            ),
            None => parse_string_body(s@.skip(i as int)) is None,
        },
{
    let n = s.unicode_len();
    let mut out = String::new();
    let mut k: usize = i;
    proof {
        match parse_string_body(s@.skip(i as int)) {
            Some(q) => {
                assert(Seq::<char>::empty() + q.0 =~= q.0);
            },
            None => {},
        }
    }
    loop
        invariant
            i <= k <= n,
            n == s@.len(),
            parse_string_body(s@.skip(i as int)) == psb_prepend(
                out@,
                parse_string_body(s@.skip(k as int)),
            ),
        decreases n - k,
    {
        if k >= n {
            proof {
                assert(s@.skip(k as int).len() == 0);
            }
            return None;
        }
        let c = s.get_char(k);
        proof {
            assert(s@.skip(k as int)[0] == s@[k as int]);
        }
        if c == '"' {
            proof {
                assert(s@.skip(k as int).skip(1) =~= s@.skip(k + 1));
                assert(out@ + Seq::<char>::empty() =~= out@);
            }
            return Some((out, k + 1));
        } else if c == '\\' {
            if k + 1 >= n {
                proof {
                    assert(s@.skip(k as int).len() == 1);
                }
                return None;
            }
            let d = s.get_char(k + 1);
            proof {
                assert(s@.skip(k as int)[1] == s@[k + 1]);
            }
            if d == '"' || d == '\\' {
                let ghost pre = out@;
                out.push(d);
                proof {
                    assert(s@.skip(k as int).skip(2) =~= s@.skip(k + 2));
                    assert(parse_string_body(s@.skip(k as int)) == psb_prepend(
                        seq![d],
                        parse_string_body(s@.skip(k + 2)),
                    ));
                    lemma_psb_prepend_assoc(pre, seq![d], parse_string_body(s@.skip(k + 2)));
                    assert(pre.push(d) =~= pre + seq![d]);
                }
                k += 2;
            } else {
                return None;
            }
        } else {
            let ghost pre = out@;
            out.push(c);
            proof {
                assert(s@.skip(k as int).skip(1) =~= s@.skip(k + 1));
                assert(parse_string_body(s@.skip(k as int)) == psb_prepend(
                    seq![c],
                    parse_string_body(s@.skip(k + 1)),
                ));
                lemma_psb_prepend_assoc(pre, seq![c], parse_string_body(s@.skip(k + 1)));
                assert(pre.push(c) =~= pre + seq![c]);
            }
            k += 1;
        }
    }
}

fn parse_secret_at(s: &str, i: usize) -> (r: Option<(Secret, usize)>)
    requires
        i <= s@.len(),
    ensures
        match r {
            Some(p) => i < p.1 <= s@.len() && parse_secret(s@.skip(i as int)) == Some(
                (p.0@, s@.skip(p.1 as int)),
            ),
            None => parse_secret(s@.skip(i as int)) is None,
        },
{
    let j1 = match expect_lit(s, i, "{\n      \"name\": \"") {
        Some(j) => j,
        None => {
            return None;
        },
    };
    let (name, j2) = match parse_string_at(s, j1) {
        Some(p) => p,
        None => {
            return None;
        },
    };
    let j3 = match expect_lit(s, j2, ",\n      \"shared_secret\": \"") {
        Some(j) => j,
        None => {
            return None;
        },
    };
    let (ss, j4) = match parse_string_at(s, j3) {
        Some(p) => p,
        None => {
            return None;
        },
    };
    let j5 = match expect_lit(s, j4, "\n    }") {
        Some(j) => j,
        None => {
            return None;
        },
    };
    proof {
        reveal_strlit("{\n      \"name\": \"");
    }
    Some((Secret { name, shared_secret: ss }, j5))
}

/// `o` with `p` put before its parsed entries.
spec fn items_prepend(p: Seq<SecretView>, o: Option<(Seq<SecretView>, Seq<char>)>) -> Option<
    (Seq<SecretView>, Seq<char>),
> {
    match o {
        Some(q) => Some((p + q.0, q.1)),
        None => None,
    }
}

proof fn lemma_items_prepend_assoc(
    a: Seq<SecretView>,
    b: Seq<SecretView>,
    o: Option<(Seq<SecretView>, Seq<char>)>,
)
    ensures
        items_prepend(a + b, o) == items_prepend(a, items_prepend(b, o)),
{
    match o {
        Some(q) => {
            assert((a + b) + q.0 =~= a + (b + q.0));
        },
        None => {},
    }
}

fn parse_items_at(s: &str, i: usize) -> (r: Option<(Vec<Secret>, usize)>)
    requires
        i <= s@.len(),
    ensures
        match r {
            Some(p) => p.1 <= s@.len() && parse_items(s@.skip(i as int)) == Some(
                (secrets_view(p.0@), s@.skip(p.1 as int)),
            ),
            None => parse_items(s@.skip(i as int)) is None,
        },
{
    let n = s.unicode_len();
    let mut acc: Vec<Secret> = Vec::new();
    let mut k: usize = i;
    proof {
        assert(secrets_view(acc@) =~= Seq::<SecretView>::empty());
        match parse_items(s@.skip(i as int)) {
            Some(q) => {
                assert(Seq::<SecretView>::empty() + q.0 =~= q.0);
            },
            None => {},
        }
    }
    loop
        invariant
            i <= k <= n,
            n == s@.len(),
            parse_items(s@.skip(i as int)) == items_prepend(
                secrets_view(acc@),
                parse_items(s@.skip(k as int)),
            ),
        decreases n - k,
    {
        let j1 = match expect_lit(s, k, "\n    ") {
            Some(j) => j,
            None => {
                return None;
            },
        };
        let (sec, j2) = match parse_secret_at(s, j1) {
            Some(p) => p,
            None => {
                return None;
            },
        };
        if j2 < n && s.get_char(j2) == ',' {
            let ghost pre = secrets_view(acc@);
            let ghost sv = sec@;
            acc.push(sec);
            proof {
                assert(s@.skip(j2 as int)[0] == s@[j2 as int]);
                assert(s@.skip(j2 as int).skip(1) =~= s@.skip(j2 + 1));
                assert(parse_items(s@.skip(k as int)) == items_prepend(
                    seq![sv],
                    parse_items(s@.skip(j2 + 1)),
                ));
                lemma_items_prepend_assoc(pre, seq![sv], parse_items(s@.skip(j2 + 1)));
                assert(secrets_view(acc@) =~= pre + seq![sv]);
            }
            k = j2 + 1;
        } else {
            let j3 = match expect_lit(s, j2, "\n  ]\n}") {
                Some(j) => j,
                None => {
                    proof {
                        if j2 < n {
                            assert(s@.skip(j2 as int)[0] == s@[j2 as int]);
                        } else {
                            assert(s@.skip(j2 as int).len() == 0);
                        }
                    }
                    return None;
                },
            };
            let ghost pre = secrets_view(acc@);
            let ghost sv = sec@;
            acc.push(sec);
            proof {
                if j2 < n {
                    assert(s@.skip(j2 as int)[0] == s@[j2 as int]);
                } else {
                    assert(s@.skip(j2 as int).len() == 0);
                }
                assert(parse_items(s@.skip(k as int)) == Some(
                    (seq![sv], s@.skip(j3 as int)),
                ));
                assert(secrets_view(acc@) =~= pre + seq![sv]);
            }
            return Some((acc, j3));
        }
    }
}

/// Reads a configuration document, accepting exactly the layout that
/// [`config_to_json`] writes.
pub fn config_from_json(s: &str) -> (r: Option<Config>)
    ensures
        match r {
            Some(c) => parse_config(s@) == Some(c@),
            None => parse_config(s@) is None,
        },
{
    proof {
        assert(s@.skip(0) =~= s@);
    }
    let n = s.unicode_len();
    let j1 = match expect_lit(s, 0, "{\n  \"secrets\": [") {
        Some(j) => j,
        None => {
            return None;
        },
    };
    if j1 < n && s.get_char(j1) == ']' {
        proof {
            assert(s@.skip(j1 as int)[0] == s@[j1 as int]);
        }
        let j2 = match expect_lit(s, j1, "]\n}") {
            Some(j) => j,
            None => {
                return None;
            },
        };
        if j2 == n {
            let c = Config { secrets: Vec::new() };
            proof {
                assert(c@ =~= Seq::<SecretView>::empty());
                assert(s@.skip(j2 as int).len() == 0);
            }
            Some(c)
        } else {
            proof {
                assert(s@.skip(j2 as int).len() > 0);
            }
            None
        }
    } else {
        proof {
            if j1 < n {
                assert(s@.skip(j1 as int)[0] == s@[j1 as int]);
            } else {
                assert(s@.skip(j1 as int).len() == 0);
            }
        }
        let p = match parse_items_at(s, j1) {
            Some(p) => p,
            None => {
                return None;
            },
        };
        let (v, j2) = p;
        if j2 == n {
            proof {
                assert(s@.skip(j2 as int).len() == 0);
            }
            Some(Config { secrets: v })
        } else {
            proof {
                assert(s@.skip(j2 as int).len() > 0);
            }
            None
        }
    }
}

/// The configuration read back from the file's text: the stored list
/// when the text is this module's layout, and the empty list when the
/// file is missing (`None`) or holds anything else.
pub fn load_config(text: Option<&str>) -> (c: Config)
    ensures
        match text {
            Some(t) => (parse_config(t@) matches Some(vs) ==> c@ == vs) && (parse_config(t@)
                is None ==> c@ == Seq::<SecretView>::empty()),
            None => c@ == Seq::<SecretView>::empty(),
        },
{
    match text {
        Some(t) => match config_from_json(t) {
            Some(c) => c,
            None => Config::new(),
        },
        None => Config::new(),
    }
}

/// Parsing the encoding of any secret list yields exactly that list: a
/// stored configuration reloads to the same ordered secrets.
pub proof fn lemma_json_round_trip(vs: Seq<SecretView>)
    ensures
        parse_config(enc_config(vs)) == Some(vs),
{
    reveal_strlit("]\n}");
    reveal_strlit("\n    ");
    if vs.len() == 0 {
        lemma_parse_lit_prefix(lit_head(), lit_etail());
        let r = lit_etail();
        assert(r[0] == ']');
        lemma_parse_lit_prefix(lit_etail(), Seq::<char>::empty());
        assert(lit_etail() + Seq::<char>::empty() =~= lit_etail());
        assert(vs =~= Seq::<SecretView>::empty());
    } else {
        let body = enc_items(vs) + lit_tail();
        assert(enc_config(vs) =~= lit_head() + body);
        lemma_parse_lit_prefix(lit_head(), body);
        assert(enc_items(vs)[0] == lit_ipre()[0]);
        assert(body[0] == lit_ipre()[0]);
        assert(lit_ipre()[0] == '\n');
        assert(enc_items(vs) + (lit_tail() + Seq::<char>::empty()) =~= body);
        lemma_parse_items_enc(vs, Seq::<char>::empty());
    }
}

} // verus!
