//! The record codec: each record is one JSON document, `{"Set":[key,value]}`
//! or `{"Rm":key}`, written back to back with no separator. Strings are
//! quoted and unquoted by serde_json; the framing around them is read here.

use vstd::prelude::*;

use crate::error::KvsError;
use vstd::utf8::encode_utf8;

verus! {


/// What serde_json reads as a string from a JSON string token, if anything.
pub uninterp spec fn json_unescape(t: Seq<u8>) -> Option<Seq<char>>;

pub const QUOTE: u8 = 34;

pub const BACKSLASH: u8 = 92;

pub const COMMA: u8 = 44;

pub const CLOSE_BRACKET: u8 = 93;

pub const CLOSE_BRACE: u8 = 125;

/// A lowercase hexadecimal digit.
pub open spec fn hex_digit(d: u8) -> u8 {
    if d < 10 {
        (48 + d) as u8
    } else {
        (87 + d) as u8
    }
}

/// How serde_json writes one byte of a string: `"`, `\` and the control
/// bytes are escaped, every other byte stands for itself.
pub open spec fn escape_byte(b: u8) -> Seq<u8> {
    if b == QUOTE {
        seq![BACKSLASH, QUOTE]
    } else if b == BACKSLASH {
        seq![BACKSLASH, BACKSLASH]
    } else if b == 8 {
        seq![BACKSLASH, 98u8]
    } else if b == 9 {
        seq![BACKSLASH, 116u8]
    } else if b == 10 {
        seq![BACKSLASH, 110u8]
    } else if b == 12 {
        seq![BACKSLASH, 102u8]
    } else if b == 13 {
        seq![BACKSLASH, 114u8]
    } else if b < 32 {
        seq![BACKSLASH, 117u8, 48u8, 48u8, hex_digit(b / 16), hex_digit(b % 16)]
    } else {
        seq![b]
    }
}

pub open spec fn escape_bytes(s: Seq<u8>) -> Seq<u8>
    decreases s.len(),
{
    if s.len() == 0 {
        Seq::empty()
    } else {
        escape_byte(s[0]) + escape_bytes(s.drop_first())
    }
}

/// What serde_json writes for a string: its UTF-8 bytes, escaped, in quotes.
pub open spec fn json_string(s: Seq<char>) -> Seq<u8> {
    seq![QUOTE] + escape_bytes(encode_utf8(s)) + seq![QUOTE]
}

/// A record as the codec sees it: the key, and the value of a `Set` or
/// nothing for a tombstone.
pub type RecordView = (Seq<char>, Option<Seq<char>>);

/// `{"Set":[`
pub open spec fn set_head() -> Seq<u8> {
    seq![123u8, 34u8, 83u8, 101u8, 116u8, 34u8, 58u8, 91u8]
}

/// `{"Rm":`
pub open spec fn rm_head() -> Seq<u8> {
    seq![123u8, 34u8, 82u8, 109u8, 34u8, 58u8]
}

/// The bytes of one record: `{"Set":["<key>","<value>"]}` or `{"Rm":"<key>"}`.
pub open spec fn record_bytes(r: RecordView) -> Seq<u8> {
    match r.1 {
        Some(v) => set_head() + json_string(r.0) + seq![COMMA] + json_string(v) + seq![
            CLOSE_BRACKET,
            CLOSE_BRACE,
        ],
        None => rm_head() + json_string(r.0) + seq![CLOSE_BRACE],
    }
}

/// From inside a string token at `i`, the index just past its closing quote.
/// A backslash takes the byte after it along.
pub open spec fn scan_from(b: Seq<u8>, i: int) -> Option<nat>
    decreases b.len() - i,
{
    if i < 0 || i >= b.len() {
        None
    } else if b[i] == QUOTE {
        Some((i + 1) as nat)
    } else if b[i] == BACKSLASH {
        if i + 1 >= b.len() {
            None
        } else {
            scan_from(b, i + 2)
        }
    } else {
        scan_from(b, i + 1)
    }
}

/// The end of the string token that starts at `at`, if one does.
pub open spec fn token_end(b: Seq<u8>, at: int) -> Option<nat> {
    if 0 <= at < b.len() && b[at] == QUOTE {
        scan_from(b, at + 1)
    } else {
        None
    }
}

/// The string whose token starts at `at`, and the index past the token.
pub open spec fn parse_string(b: Seq<u8>, at: int) -> Option<(Seq<char>, nat)> {
    match token_end(b, at) {
        Some(e) => match json_unescape(b.subrange(at, e as int)) {
            Some(s) => Some((s, e)),
            None => None,
        },
        None => None,
    }
}

pub open spec fn has_at(b: Seq<u8>, at: int, h: Seq<u8>) -> bool {
    0 <= at && at + h.len() <= b.len() && b.subrange(at, at + h.len()) == h
}

/// The record that starts at `at`, and the index past it.
pub open spec fn parse_record(b: Seq<u8>, at: int) -> Option<(RecordView, nat)> {
    if has_at(b, at, set_head()) {
        match parse_string(b, at + 8) {
            Some((k, e1)) => if e1 < b.len() && b[e1 as int] == COMMA {
                match parse_string(b, (e1 + 1) as int) {
                    Some((v, e2)) => if e2 + 2 <= b.len() && b[e2 as int] == CLOSE_BRACKET
                        && b[(e2 + 1) as int] == CLOSE_BRACE {
                        Some(((k, Some(v)), (e2 + 2) as nat))
                    } else {
                        None
                    },
                    None => None,
                }
            } else {
                None
            },
            None => None,
        }
    } else if has_at(b, at, rm_head()) {
        match parse_string(b, at + 6) {
            Some((k, e1)) => if e1 < b.len() && b[e1 as int] == CLOSE_BRACE {
                Some(((k, None), (e1 + 1) as nat))
            } else {
                None
            },
            None => None,
        }
    } else {
        None
    }
}

/// `b` holds exactly the one record `r`.
pub open spec fn holds_record(b: Seq<u8>, r: RecordView) -> bool {
    parse_record(b, 0) == Some((r, b.len()))
}

/// Relies on serde_json::to_vec on a `str`: it writes the string's UTF-8
/// bytes between quotes, escaping `"`, `\` and the control bytes as its escape
/// table says, and serde_json::from_slice reads that token back as the same
/// string.
#[verifier::external_body]
fn quote(s: &str) -> (r: Vec<u8>)
    ensures
        r@ == json_string(s@),
        json_unescape(r@) == Some(s@),
{
    match serde_json::to_vec(s) {
        Ok(v) => v,
        Err(_) => Vec::new(),
    }
}

/// Relies on serde_json::from_slice::<String>: reads a JSON string token.
#[verifier::external_body]
fn unquote(t: &[u8]) -> (r: Option<String>)
    ensures
        match r {
            Some(s) => json_unescape(t@) == Some(s@),
            None => json_unescape(t@) is None,
        },
{
    serde_json::from_slice::<String>(t).ok()
}

/// One log record: a `Put` of a key to a value (written as `Set`), or a tombstone `Rm` of a key.
#[derive(Debug, Clone, PartialEq, Eq)]
pub enum Log {
    Put(String, String),
    Rm(String),
}

impl View for Log {
    type V = RecordView;

    open spec fn view(&self) -> RecordView {
        match self {
            Log::Put(k, v) => (k@, Some(v@)),
            Log::Rm(k) => (k@, None),
        }
    }
}

proof fn lemma_scan_shift(x: Seq<u8>, p: Seq<u8>, s: Seq<u8>, i: int, n: nat)
    requires
        0 <= i,
        scan_from(x, i) == Some(n),
    ensures
        scan_from(p + x + s, p.len() + i) == Some(p.len() + n),
    decreases x.len() - i,
{
    let b = p + x + s;
    assert(b[p.len() + i] == x[i]);
    if x[i] == QUOTE {
    } else if x[i] == BACKSLASH {
        lemma_scan_shift(x, p, s, i + 2, n);
    } else {
        lemma_scan_shift(x, p, s, i + 1, n);
    }
}

proof fn lemma_scan_bound(x: Seq<u8>, i: int, n: nat)
    requires
        scan_from(x, i) == Some(n),
    ensures
        i < n <= x.len(),
    decreases x.len() - i,
{
    if 0 <= i < x.len() && x[i] != QUOTE {
        if x[i] == BACKSLASH {
            lemma_scan_bound(x, i + 2, n);
        } else {
            lemma_scan_bound(x, i + 1, n);
        }
    }
}

proof fn lemma_string_shift(x: Seq<u8>, p: Seq<u8>, s: Seq<u8>, at: int)
    requires
        0 <= at,
        parse_string(x, at) is Some,
    ensures
        parse_string(p + x + s, p.len() + at) == (match parse_string(x, at) {
            Some((k, e)) => Some((k, p.len() + e)),
            None => None,
        }),
{
    let b = p + x + s;
    let e = token_end(x, at)->Some_0;
    lemma_scan_shift(x, p, s, at + 1, e);
    lemma_scan_bound(x, at + 1, e);
    assert(b[p.len() + at] == x[at]);
    assert(b.subrange(p.len() + at, (p.len() + e) as int) =~= x.subrange(at, e as int));
}

/// A record read in the middle of other bytes is read as it is read alone.
pub proof fn lemma_record_in_context(x: Seq<u8>, p: Seq<u8>, s: Seq<u8>, r: RecordView)
    requires
        holds_record(x, r),
    ensures
        parse_record(p + x + s, p.len() as int) == Some((r, p.len() + x.len())),
{
    let b = p + x + s;
    let q = p.len() as int;
    assert forall|i: int| 0 <= i < x.len() implies b[q + i] == x[i] by {}
    if has_at(x, 0, set_head()) {
        assert(b.subrange(q, q + 8) =~= x.subrange(0, 8));
        let (k, e1) = parse_string(x, 8)->Some_0;
        lemma_string_shift(x, p, s, 8);
        let (v, e2) = parse_string(x, (e1 + 1) as int)->Some_0;
        lemma_string_shift(x, p, s, (e1 + 1) as int);
        assert(b[q + e1] == x[e1 as int]);
        assert(b[q + e2] == x[e2 as int]);
        assert(b[q + e2 + 1] == x[(e2 + 1) as int]);
    } else {
        assert(b.subrange(q, q + 8) =~= x.subrange(0, 8)) by {
            if x.len() >= 8 {
            }
        };
        assert(has_at(x, 0, rm_head()));
        assert(b.subrange(q, q + 6) =~= x.subrange(0, 6));
        assert(!has_at(b, q, set_head())) by {
            if has_at(b, q, set_head()) {
                assert(b[q + 2] == 83u8);
                assert(b.subrange(q, q + 6)[2] == x.subrange(0, 6)[2]);
            }
        };
        let (k, e1) = parse_string(x, 6)->Some_0;
        lemma_string_shift(x, p, s, 6);
        assert(b[q + e1] == x[e1 as int]);
    }
}

proof fn lemma_scan_restrict(b: Seq<u8>, off: int, e: int, i: int, n: nat)
    requires
        0 <= off <= i,
        e <= b.len(),
        scan_from(b, i) == Some(n),
        n <= e,
    ensures
        scan_from(b.subrange(off, e), i - off) == Some((n - off) as nat),
    decreases b.len() - i,
{
    let x = b.subrange(off, e);
    lemma_scan_bound(b, i, n);
    assert(x[i - off] == b[i]);
    if b[i] == QUOTE {
    } else if b[i] == BACKSLASH {
        lemma_scan_bound(b, i + 2, n);
        lemma_scan_restrict(b, off, e, i + 2, n);
    } else {
        lemma_scan_restrict(b, off, e, i + 1, n);
    }
}

proof fn lemma_string_bound(b: Seq<u8>, at: int)
    requires
        parse_string(b, at) is Some,
    ensures
        at + 1 < parse_string(b, at)->Some_0.1 <= b.len(),
{
    lemma_scan_bound(b, at + 1, token_end(b, at)->Some_0);
}

proof fn lemma_string_restrict(b: Seq<u8>, off: int, e: int, at: int)
    requires
        0 <= off <= at,
        e <= b.len(),
        parse_string(b, at) is Some,
        parse_string(b, at)->Some_0.1 <= e,
    ensures
        parse_string(b.subrange(off, e), at - off) == Some(
            (parse_string(b, at)->Some_0.0, (parse_string(b, at)->Some_0.1 - off) as nat),
        ),
        at + 1 < parse_string(b, at)->Some_0.1,
{
    let x = b.subrange(off, e);
    let n = token_end(b, at)->Some_0;
    lemma_scan_bound(b, at + 1, n);
    lemma_scan_restrict(b, off, e, at + 1, n);
    assert(x[at - off] == b[at]);
    assert(x.subrange(at - off, n - off) =~= b.subrange(at, n as int));
}

/// A record read at `off` in `b` is, alone, exactly the bytes it was read from.
pub proof fn lemma_record_restrict(b: Seq<u8>, off: int)
    requires
        0 <= off,
        parse_record(b, off) is Some,
    ensures
        off < parse_record(b, off)->Some_0.1 <= b.len(),
        holds_record(
            b.subrange(off, parse_record(b, off)->Some_0.1 as int),
            parse_record(b, off)->Some_0.0,
        ),
{
    let (r, e) = parse_record(b, off)->Some_0;
    let x = b.subrange(off, e as int);
    if has_at(b, off, set_head()) {
        let (k, e1) = parse_string(b, off + 8)->Some_0;
        let (v, e2) = parse_string(b, (e1 + 1) as int)->Some_0;
        lemma_string_bound(b, off + 8);
        lemma_string_bound(b, (e1 + 1) as int);
        lemma_string_restrict(b, off, e as int, off + 8);
        lemma_string_restrict(b, off, e as int, (e1 + 1) as int);
        assert(x.subrange(0, 8) =~= b.subrange(off, off + 8));
        assert(x[e1 - off] == b[e1 as int]);
        assert(x[e2 - off] == b[e2 as int]);
        assert(x[e2 + 1 - off] == b[(e2 + 1) as int]);
    } else {
        let (k, e1) = parse_string(b, off + 6)->Some_0;
        lemma_string_bound(b, off + 6);
        lemma_string_restrict(b, off, e as int, off + 6);
        assert(x.subrange(0, 6) =~= b.subrange(off, off + 6));
        assert(b.subrange(off, off + 6)[2] == b[off + 2]);
        assert(!has_at(x, 0, set_head())) by {
            if has_at(x, 0, set_head()) {
                assert(x.subrange(0, 8)[2] == x[2]);
            }
        };
        assert(x[e1 - off] == b[e1 as int]);
    }
}

proof fn lemma_scan_unit(b: Seq<u8>, i: int, c: u8)
    requires
        0 <= i,
        i + escape_byte(c).len() < b.len(),
        forall|j: int| 0 <= j < escape_byte(c).len() ==> b[i + j] == #[trigger] escape_byte(c)[j],
    ensures
        scan_from(b, i) == scan_from(b, i + escape_byte(c).len()),
{
    let u = escape_byte(c);
    assert(b[i] == u[0]);
    if u.len() == 6 {
        assert(b[i + 2] == u[2]);
        assert(b[i + 3] == u[3]);
        assert(b[i + 4] == u[4]);
        assert(b[i + 5] == u[5]);
        assert(scan_from(b, i + 5) == scan_from(b, i + 6));
        assert(scan_from(b, i + 4) == scan_from(b, i + 5));
        assert(scan_from(b, i + 3) == scan_from(b, i + 4));
        assert(scan_from(b, i + 2) == scan_from(b, i + 3));
    }
}

proof fn lemma_scan_escaped(p: Seq<u8>, x: Seq<u8>, t: Seq<u8>)
    ensures
        scan_from(p + escape_bytes(x) + seq![QUOTE] + t, p.len() as int) == Some(
            (p.len() + escape_bytes(x).len() + 1) as nat,
        ),
    decreases x.len(),
{
    let b = p + escape_bytes(x) + seq![QUOTE] + t;
    if x.len() == 0 {
        assert(b[p.len() as int] == QUOTE);
    } else {
        let u = escape_byte(x[0]);
        let p2 = p + u;
        assert(b =~= p2 + escape_bytes(x.drop_first()) + seq![QUOTE] + t);
        lemma_scan_escaped(p2, x.drop_first(), t);
        assert forall|j: int| 0 <= j < u.len() implies b[p.len() + j] == #[trigger] u[j] by {
            assert(b[p.len() + j] == p2[p.len() + j]);
        }
        lemma_scan_unit(b, p.len() as int, x[0]);
    }
}

/// A string written by serde_json is one token: the first unescaped quote
/// after the opening one is its last byte.
proof fn lemma_json_string_token(s: Seq<char>)
    ensures
        token_end(json_string(s), 0) == Some(json_string(s).len()),
{
    let e = escape_bytes(encode_utf8(s));
    lemma_scan_escaped(seq![QUOTE], encode_utf8(s), Seq::empty());
    let b = json_string(s);
    assert(seq![QUOTE] + e + seq![QUOTE] + Seq::<u8>::empty() =~= b);
    assert(b[0] == QUOTE);
    assert(b.len() == e.len() + 2);
}

/// `parse_string` of a token written by serde_json, followed by anything.
proof fn lemma_quoted_in_context(q: Seq<u8>, k: Seq<char>, p: Seq<u8>, s: Seq<u8>)
    requires
        token_end(q, 0) == Some(q.len()),
        json_unescape(q) == Some(k),
    ensures
        parse_string(p + q + s, p.len() as int) == Some((k, p.len() + q.len())),
{
    assert(q.subrange(0, q.len() as int) =~= q);
    lemma_string_shift(q, p, s, 0);
}

/// The bytes `encode` writes hold exactly the record they were made from.
proof fn lemma_encoded_record(r: RecordView, kq: Seq<u8>, vq: Seq<u8>)
    requires
        kq == json_string(r.0),
        token_end(kq, 0) == Some(kq.len()),
        json_unescape(kq) == Some(r.0),
        r.1 is Some ==> vq == json_string(r.1->Some_0),
        r.1 is Some ==> token_end(vq, 0) == Some(vq.len()),
        r.1 is Some ==> json_unescape(vq) == Some(r.1->Some_0),
    ensures
        holds_record(record_bytes(r), r),
{
    let b = record_bytes(r);
    if r.1 is Some {
        let tail = seq![CLOSE_BRACKET, CLOSE_BRACE];
        let p2 = set_head() + kq + seq![COMMA];
        assert(b =~= set_head() + kq + (seq![COMMA] + vq + tail));
        assert(b =~= p2 + vq + tail);
        assert(b.subrange(0, 8) =~= set_head());
        lemma_quoted_in_context(kq, r.0, set_head(), seq![COMMA] + vq + tail);
        assert(b[(8 + kq.len()) as int] == COMMA);
        lemma_quoted_in_context(vq, r.1->Some_0, p2, tail);
        assert(b[(9 + kq.len() + vq.len()) as int] == CLOSE_BRACKET);
        assert(b[(10 + kq.len() + vq.len()) as int] == CLOSE_BRACE);
    } else {
        assert(b =~= rm_head() + kq + seq![CLOSE_BRACE]);
        assert(b.subrange(0, 6) =~= rm_head());
        assert(!has_at(b, 0, set_head())) by {
            if has_at(b, 0, set_head()) {
                assert(b.subrange(0, 8)[2] == b[2]);
            }
        };
        lemma_quoted_in_context(kq, r.0, rm_head(), seq![CLOSE_BRACE]);
        assert(b[(6 + kq.len()) as int] == CLOSE_BRACE);
    }
}

fn set_head_bytes() -> (r: Vec<u8>)
    ensures
        r@ == set_head(),
{
    let r = vec![123u8, 34u8, 83u8, 101u8, 116u8, 34u8, 58u8, 91u8];
    assert(r@ =~= set_head());
    r
}

fn rm_head_bytes() -> (r: Vec<u8>)
    ensures
        r@ == rm_head(),
{
    let r = vec![123u8, 34u8, 82u8, 109u8, 34u8, 58u8];
    assert(r@ =~= rm_head());
    r
}

/// Whether `h` stands in `b` at `at`.
fn has_at_exec(b: &[u8], at: usize, h: &[u8]) -> (r: bool)
    ensures
        r == has_at(b@, at as int, h@),
{
    if at > b.len() || h.len() > b.len() - at {
        return false;
    }
    let mut i: usize = 0;
    while i < h.len()
        invariant
            at + h@.len() <= b@.len(),
            b@.len() <= usize::MAX,
            0 <= i <= h@.len(),
            forall|j: int| 0 <= j < i ==> b@[at + j] == h@[j],
        decreases h.len() - i,
    {
        if b[at + i] != h[i] {
            assert(b@.subrange(at as int, at + h@.len())[i as int] != h@[i as int]);
            return false;
        }
        i = i + 1;
    }
    assert(b@.subrange(at as int, at + h@.len()) =~= h@);
    true
}

/// The end of the string token that starts at `at`, if one does.
fn token_end_exec(b: &[u8], at: usize) -> (r: Option<usize>)
    ensures
        match r {
            Some(e) => token_end(b@, at as int) == Some(e as nat),
            None => token_end(b@, at as int) is None,
        },
{
    if at >= b.len() || b[at] != QUOTE {
        return None;
    }
    let mut i: usize = at + 1;
    while i < b.len()
        invariant
            at < i <= b@.len(),
            token_end(b@, at as int) == scan_from(b@, i as int),
        decreases b.len() - i,
    {
        if b[i] == QUOTE {
            return Some(i + 1);
        }
        if b[i] == BACKSLASH {
            if i + 1 >= b.len() {
                return None;
            }
            i = i + 2;
        } else {
            i = i + 1;
        }
    }
    None
}

fn copy_range(b: &[u8], from: usize, to: usize) -> (r: Vec<u8>)
    requires
        from <= to <= b@.len(),
    ensures
        r@ == b@.subrange(from as int, to as int),
{
    let mut r: Vec<u8> = Vec::new();
    let mut i: usize = from;
    while i < to
        invariant
            from <= i <= to <= b@.len(),
            r@ == b@.subrange(from as int, i as int),
        decreases to - i,
    {
        r.push(b[i]);
        i = i + 1;
        assert(r@ =~= b@.subrange(from as int, i as int));
    }
    r
}

/// The string whose token starts at `at`, and the index past the token.
fn parse_string_exec(b: &[u8], at: usize) -> (r: Option<(String, usize)>)
    ensures
        match r {
            Some((s, e)) => parse_string(b@, at as int) == Some((s@, e as nat)),
            None => parse_string(b@, at as int) is None,
        },
{
    match token_end_exec(b, at) {
        None => None,
        Some(e) => {
            proof {
                lemma_scan_bound(b@, at + 1, e as nat);
            }
            let t = copy_range(b, at, e);
            match unquote(t.as_slice()) {
                Some(s) => Some((s, e)),
                None => None,
            }
        },
    }
}

impl Log {
    /// The key the record is about.
    pub fn key(&self) -> (r: &String)
        ensures
            r@ == self@.0,
    {
        match self {
            Log::Put(k, _) => k,
            Log::Rm(k) => k,
        }
    }

    /// The bytes of the record; read back, they give the same record.
    pub fn encode(&self) -> (r: Vec<u8>)
        ensures
            r@ == record_bytes(self@),
            holds_record(r@, self@),
    {
        match self {
            Log::Put(k, v) => {
                let mut out = set_head_bytes();
                let mut kq = quote(k.as_str());
                let mut vq = quote(v.as_str());
                proof {
                    lemma_json_string_token(k@);
                    lemma_json_string_token(v@);
                    lemma_encoded_record(self@, kq@, vq@);
                }
                out.append(&mut kq);
                out.push(COMMA);
                out.append(&mut vq);
                out.push(CLOSE_BRACKET);
                out.push(CLOSE_BRACE);
                assert(out@ =~= record_bytes(self@));
                out
            },
            Log::Rm(k) => {
                let mut out = rm_head_bytes();
                let mut kq = quote(k.as_str());
                proof {
                    lemma_json_string_token(k@);
                    lemma_encoded_record(self@, kq@, Seq::empty());
                }
                out.append(&mut kq);
                out.push(CLOSE_BRACE);
                assert(out@ =~= record_bytes(self@));
                out
            },
        }
    }

    /// The record that starts at `at` in `b`, and the index past it.
    pub fn decode_at(b: &[u8], at: usize) -> (r: Option<(Log, usize)>)
        ensures
            match r {
                Some((l, e)) => parse_record(b@, at as int) == Some((l@, e as nat)),
                None => parse_record(b@, at as int) is None,
            },
    {
        let n: usize = b.len();
        let sh = set_head_bytes();
        let rh = rm_head_bytes();
        assert(set_head().len() == 8 && rm_head().len() == 6);
        if has_at_exec(b, at, sh.as_slice()) {
            let (k, e1) = match parse_string_exec(b, at + 8) {
                Some(x) => x,
                None => return None,
            };
            if e1 >= b.len() || b[e1] != COMMA {
                return None;
            }
            let (v, e2) = match parse_string_exec(b, e1 + 1) {
                Some(x) => x,
                None => return None,
            };
            if e2 >= b.len() || b.len() - e2 < 2 || b[e2] != CLOSE_BRACKET || b[e2 + 1]
                != CLOSE_BRACE {
                return None;
            }
            Some((Log::Put(k, v), e2 + 2))
        } else if has_at_exec(b, at, rh.as_slice()) {
            let (k, e1) = match parse_string_exec(b, at + 6) {
                Some(x) => x,
                None => return None,
            };
            if e1 >= b.len() || b[e1] != CLOSE_BRACE {
                return None;
            }
            Some((Log::Rm(k), e1 + 1))
        } else {
            None
        }
    }

    /// Reads `b` as exactly one record.
    pub fn decode(b: &[u8]) -> (r: Result<Log, KvsError>)
        ensures
            match r {
                Ok(l) => holds_record(b@, l@),
                Err(e) => (forall|v: RecordView| !holds_record(b@, v)) && e is Inner,
            },
    {
        match Log::decode_at(b, 0) {
            Some((l, e)) => if e == b.len() {
                Ok(l)
            } else {
                Err(KvsError::Inner("the bytes do not hold exactly one record".to_owned()))
            },
            None => Err(KvsError::Inner("the bytes do not hold a record".to_owned())),
        }
    }
}

} // verus!
