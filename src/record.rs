//! The cache record and its file format.
//!
//! A record is stored as one line of JSON with three fields, in this order:
//! `{"status":200,"headers":[["6e616d65","76616c7565"]],"body":"6f6b"}`.
//! The status is a decimal integer. Header names, header values and the body
//! are byte strings written as lowercase hex, so that bytes that are not text
//! keep their value. Only this exact form is read back; any other file content
//! reads as no record.
use vstd::prelude::*;
use vstd::slice::slice_subrange;
use vstd::string::is_ascii_spec_bytes;
use crate::digest::{hex_decode, hex_decoded, hex_digit, hex_encode, hex_lower, hex_text, hex_value, is_hex_char, unhex};

verus! {

/// A captured response: status, headers in order (duplicates kept), and body.
pub struct CacheRecord {
    pub status: u16,
    pub headers: Vec<(Vec<u8>, Vec<u8>)>,
    pub body: Vec<u8>,
}

pub struct RecordView {
    pub status: u16,
    pub headers: Seq<(Seq<u8>, Seq<u8>)>,
    pub body: Seq<u8>,
}

pub open spec fn headers_view(hs: Seq<(Vec<u8>, Vec<u8>)>) -> Seq<(Seq<u8>, Seq<u8>)> {
    hs.map_values(|h: (Vec<u8>, Vec<u8>)| (h.0@, h.1@))
}

impl View for CacheRecord {
    type V = RecordView;

    open spec fn view(&self) -> RecordView {
        RecordView { status: self.status, headers: headers_view(self.headers@), body: self.body@ }
    }
}

// ASCII codes of the punctuation of the format.
pub open spec fn quote() -> u8 { 34 }
pub open spec fn comma() -> u8 { 44 }
pub open spec fn open_bracket() -> u8 { 91 }
pub open spec fn close_bracket() -> u8 { 93 }
pub open spec fn close_brace() -> u8 { 125 }

/// `{"status":`
pub open spec fn status_key() -> Seq<u8> {
    seq![123u8, 34, 115, 116, 97, 116, 117, 115, 34, 58]
}

/// `,"headers":`
pub open spec fn headers_key() -> Seq<u8> {
    seq![44u8, 34, 104, 101, 97, 100, 101, 114, 115, 34, 58]
}

/// `,"body":`
pub open spec fn body_key() -> Seq<u8> {
    seq![44u8, 34, 98, 111, 100, 121, 34, 58]
}

/// A byte string as a quoted hex string.
pub open spec fn quoted(d: Seq<u8>) -> Seq<u8> {
    seq![quote()] + hex_lower(d) + seq![quote()]
}

/// One header as a two-element array.
pub open spec fn header_text(h: (Seq<u8>, Seq<u8>)) -> Seq<u8> {
    seq![open_bracket()] + quoted(h.0) + seq![comma()] + quoted(h.1) + seq![close_bracket()]
}

/// The headers after the first, each preceded by a comma, then the closing bracket.
pub open spec fn more_text(hs: Seq<(Seq<u8>, Seq<u8>)>) -> Seq<u8>
    decreases hs.len(),
{
    if hs.len() == 0 {
        seq![close_bracket()]
    } else {
        seq![comma()] + header_text(hs[0]) + more_text(hs.drop_first())
    }
}

/// The header list as a JSON array.
pub open spec fn list_text(hs: Seq<(Seq<u8>, Seq<u8>)>) -> Seq<u8> {
    if hs.len() == 0 {
        seq![open_bracket(), close_bracket()]
    } else {
        seq![open_bracket()] + header_text(hs[0]) + more_text(hs.drop_first())
    }
}

/// A number in decimal digits, without leading zeros.
pub open spec fn decimal(n: nat) -> Seq<u8>
    decreases n,
{
    if n < 10 {
        seq![(48 + n) as u8]
    } else {
        decimal(n / 10) + seq![(48 + n % 10) as u8]
    }
}

/// The file content that stores a record.
pub open spec fn record_text(m: RecordView) -> Seq<u8> {
    status_key() + decimal(m.status as nat) + headers_key() + list_text(m.headers) + body_key()
        + quoted(m.body) + seq![close_brace()]
}

/// The record that a file content stores, if it stores one.
pub open spec fn stored_record(s: Seq<u8>) -> Option<RecordView> {
    if exists|m: RecordView| record_text(m) == s {
        Some(choose|m: RecordView| record_text(m) == s)
    } else {
        None
    }
}

fn push_quoted(out: &mut Vec<u8>, d: &[u8])
    ensures
        final(out)@ == old(out)@ + quoted(d@),
{
    broadcast use is_ascii_spec_bytes;
    out.push(34);
    let h = hex_encode(d);
    let hs = h.as_str();
    assert(vstd::string::is_ascii(hs));
    let hb = hs.as_bytes();
    assert(hb@ =~= hex_lower(d@));
    out.extend_from_slice(hb);
    out.push(34);
    assert(out@ =~= old(out)@ + quoted(d@));
}

fn push_decimal(out: &mut Vec<u8>, n: u16)
    ensures
        final(out)@ == old(out)@ + decimal(n as nat),
    decreases n,
{
    if n >= 10 {
        push_decimal(out, n / 10);
    }
    out.push(48 + (n % 10) as u8);
    assert(out@ =~= old(out)@ + decimal(n as nat));
}

fn push_header(out: &mut Vec<u8>, name: &[u8], value: &[u8])
    ensures
        final(out)@ == old(out)@ + header_text((name@, value@)),
{
    out.push(91);
    push_quoted(out, name);
    out.push(44);
    push_quoted(out, value);
    out.push(93);
    assert(out@ =~= old(out)@ + header_text((name@, value@)));
}

proof fn lemma_more_text_split(hs: Seq<(Seq<u8>, Seq<u8>)>, k: int)
    requires
        0 <= k < hs.len(),
    ensures
        more_text(hs.subrange(k, hs.len() as int)) == seq![comma()] + header_text(hs[k])
            + more_text(hs.subrange(k + 1, hs.len() as int)),
{
    assert(hs.subrange(k, hs.len() as int).drop_first() =~= hs.subrange(k + 1, hs.len() as int));
}

/// Writes a record in the file format.
pub fn encode_record(rec: &CacheRecord) -> (r: Vec<u8>)
    ensures
        r@ == record_text(rec@),
{
    let mut out: Vec<u8> = vec![123u8, 34, 115, 116, 97, 116, 117, 115, 34, 58];
    assert(out@ =~= status_key());
    push_decimal(&mut out, rec.status);
    let hk: Vec<u8> = vec![44u8, 34, 104, 101, 97, 100, 101, 114, 115, 34, 58];
    assert(hk@ =~= headers_key());
    out.extend_from_slice(hk.as_slice());
    let ghost hs = rec@.headers;
    let ghost start = out@;
    assert(start =~= status_key() + decimal(rec.status as nat) + headers_key());
    out.push(91);
    let n = rec.headers.len();
    let mut i: usize = 0;
    while i < n
        invariant
            n == rec.headers@.len(),
            hs == headers_view(rec.headers@),
            0 <= i <= n,
            i == 0 ==> out@ == start + seq![open_bracket()],
            i > 0 ==> out@ + more_text(hs.subrange(i as int, n as int)) == start + list_text(hs),
        decreases n - i,
    {
        let ghost before = out@;
        if i > 0 {
            out.push(44);
        }
        let h = &rec.headers[i];
        push_header(&mut out, h.0.as_slice(), h.1.as_slice());
        proof {
            lemma_more_text_split(hs, i as int);
            assert(hs[i as int] == (h.0@, h.1@));
            if i == 0 {
                assert(hs.subrange(1, n as int) =~= hs.drop_first());
                assert(out@ + more_text(hs.subrange(1, n as int)) =~= start + list_text(hs));
            } else {
                assert(out@ + more_text(hs.subrange(i + 1, n as int)) =~= before
                    + more_text(hs.subrange(i as int, n as int)));
                assert(out@ + more_text(hs.subrange(i + 1, n as int)) == before
                    + more_text(hs.subrange(i as int, n as int)));
            }
        }
        i = i + 1;
    }
    proof {
        if n == 0 {
            assert(out@ + seq![close_bracket()] =~= start + list_text(hs));
        } else {
            assert(out@ + more_text(hs.subrange(n as int, n as int)) == start + list_text(hs));
            assert(hs.subrange(n as int, n as int) =~= Seq::empty());
        }
    }
    out.push(93);
    assert(out@ =~= start + list_text(hs));
    let bk: Vec<u8> = vec![44u8, 34, 98, 111, 100, 121, 34, 58];
    assert(bk@ =~= body_key());
    out.extend_from_slice(bk.as_slice());
    push_quoted(&mut out, rec.body.as_slice());
    out.push(125);
    assert(out@ =~= record_text(rec@));
    out
}

// Reading: each step takes a position and gives the value read and the position after it.

pub open spec fn is_digit(c: u8) -> bool {
    48 <= c <= 57
}

/// The end of the run of decimal digits that starts at `p`.
pub open spec fn digit_run_end(s: Seq<u8>, p: int) -> int
    decreases s.len() - p,
{
    if 0 <= p < s.len() && is_digit(s[p]) {
        digit_run_end(s, p + 1)
    } else {
        p
    }
}

/// The end of the run of hex digits that starts at `p`.
pub open spec fn hex_run_end(s: Seq<u8>, p: int) -> int
    decreases s.len() - p,
{
    if 0 <= p < s.len() && is_hex_char(s[p]) {
        hex_run_end(s, p + 1)
    } else {
        p
    }
}

/// The number that a sequence of decimal digits stands for.
pub open spec fn digits_value(d: Seq<u8>) -> nat
    decreases d.len(),
{
    if d.len() == 0 {
        0
    } else {
        digits_value(d.drop_last()) * 10 + (d.last() - 48) as nat
    }
}

pub open spec fn lit_at(s: Seq<u8>, p: int, l: Seq<u8>) -> bool {
    0 <= p && p + l.len() <= s.len() && s.subrange(p, p + l.len()) == l
}

pub open spec fn byte_at(s: Seq<u8>, p: int, c: u8) -> bool {
    0 <= p < s.len() && s[p] == c
}

#[verifier::opaque]
pub open spec fn status_at(s: Seq<u8>, p: int) -> Option<(u16, int)> {
    let e = digit_run_end(s, p);
    if 0 <= p < e && digits_value(s.subrange(p, e)) <= 65535 {
        Some((digits_value(s.subrange(p, e)) as u16, e))
    } else {
        None
    }
}

#[verifier::opaque]
pub open spec fn field_at(s: Seq<u8>, p: int) -> Option<(Seq<u8>, int)> {
    if byte_at(s, p, quote()) {
        let e = hex_run_end(s, p + 1);
        if byte_at(s, e, quote()) {
            match hex_decoded(s.subrange(p + 1, e)) {
                Some(d) => Some((d, e + 1)),
                None => None,
            }
        } else {
            None
        }
    } else {
        None
    }
}

#[verifier::opaque]
pub open spec fn header_at(s: Seq<u8>, p: int) -> Option<((Seq<u8>, Seq<u8>), int)> {
    if byte_at(s, p, open_bracket()) {
        match field_at(s, p + 1) {
            Some((n, q)) => if byte_at(s, q, comma()) {
                match field_at(s, q + 1) {
                    Some((v, r)) => if byte_at(s, r, close_bracket()) {
                        Some(((n, v), r + 1))
                    } else {
                        None
                    },
                    None => None,
                }
            } else {
                None
            },
            None => None,
        }
    } else {
        None
    }
}

#[verifier::opaque]
pub open spec fn more_at(s: Seq<u8>, p: int) -> Option<(Seq<(Seq<u8>, Seq<u8>)>, int)>
    decreases s.len() - p,
{
    if byte_at(s, p, close_bracket()) {
        Some((Seq::empty(), p + 1))
    } else if byte_at(s, p, comma()) {
        match header_at(s, p + 1) {
            Some((h, q)) => if p < q <= s.len() {
                match more_at(s, q) {
                    Some((hs, e)) => Some((seq![h] + hs, e)),
                    None => None,
                }
            } else {
                None
            },
            None => None,
        }
    } else {
        None
    }
}

#[verifier::opaque]
pub open spec fn list_at(s: Seq<u8>, p: int) -> Option<(Seq<(Seq<u8>, Seq<u8>)>, int)> {
    if byte_at(s, p, open_bracket()) {
        if byte_at(s, p + 1, close_bracket()) {
            Some((Seq::empty(), p + 2))
        } else {
            match header_at(s, p + 1) {
                Some((h, q)) => match more_at(s, q) {
                    Some((hs, e)) => Some((seq![h] + hs, e)),
                    None => None,
                },
                None => None,
            }
        }
    } else {
        None
    }
}

/// Reads the fields in order; hex of either case and leading zeros are let through.
pub open spec fn parse_record(s: Seq<u8>) -> Option<RecordView> {
    if !lit_at(s, 0, status_key()) {
        None
    } else {
        match status_at(s, 10) {
            None => None,
            Some((status, q)) => if !lit_at(s, q, headers_key()) {
                None
            } else {
                match list_at(s, q + 11) {
                    None => None,
                    Some((hs, r)) => if !lit_at(s, r, body_key()) {
                        None
                    } else {
                        match field_at(s, r + 8) {
                            None => None,
                            Some((body, t)) => if t + 1 == s.len() && s[t] == close_brace() {
                                Some(RecordView { status, headers: hs, body })
                            } else {
                                None
                            },
                        }
                    },
                }
            },
        }
    }
}

proof fn lemma_digit_run(s: Seq<u8>, p: int, e: int)
    requires
        0 <= p <= e <= s.len(),
        forall|i: int| p <= i < e ==> is_digit(#[trigger] s[i]),
        e < s.len() ==> !is_digit(s[e]),
    ensures
        digit_run_end(s, p) == e,
    decreases e - p,
{
    if p < e {
        lemma_digit_run(s, p + 1, e);
    }
}

proof fn lemma_hex_run(s: Seq<u8>, p: int, e: int)
    requires
        0 <= p <= e <= s.len(),
        forall|i: int| p <= i < e ==> is_hex_char(#[trigger] s[i]),
        e < s.len() ==> !is_hex_char(s[e]),
    ensures
        hex_run_end(s, p) == e,
    decreases e - p,
{
    if p < e {
        lemma_hex_run(s, p + 1, e);
    }
}

proof fn lemma_decimal(n: nat)
    ensures
        decimal(n).len() >= 1,
        forall|i: int| 0 <= i < decimal(n).len() ==> is_digit(#[trigger] decimal(n)[i]),
        digits_value(decimal(n)) == n,
    decreases n,
{
    let d = decimal(n);
    if n < 10 {
        assert(d.drop_last() =~= Seq::<u8>::empty());
        assert(digits_value(d.drop_last()) == 0);
        assert(d.last() == (48 + n) as u8);
    } else {
        lemma_decimal(n / 10);
        assert(d.drop_last() =~= decimal(n / 10));
        assert(d.last() == (48 + n % 10) as u8);
        assert((n / 10) * 10 + n % 10 == n);
    }
}

proof fn lemma_hex_round_trip(d: Seq<u8>)
    ensures
        forall|i: int| 0 <= i < hex_lower(d).len() ==> is_hex_char(#[trigger] hex_lower(d)[i]),
        hex_decoded(hex_lower(d)) == Some(d),
{
    let h = hex_lower(d);
    assert forall|i: int| 0 <= i < h.len() implies is_hex_char(#[trigger] h[i]) by {
        let b = d[i / 2];
        assert(b / 16 < 16 && b % 16 < 16);
    }
    assert forall|i: int| 0 <= i < d.len() implies #[trigger] unhex(h)[i] == d[i] by {
        assert((2 * i) / 2 == i && (2 * i) % 2 == 0);
        assert((2 * i + 1) / 2 == i && (2 * i + 1) % 2 == 1);
        let b = d[i];
        assert(hex_value(hex_digit(b / 16)) == b / 16);
        assert(hex_value(hex_digit(b % 16)) == b % 16);
        assert((b / 16) * 16 + b % 16 == b);
    }
    assert(unhex(h) =~= d);
}

proof fn lemma_field(pre: Seq<u8>, d: Seq<u8>, post: Seq<u8>)
    ensures
        field_at(pre + quoted(d) + post, pre.len() as int)
            == Some((d, (pre.len() + quoted(d).len()) as int)),
{
    reveal(field_at);
    let s = pre + quoted(d) + post;
    let p = pre.len() as int;
    let e = p + 1 + hex_lower(d).len() as int;
    lemma_hex_round_trip(d);
    assert forall|i: int| p + 1 <= i < e implies is_hex_char(#[trigger] s[i]) by {
        assert(s[i] == hex_lower(d)[i - p - 1]);
    }
    assert(s[e] == quote());
    lemma_hex_run(s, p + 1, e);
    assert(s.subrange(p + 1, e) =~= hex_lower(d));
}

proof fn lemma_header(pre: Seq<u8>, h: (Seq<u8>, Seq<u8>), post: Seq<u8>)
    ensures
        header_at(pre + header_text(h) + post, pre.len() as int)
            == Some((h, (pre.len() + header_text(h).len()) as int)),
{
    reveal(header_at);
    let s = pre + header_text(h) + post;
    let p = pre.len() as int;
    let pre1 = pre + seq![open_bracket()];
    let post1 = seq![comma()] + quoted(h.1) + seq![close_bracket()] + post;
    assert(s =~= pre1 + quoted(h.0) + post1);
    lemma_field(pre1, h.0, post1);
    let pre2 = pre1 + quoted(h.0) + seq![comma()];
    let post2 = seq![close_bracket()] + post;
    assert(s =~= pre2 + quoted(h.1) + post2);
    lemma_field(pre2, h.1, post2);
    assert(s[p] == open_bracket());
    assert(s[(pre1.len() + quoted(h.0).len()) as int] == comma());
    assert(s[(pre2.len() + quoted(h.1).len()) as int] == close_bracket());
}

proof fn lemma_more(pre: Seq<u8>, hs: Seq<(Seq<u8>, Seq<u8>)>, post: Seq<u8>)
    ensures
        more_at(pre + more_text(hs) + post, pre.len() as int)
            == Some((hs, (pre.len() + more_text(hs).len()) as int)),
    decreases hs.len(),
{
    reveal(more_at);
    let s = pre + more_text(hs) + post;
    let p = pre.len() as int;
    if hs.len() == 0 {
        assert(s[p] == close_bracket());
        assert(hs =~= Seq::empty());
    } else {
        let rest = hs.drop_first();
        let pre1 = pre + seq![comma()];
        assert(s =~= pre1 + header_text(hs[0]) + (more_text(rest) + post));
        lemma_header(pre1, hs[0], more_text(rest) + post);
        assert(s[p] == comma());
        let pre2 = pre1 + header_text(hs[0]);
        assert(s =~= pre2 + more_text(rest) + post);
        lemma_more(pre2, rest, post);
        assert(seq![hs[0]] + rest =~= hs);
    }
}

proof fn lemma_list(pre: Seq<u8>, hs: Seq<(Seq<u8>, Seq<u8>)>, post: Seq<u8>)
    ensures
        list_at(pre + list_text(hs) + post, pre.len() as int)
            == Some((hs, (pre.len() + list_text(hs).len()) as int)),
{
    reveal(list_at);
    let s = pre + list_text(hs) + post;
    let p = pre.len() as int;
    assert(s[p] == open_bracket());
    if hs.len() == 0 {
        assert(s[p + 1] == close_bracket());
        assert(hs =~= Seq::empty());
    } else {
        let rest = hs.drop_first();
        let pre1 = pre + seq![open_bracket()];
        assert(s =~= pre1 + header_text(hs[0]) + (more_text(rest) + post));
        lemma_header(pre1, hs[0], more_text(rest) + post);
        assert(header_text(hs[0])[0] != close_bracket());
        let pre2 = pre1 + header_text(hs[0]);
        assert(s =~= pre2 + more_text(rest) + post);
        lemma_more(pre2, rest, post);
        assert(seq![hs[0]] + rest =~= hs);
    }
}

proof fn lemma_status(n: u16, tail: Seq<u8>)
    requires
        tail.len() > 0,
        tail[0] == comma(),
    ensures
        status_at(status_key() + decimal(n as nat) + tail, 10)
            == Some((n, 10 + decimal(n as nat).len() as int)),
{
    reveal(status_at);
    let dec = decimal(n as nat);
    let s = status_key() + dec + tail;
    lemma_decimal(n as nat);
    let q = 10 + dec.len() as int;
    assert forall|i: int| 10 <= i < q implies is_digit(#[trigger] s[i]) by {
        assert(s[i] == dec[i - 10]);
    }
    assert(s[q] == comma());
    lemma_digit_run(s, 10, q);
    assert(s.subrange(10, q) =~= dec);
}

proof fn lemma_parse_text(m: RecordView)
    ensures
        parse_record(record_text(m)) == Some(m),
{
    let s = record_text(m);
    let dec = decimal(m.status as nat);
    let lt = list_text(m.headers);
    let post = body_key() + quoted(m.body) + seq![close_brace()];
    let tail = headers_key() + lt + post;
    assert(s =~= status_key() + dec + tail);
    assert(s.subrange(0, 10) =~= status_key());
    assert(lit_at(s, 0, status_key()));
    lemma_status(m.status, tail);
    let q = 10 + dec.len() as int;
    assert(s.subrange(q, q + 11) =~= headers_key());
    assert(lit_at(s, q, headers_key()));
    let pre = status_key() + dec + headers_key();
    assert(s =~= pre + lt + post);
    lemma_list(pre, m.headers, post);
    let r = pre.len() + lt.len() as int;
    assert(s.subrange(r, r + 8) =~= body_key());
    assert(lit_at(s, r, body_key()));
    let pre2 = pre + lt + body_key();
    assert(s =~= pre2 + quoted(m.body) + seq![close_brace()]);
    lemma_field(pre2, m.body, seq![close_brace()]);
    let t = pre2.len() + quoted(m.body).len() as int;
    assert(t + 1 == s.len() && s[t] == close_brace());
}

/// Distinct records are stored as distinct file contents.
pub proof fn lemma_record_text_injective(m1: RecordView, m2: RecordView)
    requires
        record_text(m1) == record_text(m2),
    ensures
        m1 == m2,
{
    lemma_parse_text(m1);
    lemma_parse_text(m2);
}

/// Reading back what was written for a record gives the same record: status,
/// headers in their order, and body.
pub proof fn lemma_record_round_trip(m: RecordView)
    ensures
        stored_record(record_text(m)) == Some(m),
{
    assert(exists|x: RecordView| record_text(x) == record_text(m));
    let c = choose|x: RecordView| record_text(x) == record_text(m);
    lemma_record_text_injective(c, m);
}

fn digit_run(s: &[u8], p: usize) -> (e: usize)
    requires
        p <= s@.len(),
    ensures
        e == digit_run_end(s@, p as int),
        p <= e <= s@.len(),
{
    let mut i = p;
    while i < s.len() && 48 <= s[i] && s[i] <= 57
        invariant
            p <= i <= s@.len(),
            digit_run_end(s@, i as int) == digit_run_end(s@, p as int),
        decreases s@.len() - i,
    {
        i = i + 1;
    }
    i
}

fn hex_run(s: &[u8], p: usize) -> (e: usize)
    requires
        p <= s@.len(),
    ensures
        e == hex_run_end(s@, p as int),
        p <= e <= s@.len(),
{
    let mut i = p;
    while i < s.len() && ((48 <= s[i] && s[i] <= 57) || (65 <= s[i] && s[i] <= 70) || (97 <= s[i]
        && s[i] <= 102))
        invariant
            p <= i <= s@.len(),
            hex_run_end(s@, i as int) == hex_run_end(s@, p as int),
        decreases s@.len() - i,
    {
        i = i + 1;
    }
    i
}

fn read_status(s: &[u8], p: usize) -> (r: Option<(u16, usize)>)
    requires
        p <= s@.len(),
    ensures
        match r {
            Some((v, e)) => status_at(s@, p as int) == Some((v, e as int)),
            None => status_at(s@, p as int) is None,
        },
{
    reveal(status_at);
    let e = digit_run(s, p);
    if e == p {
        return None;
    }
    let mut v: u32 = 0;
    let mut j = p;
    while j < e
        invariant
            p <= j <= e <= s@.len(),
            e == digit_run_end(s@, p as int),
            v == digits_value(s@.subrange(p as int, j as int)),
            v <= 65535,
        decreases e - j,
    {
        proof {
            lemma_digit_run_inside(s@, p as int, j as int);
            assert(s@.subrange(p as int, j + 1).drop_last() =~= s@.subrange(p as int, j as int));
        }
        v = v * 10 + (s[j] - 48) as u32;
        j = j + 1;
        if v > 65535 {
            proof {
                reveal(status_at);
                assert(v == digits_value(s@.subrange(p as int, j as int)));
                lemma_digits_grow(s@, p as int, j as int, e as int);
            }
            return None;
        }
    }
    Some((v as u16, e))
}

proof fn lemma_digit_run_inside(s: Seq<u8>, p: int, j: int)
    requires
        0 <= p <= j < digit_run_end(s, p),
    ensures
        is_digit(s[j]),
    decreases j - p,
{
    if p < j {
        lemma_digit_run_inside(s, p + 1, j);
    }
}

proof fn lemma_digits_grow(s: Seq<u8>, p: int, j: int, e: int)
    requires
        0 <= p <= j <= e <= s.len(),
    ensures
        digits_value(s.subrange(p, e)) >= digits_value(s.subrange(p, j)),
    decreases e - j,
{
    if j < e {
        lemma_digits_grow(s, p, j, e - 1);
        assert(s.subrange(p, e).drop_last() =~= s.subrange(p, e - 1));
    }
}

fn read_field(s: &[u8], p: usize) -> (r: Option<(Vec<u8>, usize)>)
    ensures
        match r {
            Some((d, e)) => field_at(s@, p as int) == Some((d@, e as int)),
            None => field_at(s@, p as int) is None,
        },
{
    reveal(field_at);
    if p < s.len() && s[p] == 34 {
        let e = hex_run(s, p + 1);
        if e < s.len() && s[e] == 34 {
            match hex_decode(slice_subrange(s, p + 1, e)) {
                Some(d) => Some((d, e + 1)),
                None => None,
            }
        } else {
            None
        }
    } else {
        None
    }
}

fn read_header(s: &[u8], p: usize) -> (r: Option<((Vec<u8>, Vec<u8>), usize)>)
    ensures
        match r {
            Some((h, e)) => header_at(s@, p as int) == Some(((h.0@, h.1@), e as int)),
            None => header_at(s@, p as int) is None,
        },
{
    reveal(header_at);
    if p < s.len() && s[p] == 91 {
        match read_field(s, p + 1) {
            Some((n, q)) => if q < s.len() && s[q] == 44 {
                match read_field(s, q + 1) {
                    Some((v, r)) => if r < s.len() && s[r] == 93 {
                        Some(((n, v), r + 1))
                    } else {
                        None
                    },
                    None => None,
                }
            } else {
                None
            },
            None => None,
        }
    } else {
        None
    }
}

fn read_more(s: &[u8], p: usize) -> (r: Option<(Vec<(Vec<u8>, Vec<u8>)>, usize)>)
    ensures
        match r {
            Some((hs, e)) => more_at(s@, p as int) == Some((headers_view(hs@), e as int)),
            None => more_at(s@, p as int) is None,
        },
    decreases s@.len() - p,
{
    reveal(more_at);
    if p < s.len() && s[p] == 93 {
        let hs: Vec<(Vec<u8>, Vec<u8>)> = Vec::new();
        assert(headers_view(hs@) =~= Seq::empty());
        Some((hs, p + 1))
    } else if p < s.len() && s[p] == 44 {
        match read_header(s, p + 1) {
            Some((h, q)) => if p < q && q <= s.len() {
                match read_more(s, q) {
                    Some((hs, e)) => {
                        let ghost hv = (h.0@, h.1@);
                        let ghost old_hs = hs@;
                        let mut hs = hs;
                        hs.insert(0, h);
                        assert(headers_view(hs@) =~= seq![hv] + headers_view(old_hs));
                        Some((hs, e))
                    },
                    None => None,
                }
            } else {
                None
            },
            None => None,
        }
    } else {
        None
    }
}

fn read_list(s: &[u8], p: usize) -> (r: Option<(Vec<(Vec<u8>, Vec<u8>)>, usize)>)
    requires
        p <= s@.len(),
    ensures
        match r {
            Some((hs, e)) => list_at(s@, p as int) == Some((headers_view(hs@), e as int)),
            None => list_at(s@, p as int) is None,
        },
{
    reveal(list_at);
    if p < s.len() && s[p] == 91 {
        if p + 1 < s.len() && s[p + 1] == 93 {
            let hs: Vec<(Vec<u8>, Vec<u8>)> = Vec::new();
            assert(headers_view(hs@) =~= Seq::empty());
            Some((hs, p + 2))
        } else {
            match read_header(s, p + 1) {
                Some((h, q)) => match read_more(s, q) {
                    Some((hs, e)) => {
                        let ghost hv = (h.0@, h.1@);
                        let ghost old_hs = hs@;
                        let mut hs = hs;
                        hs.insert(0, h);
                        assert(headers_view(hs@) =~= seq![hv] + headers_view(old_hs));
                        Some((hs, e))
                    },
                    None => None,
                },
                None => None,
            }
        }
    } else {
        None
    }
}

fn lit_matches(s: &[u8], p: usize, l: &[u8]) -> (r: bool)
    ensures
        r == lit_at(s@, p as int, l@),
{
    let n = s.len();
    if p > n || l.len() > n - p {
        return false;
    }
    let mut i: usize = 0;
    while i < l.len()
        invariant
            n == s@.len(),
            p + l@.len() <= n,
            0 <= i <= l@.len(),
            forall|k: int| 0 <= k < i ==> s@[p + k] == l@[k],
        decreases l@.len() - i,
    {
        if s[p + i] != l[i] {
            assert(s@.subrange(p as int, p + l@.len())[i as int] != l@[i as int]);
            return false;
        }
        i = i + 1;
    }
    assert(s@.subrange(p as int, p + l@.len()) =~= l@);
    true
}

fn read_record(s: &[u8]) -> (r: Option<CacheRecord>)
    ensures
        match r {
            Some(rec) => parse_record(s@) == Some(rec@),
            None => parse_record(s@) is None,
        },
{
    let n = s.len();
    let sk: Vec<u8> = vec![123u8, 34, 115, 116, 97, 116, 117, 115, 34, 58];
    assert(sk@ =~= status_key());
    if !lit_matches(s, 0, sk.as_slice()) {
        return None;
    }
    let (status, q) = match read_status(s, 10) {
        Some(x) => x,
        None => return None,
    };
    let hk: Vec<u8> = vec![44u8, 34, 104, 101, 97, 100, 101, 114, 115, 34, 58];
    assert(hk@ =~= headers_key());
    if !lit_matches(s, q, hk.as_slice()) {
        return None;
    }
    let (headers, r) = match read_list(s, q + 11) {
        Some(x) => x,
        None => return None,
    };
    let bk: Vec<u8> = vec![44u8, 34, 98, 111, 100, 121, 34, 58];
    assert(bk@ =~= body_key());
    if !lit_matches(s, r, bk.as_slice()) {
        return None;
    }
    let (body, t) = match read_field(s, r + 8) {
        Some(x) => x,
        None => return None,
    };
    if t < s.len() && t + 1 == s.len() && s[t] == 125 {
        Some(CacheRecord { status, headers, body })
    } else {
        None
    }
}

fn same_bytes(a: &[u8], b: &[u8]) -> (r: bool)
    ensures
        r == (a@ == b@),
{
    if a.len() != b.len() {
        return false;
    }
    let mut i: usize = 0;
    while i < a.len()
        invariant
            a@.len() == b@.len(),
            0 <= i <= a@.len(),
            forall|k: int| 0 <= k < i ==> a@[k] == b@[k],
        decreases a@.len() - i,
    {
        if a[i] != b[i] {
            return false;
        }
        i = i + 1;
    }
    assert(a@ =~= b@);
    true
}

/// Reads a record from a file content. Gives `None` exactly when the content
/// is not what `encode_record` writes for some record.
pub fn decode_record(bytes: &[u8]) -> (r: Option<CacheRecord>)
    ensures
        match r {
            Some(rec) => stored_record(bytes@) == Some(rec@) && record_text(rec@) == bytes@,
            None => stored_record(bytes@) is None,
        },
{
    match read_record(bytes) {
        Some(rec) => {
            let text = encode_record(&rec);
            if same_bytes(text.as_slice(), bytes) {
                proof {
                    lemma_record_round_trip(rec@);
                }
                Some(rec)
            } else {
                proof {
                    if exists|m: RecordView| record_text(m) == bytes@ {
                        let m = choose|m: RecordView| record_text(m) == bytes@;
                        lemma_parse_text(m);
                    }
                }
                None
            }
        },
        None => {
            proof {
                if exists|m: RecordView| record_text(m) == bytes@ {
                    let m = choose|m: RecordView| record_text(m) == bytes@;
                    lemma_parse_text(m);
                }
            }
            None
        },
    }
}

} // verus!
