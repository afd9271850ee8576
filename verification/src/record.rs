//! The structured archive record inside one frame.
//!
//! A record frame is laid out as
//!
//! ```text
//! WARC/1.0\r\n
//! Content-Length: <decimal>\r\n
//! <name>: <value>\r\n        (zero or more further header lines)
//! <content bytes, exactly Content-Length of them>
//! \r\n\r\n                   (the boundary marker)
//! ```
//!
//! The content-length line comes right after the version line so that a
//! parser knows where the header lines stop without any further lookahead:
//! the content is the final `Content-Length` bytes before the marker, and
//! everything in between must read exactly as header lines.
use vstd::prelude::*;

use crate::codec::boundary_marker;
use crate::codec::copy_range;
use crate::codec::marker_at;
use crate::codec::well_formed_frame;

verus! {

/// The mathematical shape of one parsed record: its header lines as
/// name/value pairs, in order, and its content bytes.
pub struct RecordModel {
    pub headers: Seq<(Seq<u8>, Seq<u8>)>,
    pub content: Seq<u8>,
}

/// One header line of a record.
pub struct Header {
    pub name: Vec<u8>,
    pub value: Vec<u8>,
}

impl View for Header {
    type V = (Seq<u8>, Seq<u8>);

    open spec fn view(&self) -> (Seq<u8>, Seq<u8>) {
        (self.name@, self.value@)
    }
}

impl DeepView for Header {
    type V = (Seq<u8>, Seq<u8>);

    open spec fn deep_view(&self) -> (Seq<u8>, Seq<u8>) {
        self.view()
    }
}

/// One archive record, parsed out of a single frame.
pub struct RawRecord {
    pub headers: Vec<Header>,
    pub content: Vec<u8>,
}

impl View for RawRecord {
    type V = RecordModel;

    open spec fn view(&self) -> RecordModel {
        RecordModel { headers: self.headers.deep_view(), content: self.content@ }
    }
}

/// A decimal digit byte.
pub open spec fn is_digit(b: u8) -> bool {
    48 <= b <= 57
}

/// A byte allowed in a header name: printable, and not the colon.
pub open spec fn is_name_byte(b: u8) -> bool {
    33 <= b <= 126 && b != 58
}

/// A byte allowed in a header value: anything but carriage return and
/// line feed.
pub open spec fn is_value_byte(b: u8) -> bool {
    b != 13 && b != 10
}

/// The version line that opens every record: `WARC/1.0\r\n`.
pub open spec fn version_line() -> Seq<u8> {
    seq![87u8, 65u8, 82u8, 67u8, 47u8, 49u8, 46u8, 48u8, 13u8, 10u8]
}

/// The label that opens the second line of every record:
/// `Content-Length: `.
pub open spec fn content_length_label() -> Seq<u8> {
    seq![
        67u8,
        111u8,
        110u8,
        116u8,
        101u8,
        110u8,
        116u8,
        45u8,
        76u8,
        101u8,
        110u8,
        103u8,
        116u8,
        104u8,
        58u8,
        32u8,
    ]
}

/// `p` is a prefix of `s`.
pub open spec fn starts_with(s: Seq<u8>, p: Seq<u8>) -> bool {
    s.len() >= p.len() && s.subrange(0, p.len() as int) == p
}

/// Length of the run of decimal digits in `s` starting at `i`.
pub open spec fn digit_run_len(s: Seq<u8>, i: int) -> nat
    decreases s.len() - i,
{
    if i < 0 || i >= s.len() || !is_digit(s[i]) {
        0
    } else {
        1 + digit_run_len(s, i + 1)
    }
}

/// Length of the run of header-name bytes in `s` starting at `i`.
pub open spec fn name_run_len(s: Seq<u8>, i: int) -> nat
    decreases s.len() - i,
{
    if i < 0 || i >= s.len() || !is_name_byte(s[i]) {
        0
    } else {
        1 + name_run_len(s, i + 1)
    }
}

/// Length of the run of header-value bytes in `s` starting at `i`.
pub open spec fn value_run_len(s: Seq<u8>, i: int) -> nat
    decreases s.len() - i,
{
    if i < 0 || i >= s.len() || !is_value_byte(s[i]) {
        0
    } else {
        1 + value_run_len(s, i + 1)
    }
}

/// The number a sequence of digit bytes denotes in decimal.
pub open spec fn digits_value(s: Seq<u8>) -> nat
    decreases s.len(),
{
    if s.len() == 0 {
        0
    } else {
        digits_value(s.drop_last()) * 10 + (s.last() - 48) as nat
    }
}

/// Parse a region of header lines, exactly and completely.
pub open spec fn parse_headers(s: Seq<u8>) -> Option<Seq<(Seq<u8>, Seq<u8>)>>
    decreases s.len(),
{
    if s.len() == 0 {
        Some(Seq::empty())
    } else {
        let n = name_run_len(s, 0) as int;
        if n == 0 {
            None
        } else if n + 2 > s.len() || s[n] != 58 || s[n + 1] != 32 {
            None
        } else {
            let v = value_run_len(s, n + 2) as int;
            let end = n + 2 + v;
            if end + 2 > s.len() || s[end] != 13 || s[end + 1] != 10 {
                None
            } else {
                match parse_headers(s.subrange(end + 2, s.len() as int)) {
                    Some(rest) => Some(
                        seq![(s.subrange(0, n), s.subrange(n + 2, end))] + rest,
                    ),
                    None => None,
                }
            }
        }
    }
}

/// Parse one frame into a record: marker at the end, version line,
/// content-length line, header lines, and the final `Content-Length`
/// bytes of the body as content.
pub open spec fn parse_record_spec(frame: Seq<u8>) -> Option<RecordModel> {
    if frame.len() < 4 || !marker_at(frame, frame.len() - 4) {
        None
    } else {
        let body = frame.subrange(0, frame.len() - 4);
        if !starts_with(body, version_line()) {
            None
        } else {
            let s = body.subrange(10, body.len() as int);
            if !starts_with(s, content_length_label()) {
                None
            } else {
                let d = digit_run_len(s, 16) as int;
                if d == 0 {
                    None
                } else if 16 + d + 2 > s.len() || s[16 + d] != 13 || s[16 + d + 1] != 10 {
                    None
                } else {
                    let cl = digits_value(s.subrange(16, 16 + d));
                    let rest = s.subrange(16 + d + 2, s.len() as int);
                    if rest.len() < cl {
                        None
                    } else {
                        let hdr_region = rest.subrange(0, rest.len() - cl);
                        let content = rest.subrange(rest.len() - cl, rest.len() as int);
                        match parse_headers(hdr_region) {
                            Some(hs) => Some(RecordModel { headers: hs, content }),
                            None => None,
                        }
                    }
                }
            }
        }
    }
}

/// The decimal digits of `n`, most significant first.
pub open spec fn dec_digits(n: nat) -> Seq<u8>
    decreases n,
{
    if n < 10 {
        seq![(48 + n) as u8]
    } else {
        dec_digits(n / 10).push((48 + n % 10) as u8)
    }
}

/// One encoded header line: `name: value\r\n`.
pub open spec fn encode_header(h: (Seq<u8>, Seq<u8>)) -> Seq<u8> {
    h.0 + seq![58u8, 32u8] + h.1 + seq![13u8, 10u8]
}

/// The encoded header region: the header lines in order.
pub open spec fn encode_headers(hs: Seq<(Seq<u8>, Seq<u8>)>) -> Seq<u8>
    decreases hs.len(),
{
    if hs.len() == 0 {
        Seq::<u8>::empty()
    } else {
        encode_header(hs[0]) + encode_headers(hs.drop_first())
    }
}

/// The full encoding of a record as one frame.
pub open spec fn encode_record_spec(r: RecordModel) -> Seq<u8> {
    version_line() + content_length_label() + dec_digits(r.content.len()) + seq![13u8, 10u8]
        + encode_headers(r.headers) + r.content + boundary_marker()
}

/// A header a record may carry: a nonempty name of name bytes, and a
/// value free of carriage returns and line feeds.
pub open spec fn valid_header(h: (Seq<u8>, Seq<u8>)) -> bool {
    &&& h.0.len() >= 1
    &&& forall|i: int| 0 <= i < h.0.len() ==> is_name_byte(#[trigger] h.0[i])
    &&& forall|i: int| 0 <= i < h.1.len() ==> is_value_byte(#[trigger] h.1[i])
}

/// A record whose header lines can all be encoded.
pub open spec fn valid_record(r: RecordModel) -> bool {
    forall|k: int| 0 <= k < r.headers.len() ==> valid_header(#[trigger] r.headers[k])
}

/// A run of digit bytes ending at a non-digit (or at the end) is exactly
/// what `digit_run_len` measures.
proof fn lemma_digit_run_exact(s: Seq<u8>, i: int, d: int)
    requires
        0 <= i,
        0 <= d,
        i + d <= s.len(),
        forall|k: int| i <= k < i + d ==> is_digit(#[trigger] s[k]),
        i + d == s.len() || !is_digit(s[i + d]),
    ensures
        digit_run_len(s, i) == d,
    decreases d,
{
    if d == 0 {
    } else {
        assert(is_digit(s[i]));
        lemma_digit_run_exact(s, i + 1, d - 1);
    }
}

/// A run of name bytes ending at a non-name byte (or at the end) is
/// exactly what `name_run_len` measures.
proof fn lemma_name_run_exact(s: Seq<u8>, i: int, d: int)
    requires
        0 <= i,
        0 <= d,
        i + d <= s.len(),
        forall|k: int| i <= k < i + d ==> is_name_byte(#[trigger] s[k]),
        i + d == s.len() || !is_name_byte(s[i + d]),
    ensures
        name_run_len(s, i) == d,
    decreases d,
{
    if d == 0 {
    } else {
        assert(is_name_byte(s[i]));
        lemma_name_run_exact(s, i + 1, d - 1);
    }
}

/// A run of value bytes ending at a non-value byte (or at the end) is
/// exactly what `value_run_len` measures.
proof fn lemma_value_run_exact(s: Seq<u8>, i: int, d: int)
    requires
        0 <= i,
        0 <= d,
        i + d <= s.len(),
        forall|k: int| i <= k < i + d ==> is_value_byte(#[trigger] s[k]),
        i + d == s.len() || !is_value_byte(s[i + d]),
    ensures
        value_run_len(s, i) == d,
    decreases d,
{
    if d == 0 {
    } else {
        assert(is_value_byte(s[i]));
        lemma_value_run_exact(s, i + 1, d - 1);
    }
}

/// The decimal rendering of `n` is a nonempty digit string denoting `n`.
pub proof fn lemma_dec_digits_props(n: nat)
    ensures
        dec_digits(n).len() >= 1,
        forall|k: int| 0 <= k < dec_digits(n).len() ==> is_digit(#[trigger] dec_digits(n)[k]),
        digits_value(dec_digits(n)) == n,
    decreases n,
{
    if n < 10 {
        let ds = dec_digits(n);
        assert(ds.drop_last() =~= Seq::<u8>::empty());
        assert(digits_value(ds.drop_last()) == 0);
        assert(ds.last() == (48 + n) as u8);
        assert(digits_value(ds) == digits_value(ds.drop_last()) * 10 + (ds.last() - 48) as nat);
        assert(digits_value(ds) == n);
    } else {
        vstd::arithmetic::div_mod::lemma_fundamental_div_mod(n as int, 10);
        assert(0 <= n % 10 < 10) by {
            vstd::arithmetic::div_mod::lemma_mod_bound(n as int, 10);
        }
        assert(n / 10 < n) by {
            vstd::arithmetic::div_mod::lemma_div_decreases(n as int, 10);
        }
        lemma_dec_digits_props(n / 10);
        let prev = dec_digits(n / 10);
        let b = (48 + n % 10) as u8;
        let ds = dec_digits(n);
        assert(ds == prev.push(b));
        assert(ds.drop_last() =~= prev);
        assert(ds.last() == b);
        assert(forall|k: int| 0 <= k < ds.len() - 1 ==> ds[k] == prev[k]);
        assert(digits_value(ds) == digits_value(prev) * 10 + (b - 48) as nat);
        assert(digits_value(ds) == (n / 10) * 10 + n % 10);
    }
}

/// Encoded header lines parse back to exactly the headers they encode.
proof fn lemma_parse_headers_round_trip(hs: Seq<(Seq<u8>, Seq<u8>)>)
    requires
        forall|k: int| 0 <= k < hs.len() ==> valid_header(#[trigger] hs[k]),
    ensures
        parse_headers(encode_headers(hs)) == Some(hs),
    decreases hs.len(),
{
    let e = encode_headers(hs);
    if hs.len() == 0 {
        assert(e.len() == 0);
        assert(parse_headers(e) == Some(Seq::<(Seq<u8>, Seq<u8>)>::empty()));
        assert(Seq::<(Seq<u8>, Seq<u8>)>::empty() =~= hs);
    } else {
        let h = hs[0];
        let tail = hs.drop_first();
        let line = encode_header(h);
        let rest = encode_headers(tail);
        assert(e == line + rest);
        let n = h.0.len() as int;
        let v = h.1.len() as int;
        assert(line.len() == n + 2 + v + 2);
        assert(forall|k: int| 0 <= k < n ==> e[k] == h.0[k]);
        assert(e[n] == 58 && e[n + 1] == 32);
        assert(forall|k: int| 0 <= k < v ==> e[n + 2 + k] == h.1[k]);
        assert(e[n + 2 + v] == 13 && e[n + 2 + v + 1] == 10);
        lemma_name_run_exact(e, 0, n);
        assert forall|k: int| n + 2 <= k < n + 2 + v implies is_value_byte(#[trigger] e[k]) by {
            assert(e[k] == h.1[k - n - 2]);
        }
        lemma_value_run_exact(e, n + 2, v);
        assert(e.subrange(0, n) =~= h.0);
        assert(e.subrange(n + 2, n + 2 + v) =~= h.1);
        assert(e.subrange(n + 2 + v + 2, e.len() as int) =~= rest);
        assert(forall|k: int| 0 <= k < tail.len() ==> valid_header(#[trigger] tail[k]));
        lemma_parse_headers_round_trip(tail);
        assert(parse_headers(e) == Some(seq![(h.0, h.1)] + tail));
        assert(seq![(h.0, h.1)] + tail =~= hs);
    }
}

/// Round trip: an encoded record parses back to exactly itself.
#[verifier::rlimit(50)]
pub proof fn lemma_record_round_trip(r: RecordModel)
    requires
        valid_record(r),
    ensures
        parse_record_spec(encode_record_spec(r)) == Some(r),
{
    let c = r.content;
    let hs = r.headers;
    let dd = dec_digits(c.len());
    lemma_dec_digits_props(c.len());
    let hdrs = encode_headers(hs);
    let e = encode_record_spec(r);
    let dl = dd.len() as int;
    let hl = hdrs.len() as int;
    let cl = c.len() as int;
    assert(e.len() == 10 + 16 + dl + 2 + hl + cl + 4);
    let body_len = e.len() - 4;
    assert(marker_at(e, body_len));
    let body = e.subrange(0, body_len);
    assert(body.subrange(0, 10) =~= version_line());
    assert(starts_with(body, version_line()));
    let s = body.subrange(10, body.len() as int);
    assert(s =~= content_length_label() + dd + seq![13u8, 10u8] + hdrs + c);
    assert(s.subrange(0, 16) =~= content_length_label());
    assert(starts_with(s, content_length_label()));
    assert forall|k: int| 16 <= k < 16 + dl implies is_digit(#[trigger] s[k]) by {
        assert(s[k] == dd[k - 16]);
    }
    assert(s[16 + dl] == 13 && s[16 + dl + 1] == 10);
    lemma_digit_run_exact(s, 16, dl);
    assert(s.subrange(16, 16 + dl) =~= dd);
    let rest = s.subrange(16 + dl + 2, s.len() as int);
    assert(rest =~= hdrs + c);
    assert(rest.len() == hl + cl);
    assert(rest.subrange(0, hl) =~= hdrs);
    assert(rest.subrange(hl, rest.len() as int) =~= c);
    lemma_parse_headers_round_trip(hs);
    let parsed = parse_record_spec(e);
    assert(parsed == Some(RecordModel { headers: hs, content: rest.subrange(hl, rest.len() as int) }));
    assert(rest.subrange(hl, rest.len() as int) == c);
}

/// Content bytes that keep a record's frame unambiguous: nonempty, free
/// of the boundary marker, and neither starting nor ending with a
/// carriage-return/line-feed pair (either would forge a marker at a
/// junction).
pub open spec fn record_content_ok(c: Seq<u8>) -> bool {
    &&& c.len() >= 1
    &&& forall|j: int| !marker_at(c, j)
    &&& !(c.len() >= 2 && c[0] == 13 && c[1] == 10)
    &&& !(c.len() >= 2 && c[c.len() - 2] == 13 && c[c.len() - 1] == 10)
}

/// Well-behaved content followed by the boundary marker is a well-formed
/// frame tail.
proof fn lemma_content_marker_wf(c: Seq<u8>)
    requires
        record_content_ok(c),
    ensures
        well_formed_frame(c + boundary_marker()),
        !((c + boundary_marker())[0] == 13 && (c + boundary_marker())[1] == 10),
{
    let t = c + boundary_marker();
    let n = c.len() as int;
    assert(t.len() == n + 4);
    assert(t[n] == 13 && t[n + 1] == 10 && t[n + 2] == 13 && t[n + 3] == 10);
    assert(marker_at(t, n));
    assert forall|j: int| 0 <= j < n implies !marker_at(t, j) by {
        if marker_at(t, j) {
            if j + 4 <= n {
                assert(marker_at(c, j));
            } else if j == n - 1 {
                assert(t[j + 1] == 13);
            } else if j == n - 2 {
                assert(t[j] == c[n - 2] && t[j + 1] == c[n - 1]);
            } else {
                assert(j == n - 3);
                assert(t[j + 3] == 13);
            }
        }
    }
    if c.len() >= 2 {
        assert(t[0] == c[0] && t[1] == c[1]);
    } else {
        assert(t[1] == 13);
    }
}

/// Prepending one `\r\n`-terminated line of marker-free bytes to a
/// well-formed frame tail keeps it well formed.
proof fn lemma_line_prepend_wf(w: Seq<u8>, t: Seq<u8>)
    requires
        forall|i: int| 0 <= i < w.len() ==> #[trigger] w[i] != 13 && w[i] != 10,
        well_formed_frame(t),
        !(t[0] == 13 && t[1] == 10),
    ensures
        well_formed_frame((w + seq![13u8, 10u8]) + t),
    decreases 0int,
{
    let line = w + seq![13u8, 10u8];
    let u = line + t;
    let ll = line.len() as int;
    let wl = w.len() as int;
    assert(ll == wl + 2);
    assert(forall|k: int| 0 <= k < t.len() ==> u[ll + k] == t[k]);
    assert(forall|k: int| 0 <= k < ll ==> u[k] == line[k]);
    assert(u[wl] == 13 && u[wl + 1] == 10);
    assert(marker_at(t, t.len() - 4));
    assert(marker_at(u, u.len() - 4)) by {
        assert(u.len() - 4 == ll + (t.len() - 4));
    }
    assert forall|j: int| 0 <= j < u.len() - 4 implies !marker_at(u, j) by {
        if marker_at(u, j) {
            if j + 4 <= ll {
                assert(u[j] == line[j]);
                assert(line[j] == 13 ==> j == wl);
                assert(j == wl);
                assert(j + 4 == ll + 2);
            } else if j >= ll {
                assert(marker_at(t, j - ll));
                assert(j - ll < t.len() - 4);
            } else if j == ll - 1 {
                assert(u[j] == 10);
            } else if j == ll - 2 {
                assert(u[j + 2] == t[0] && u[j + 3] == t[1]);
            } else {
                assert(j == ll - 3);
                assert(0 <= wl - 1 < w.len());
                assert(u[j] == w[wl - 1]);
            }
        }
    }
}

/// Prepending encoded header lines to a well-formed frame tail keeps it
/// well formed, and the result still does not open with a
/// carriage-return/line-feed pair.
proof fn lemma_headers_prepend_wf(hs: Seq<(Seq<u8>, Seq<u8>)>, t: Seq<u8>)
    requires
        forall|k: int| 0 <= k < hs.len() ==> valid_header(#[trigger] hs[k]),
        well_formed_frame(t),
        !(t[0] == 13 && t[1] == 10),
    ensures
        well_formed_frame(encode_headers(hs) + t),
        !((encode_headers(hs) + t)[0] == 13 && (encode_headers(hs) + t)[1] == 10),
    decreases hs.len(),
{
    if hs.len() == 0 {
        assert(encode_headers(hs) + t =~= t);
    } else {
        let tail = hs.drop_first();
        assert(forall|k: int| 0 <= k < tail.len() ==> valid_header(#[trigger] tail[k]));
        lemma_headers_prepend_wf(tail, t);
        let inner = encode_headers(tail) + t;
        let h = hs[0];
        let w = h.0 + seq![58u8, 32u8] + h.1;
        assert forall|i: int| 0 <= i < w.len() implies #[trigger] w[i] != 13 && w[i] != 10 by {
            if i < h.0.len() {
                assert(w[i] == h.0[i]);
                assert(is_name_byte(h.0[i]));
            } else if i >= h.0.len() + 2 {
                assert(w[i] == h.1[i - h.0.len() - 2]);
                assert(is_value_byte(h.1[i - h.0.len() - 2]));
            }
        }
        assert(inner.len() >= 4);
        lemma_line_prepend_wf(w, inner);
        assert(encode_headers(hs) + t =~= (w + seq![13u8, 10u8]) + inner);
        let e = encode_headers(hs) + t;
        assert(e[0] == h.0[0]);
        assert(is_name_byte(h.0[0]));
    }
}

/// A well-formed record's encoding is a well-formed frame: it ends with
/// the boundary marker and contains no earlier occurrence of it, so
/// framing cuts a stream of such records exactly at their ends.
pub proof fn lemma_encode_well_formed(r: RecordModel)
    requires
        valid_record(r),
        record_content_ok(r.content),
    ensures
        well_formed_frame(encode_record_spec(r)),
{
    let c = r.content;
    lemma_content_marker_wf(c);
    let t0 = c + boundary_marker();
    lemma_headers_prepend_wf(r.headers, t0);
    let t1 = encode_headers(r.headers) + t0;
    let dd = dec_digits(c.len());
    lemma_dec_digits_props(c.len());
    let w2 = content_length_label() + dd;
    assert forall|i: int| 0 <= i < w2.len() implies #[trigger] w2[i] != 13 && w2[i] != 10 by {
        if i < 16 {
        } else {
            assert(w2[i] == dd[i - 16]);
            assert(is_digit(dd[i - 16]));
        }
    }
    assert(t1.len() >= 4);
    lemma_line_prepend_wf(w2, t1);
    let t2 = (w2 + seq![13u8, 10u8]) + t1;
    let w1 = seq![87u8, 65u8, 82u8, 67u8, 47u8, 49u8, 46u8, 48u8];
    assert(forall|i: int| 0 <= i < w1.len() ==> #[trigger] w1[i] != 13 && w1[i] != 10);
    assert(t2[0] == 67 && t2.len() >= 4);
    lemma_line_prepend_wf(w1, t2);
    assert(encode_record_spec(r) =~= (w1 + seq![13u8, 10u8]) + t2);
}

/// Exec check for a decimal digit byte.
fn digit_byte(b: u8) -> (r: bool)
    ensures
        r == is_digit(b),
{
    48 <= b && b <= 57
}

/// Exec check for a header-name byte.
fn name_byte(b: u8) -> (r: bool)
    ensures
        r == is_name_byte(b),
{
    33 <= b && b <= 126 && b != 58
}

/// Exec check for a header-value byte.
fn value_byte(b: u8) -> (r: bool)
    ensures
        r == is_value_byte(b),
{
    b != 13 && b != 10
}

/// Compare `data[off..off + pat.len()]` with `pat`; false when the region
/// would run past `end`.
pub(crate) fn region_matches(data: &Vec<u8>, off: usize, end: usize, pat: &Vec<u8>) -> (r: bool)
    requires
        off <= end <= data@.len(),
    ensures
        r <==> (off + pat@.len() <= end && data@.subrange(
            off as int,
            off + pat@.len(),
        ) == pat@),
{
    if end - off < pat.len() {
        return false;
    }
    let mut i: usize = 0;
    while i < pat.len()
        invariant
            off + pat@.len() <= end <= data@.len(),
            i <= pat@.len(),
            forall|k: int| 0 <= k < i ==> data@[off + k] == pat@[k],
        decreases pat@.len() - i,
    {
        if data[off + i] != pat[i] {
            assert(data@.subrange(off as int, off + pat@.len()) != pat@) by {
                assert(data@.subrange(off as int, off + pat@.len())[i as int] != pat@[i as int]);
            }
            return false;
        }
        i = i + 1;
    }
    assert(data@.subrange(off as int, off + pat@.len()) =~= pat@);
    true
}

/// The version line as bytes: `WARC/1.0\r\n`.
fn version_line_bytes() -> (v: Vec<u8>)
    ensures
        v@ == version_line(),
{
    let mut v: Vec<u8> = Vec::new();
    v.push(87);
    v.push(65);
    v.push(82);
    v.push(67);
    v.push(47);
    v.push(49);
    v.push(46);
    v.push(48);
    v.push(13);
    v.push(10);
    assert(v@ =~= version_line());
    v
}

/// The content-length label as bytes: `Content-Length: `.
fn content_length_label_bytes() -> (v: Vec<u8>)
    ensures
        v@ == content_length_label(),
{
    let mut v: Vec<u8> = Vec::new();
    v.push(67);
    v.push(111);
    v.push(110);
    v.push(116);
    v.push(101);
    v.push(110);
    v.push(116);
    v.push(45);
    v.push(76);
    v.push(101);
    v.push(110);
    v.push(103);
    v.push(116);
    v.push(104);
    v.push(58);
    v.push(32);
    assert(v@ =~= content_length_label());
    v
}

/// The record a parsed header region yields, once the content bytes are
/// fixed.
pub open spec fn record_outcome(
    hs: Option<Seq<(Seq<u8>, Seq<u8>)>>,
    content: Seq<u8>,
) -> Option<RecordModel> {
    match hs {
        Some(headers) => Some(RecordModel { headers, content }),
        None => None,
    }
}

/// Parse one frame into a record, reading it exactly as
/// `parse_record_spec` does.
#[verifier::rlimit(100)]
pub fn parse_record(frame: &Vec<u8>) -> (r: Option<RawRecord>)
    ensures
        match r {
            Some(rec) => parse_record_spec(frame@) == Some(rec@),
            None => parse_record_spec(frame@) is None,
        },
{
    let len = frame.len();
    if len < 4 {
        return None;
    }
    if !(frame[len - 4] == 13 && frame[len - 3] == 10 && frame[len - 2] == 13 && frame[len - 1]
        == 10) {
        assert(!marker_at(frame@, frame@.len() - 4));
        return None;
    }
    assert(marker_at(frame@, frame@.len() - 4));
    let body_len = len - 4;
    let ghost body = frame@.subrange(0, body_len as int);
    let version = version_line_bytes();
    if !region_matches(frame, 0, body_len, &version) {
        proof {
            if starts_with(body, version_line()) {
                assert(frame@.subrange(0, 10) =~= body.subrange(0, 10));
            }
        }
        return None;
    }
    proof {
        assert(body.subrange(0, 10) =~= frame@.subrange(0, 10));
        assert(starts_with(body, version_line()));
    }
    let ghost s = body.subrange(10, body.len() as int);
    proof {
        assert(s =~= frame@.subrange(10, body_len as int));
    }
    let label = content_length_label_bytes();
    if !region_matches(frame, 10, body_len, &label) {
        proof {
            if starts_with(s, content_length_label()) {
                assert(frame@.subrange(10, 26) =~= s.subrange(0, 16));
            }
        }
        return None;
    }
    proof {
        assert(s.subrange(0, 16) =~= frame@.subrange(10, 26));
        assert(starts_with(s, content_length_label()));
    }
    let mut d: usize = 0;
    while 26 + d < body_len && digit_byte(frame[26 + d])
        invariant
            26 + d <= body_len <= frame@.len(),
            forall|k: int| 26 <= k < 26 + d ==> is_digit(#[trigger] frame@[k]),
        decreases body_len - d,
    {
        d = d + 1;
    }
    proof {
        assert forall|k: int| 16 <= k < 16 + d implies is_digit(#[trigger] s[k]) by {
            assert(s[k] == frame@[10 + k]);
        }
        if 26 + d < body_len {
            assert(s[16 + d as int] == frame@[26 + d as int]);
            assert(!is_digit(s[16 + d as int]));
        }
        lemma_digit_run_exact(s, 16, d as int);
    }
    if d == 0 {
        return None;
    }
    if body_len - (26 + d) < 2 {
        assert(16 + d + 2 > s.len());
        return None;
    }
    if !(frame[26 + d] == 13 && frame[26 + d + 1] == 10) {
        assert(s[16 + d as int] == frame@[26 + d as int]);
        assert(s[16 + d + 1 as int] == frame@[26 + d + 1 as int]);
        return None;
    }
    assert(s[16 + d as int] == 13 && s[16 + d + 1 as int] == 10);
    let rest_off = 26 + d + 2;
    let rest_len = body_len - rest_off;
    let ghost digits = s.subrange(16, 16 + d as int);
    let ghost rest = s.subrange(16 + d + 2 as int, s.len() as int);
    let ghost cl_spec = digits_value(digits);
    let ghost hdr_region = rest.subrange(0, rest.len() - cl_spec);
    let ghost content_spec = rest.subrange(rest.len() - cl_spec, rest.len() as int);
    proof {
        assert(rest =~= frame@.subrange(rest_off as int, body_len as int));
        assert(rest.len() == rest_len);
        assert(parse_record_spec(frame@) == (if rest.len() < cl_spec {
            Option::<RecordModel>::None
        } else {
            record_outcome(parse_headers(hdr_region), content_spec)
        }));
    }
    let mut acc: u128 = 0;
    let mut k: usize = 0;
    while k < d
        invariant
            k <= d,
            26 + d + 2 <= body_len <= frame@.len(),
            rest_off == 26 + d + 2,
            rest_len == body_len - rest_off,
            digits.len() == d,
            forall|j: int| 0 <= j < d ==> digits[j] == frame@[26 + j] && is_digit(
                #[trigger] digits[j],
            ),
            acc == digits_value(digits.subrange(0, k as int)),
            acc <= rest_len as u128,
            rest.len() == rest_len,
            cl_spec == digits_value(digits),
            parse_record_spec(frame@) == (if rest.len() < cl_spec {
                Option::<RecordModel>::None
            } else {
                record_outcome(parse_headers(hdr_region), content_spec)
            }),
        decreases d - k,
    {
        let b = frame[26 + k];
        assert(is_digit(digits[k as int]));
        assert(b == digits[k as int]);
        assert(acc * 10 + 9 < u128::MAX) by {
            assert(acc <= usize::MAX as u128);
        }
        let next = acc * 10 + (b - 48) as u128;
        proof {
            let pk1 = digits.subrange(0, k + 1);
            assert(pk1.drop_last() =~= digits.subrange(0, k as int));
            assert(pk1.last() == b);
            assert(digits_value(pk1) == acc * 10 + (b - 48) as nat);
        }
        if next > rest_len as u128 {
            proof {
                lemma_digits_value_monotonic(digits, k + 1);
                assert(digits_value(digits) >= next);
                assert(rest.len() < cl_spec);
            }
            return None;
        }
        acc = next;
        k = k + 1;
    }
    proof {
        assert(digits.subrange(0, d as int) =~= digits);
        assert(acc == digits_value(digits));
    }
    let cl = acc as usize;
    let hdr_end = rest_off + (rest_len - cl);
    proof {
        assert(hdr_region =~= frame@.subrange(rest_off as int, hdr_end as int));
        assert(content_spec =~= frame@.subrange(hdr_end as int, body_len as int));
    }
    let ghost ph = parse_headers(hdr_region);
    proof {
        assert(parse_record_spec(frame@) == record_outcome(ph, content_spec));
        assert(ph is Some ==> parse_record_spec(frame@) == Some(
            (RecordModel { headers: ph->0, content: content_spec }),
        ));
        assert(ph is None ==> parse_record_spec(frame@) is None);
    }
    let mut headers: Vec<Header> = Vec::new();
    let mut pos: usize = rest_off;
    proof {
        assert(frame@.subrange(pos as int, hdr_end as int) == hdr_region);
        assert(headers.deep_view() =~= Seq::<(Seq<u8>, Seq<u8>)>::empty());
        if ph is Some {
            assert(headers.deep_view() + ph->0 =~= ph->0);
        }
    }
    while pos < hdr_end
        invariant
            rest_off <= pos <= hdr_end <= body_len,
            body_len == frame@.len() - 4,
            hdr_region == frame@.subrange(rest_off as int, hdr_end as int),
            ph == parse_headers(hdr_region),
            ph is Some ==> parse_record_spec(frame@) == Some(
                (RecordModel { headers: ph->0, content: content_spec }),
            ),
            ph is None ==> parse_record_spec(frame@) is None,
            match parse_headers(frame@.subrange(pos as int, hdr_end as int)) {
                Some(t) => ph == Some(headers.deep_view() + t),
                None => ph is None,
            },
        decreases hdr_end - pos,
    {
        let ghost region = frame@.subrange(pos as int, hdr_end as int);
        let mut n: usize = 0;
        while pos + n < hdr_end && name_byte(frame[pos + n])
            invariant
                pos + n <= hdr_end <= frame@.len(),
                forall|j: int| pos <= j < pos + n ==> is_name_byte(#[trigger] frame@[j]),
            decreases hdr_end - pos - n,
        {
            n = n + 1;
        }
        proof {
            assert forall|j: int| 0 <= j < n implies is_name_byte(#[trigger] region[j]) by {
                assert(region[j] == frame@[pos + j]);
            }
            if pos + n < hdr_end {
                assert(region[n as int] == frame@[pos + n as int]);
                assert(!is_name_byte(region[n as int]));
            }
            lemma_name_run_exact(region, 0, n as int);
        }
        if n == 0 {
            assert(parse_headers(region) is None);
            return None;
        }
        if hdr_end - (pos + n) < 2 {
            assert(n + 2 > region.len());
            assert(parse_headers(region) is None);
            return None;
        }
        if !(frame[pos + n] == 58 && frame[pos + n + 1] == 32) {
            proof {
                assert(region[n as int] == frame@[pos + n as int]);
                assert(region[n + 1 as int] == frame@[pos + n + 1 as int]);
            }
            assert(parse_headers(region) is None);
            return None;
        }
        assert(region[n as int] == 58 && region[n + 1 as int] == 32);
        let vstart = pos + n + 2;
        let mut v: usize = 0;
        while vstart + v < hdr_end && value_byte(frame[vstart + v])
            invariant
                vstart + v <= hdr_end <= frame@.len(),
                forall|j: int| vstart <= j < vstart + v ==> is_value_byte(#[trigger] frame@[j]),
            decreases hdr_end - vstart - v,
        {
            v = v + 1;
        }
        proof {
            assert forall|j: int| n + 2 <= j < n + 2 + v implies is_value_byte(
                #[trigger] region[j],
            ) by {
                assert(region[j] == frame@[pos + j]);
            }
            if vstart + v < hdr_end {
                assert(region[n + 2 + v as int] == frame@[vstart + v as int]);
                assert(!is_value_byte(region[n + 2 + v as int]));
            }
            lemma_value_run_exact(region, n + 2 as int, v as int);
        }
        let end = vstart + v;
        if hdr_end - end < 2 {
            assert(n + 2 + v + 2 > region.len());
            assert(parse_headers(region) is None);
            return None;
        }
        if !(frame[end] == 13 && frame[end + 1] == 10) {
            proof {
                assert(region[n + 2 + v as int] == frame@[end as int]);
                assert(region[n + 2 + v + 1 as int] == frame@[end + 1 as int]);
            }
            assert(parse_headers(region) is None);
            return None;
        }
        assert(region[n + 2 + v as int] == 13 && region[n + 2 + v + 1 as int] == 10);
        let name = copy_range(frame, pos, pos + n);
        let value = copy_range(frame, vstart, end);
        let ghost namev = name@;
        let ghost valuev = value@;
        proof {
            assert(namev =~= region.subrange(0, n as int));
            assert(valuev =~= region.subrange(n + 2 as int, n + 2 + v as int));
        }
        let ghost old_dv = headers.deep_view();
        headers.push(Header { name, value });
        proof {
            assert(headers.deep_view() =~~= old_dv.push((namev, valuev)));
            let region2 = region.subrange(n + 2 + v + 2 as int, region.len() as int);
            assert(region2 =~= frame@.subrange(end + 2 as int, hdr_end as int));
            match parse_headers(region2) {
                Some(t2) => {
                    assert(parse_headers(region) == Some(seq![(namev, valuev)] + t2));
                    assert(old_dv + (seq![(namev, valuev)] + t2) =~= old_dv.push(
                        (namev, valuev),
                    ) + t2);
                },
                None => {
                    assert(parse_headers(region) is None);
                },
            }
        }
        pos = end + 2;
    }
    proof {
        assert(frame@.subrange(pos as int, hdr_end as int) =~= Seq::<u8>::empty());
        assert(parse_headers(frame@.subrange(pos as int, hdr_end as int)) == Some(
            Seq::<(Seq<u8>, Seq<u8>)>::empty(),
        ));
        assert(ph is Some);
        assert(headers.deep_view() + Seq::<(Seq<u8>, Seq<u8>)>::empty() =~= headers.deep_view());
        assert(ph->0 == headers.deep_view());
    }
    let content = copy_range(frame, hdr_end, body_len);
    let rec = RawRecord { headers, content };
    proof {
        assert(rec@.content =~= content_spec);
        assert(rec@ == RecordModel { headers: ph->0, content: content_spec });
    }
    Some(rec)
}

/// Appending one header to a header list appends its encoded line.
proof fn lemma_encode_headers_snoc(hs: Seq<(Seq<u8>, Seq<u8>)>, h: (Seq<u8>, Seq<u8>))
    ensures
        encode_headers(hs.push(h)) == encode_headers(hs) + encode_header(h),
    decreases hs.len(),
{
    if hs.len() == 0 {
        assert(hs.push(h).drop_first() =~= Seq::<(Seq<u8>, Seq<u8>)>::empty());
        assert(encode_headers(hs.push(h)) == encode_header(h) + encode_headers(
            Seq::<(Seq<u8>, Seq<u8>)>::empty(),
        ));
        assert(encode_header(h) + Seq::<u8>::empty() =~= encode_header(h));
        assert(encode_headers(hs) + encode_header(h) =~= encode_header(h));
    } else {
        assert(hs.push(h).drop_first() =~= hs.drop_first().push(h));
        lemma_encode_headers_snoc(hs.drop_first(), h);
        assert(encode_headers(hs.push(h)) == encode_header(hs[0]) + (encode_headers(
            hs.drop_first(),
        ) + encode_header(h)));
        assert(encode_header(hs[0]) + (encode_headers(hs.drop_first()) + encode_header(h)) =~= (
        encode_header(hs[0]) + encode_headers(hs.drop_first())) + encode_header(h));
    }
}

/// Append `src` to `out`.
fn push_bytes(out: &mut Vec<u8>, src: &Vec<u8>)
    ensures
        final(out)@ == old(out)@ + src@,
{
    let mut i: usize = 0;
    while i < src.len()
        invariant
            i <= src@.len(),
            out@ == old(out)@ + src@.subrange(0, i as int),
        decreases src@.len() - i,
    {
        out.push(src[i]);
        assert(out@ =~= old(out)@ + src@.subrange(0, i + 1));
        i = i + 1;
    }
    assert(src@.subrange(0, src@.len() as int) =~= src@);
}

/// Append the decimal digits of `n`.
fn push_dec_digits(out: &mut Vec<u8>, n: usize)
    ensures
        final(out)@ == old(out)@ + dec_digits(n as nat),
    decreases n,
{
    if n < 10 {
        out.push(48 + (n as u8));
        assert(out@ =~= old(out)@ + dec_digits(n as nat));
    } else {
        push_dec_digits(out, n / 10);
        out.push(48 + ((n % 10) as u8));
        proof {
            assert(dec_digits(n as nat) == dec_digits((n as nat) / 10).push(
                (48 + (n as nat) % 10) as u8,
            ));
            assert(out@ =~= old(out)@ + dec_digits(n as nat));
        }
    }
}

/// Encode a record into one frame, the exact bytes of
/// `encode_record_spec`.
pub fn encode_record(rec: &RawRecord) -> (out: Vec<u8>)
    ensures
        out@ == encode_record_spec(rec@),
{
    let mut out = version_line_bytes();
    let label = content_length_label_bytes();
    push_bytes(&mut out, &label);
    push_dec_digits(&mut out, rec.content.len());
    out.push(13);
    out.push(10);
    let ghost head = version_line() + content_length_label() + dec_digits(rec.content@.len())
        + seq![13u8, 10u8];
    proof {
        assert(out@ =~= head);
    }
    let ghost hs = rec.headers.deep_view();
    let mut i: usize = 0;
    proof {
        assert(hs.subrange(0, 0) =~= Seq::<(Seq<u8>, Seq<u8>)>::empty());
        assert(out@ =~= head + encode_headers(hs.subrange(0, 0)));
    }
    while i < rec.headers.len()
        invariant
            i <= rec.headers@.len(),
            hs == rec.headers.deep_view(),
            hs.len() == rec.headers@.len(),
            out@ == head + encode_headers(hs.subrange(0, i as int)),
        decreases rec.headers@.len() - i,
    {
        let ghost before = out@;
        let h = &rec.headers[i];
        push_bytes(&mut out, &h.name);
        out.push(58);
        out.push(32);
        push_bytes(&mut out, &h.value);
        out.push(13);
        out.push(10);
        proof {
            assert(hs[i as int] == (h.name@, h.value@));
            assert(out@ =~= before + encode_header(hs[i as int]));
            assert(hs.subrange(0, i + 1) =~= hs.subrange(0, i as int).push(hs[i as int]));
            lemma_encode_headers_snoc(hs.subrange(0, i as int), hs[i as int]);
            assert(out@ =~= head + encode_headers(hs.subrange(0, i + 1)));
        }
        i = i + 1;
    }
    proof {
        assert(hs.subrange(0, hs.len() as int) =~= hs);
    }
    push_bytes(&mut out, &rec.content);
    out.push(13);
    out.push(10);
    out.push(13);
    out.push(10);
    proof {
        assert(out@ =~= encode_record_spec(rec@));
    }
    out
}

/// A digit string denotes at least what any of its prefixes denotes.
proof fn lemma_digits_value_monotonic(s: Seq<u8>, k: int)
    requires
        0 <= k <= s.len(),
    ensures
        digits_value(s) >= digits_value(s.subrange(0, k)),
    decreases s.len(),
{
    if k == s.len() {
        assert(s.subrange(0, k) =~= s);
    } else {
        let head = s.drop_last();
        assert(digits_value(s) == digits_value(head) * 10 + (s.last() - 48) as nat);
        assert(digits_value(head) * 10 >= digits_value(head)) by {
            assert(digits_value(head) >= 0);
        }
        lemma_digits_value_monotonic(head, k);
        assert(head.subrange(0, k) =~= s.subrange(0, k));
    }
}

} // verus!
