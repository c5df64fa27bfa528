//! The HTTP-shaped protocol spoken over the local IPC channel: building a
//! request, and decoding a response from the bytes read so far.
//!
//! Decoding is a function of the bytes received and of whether the peer has
//! closed the stream. It answers with a complete response and the number of
//! bytes it spans, with "more bytes needed", or with a protocol error. A
//! response that is complete on a prefix stays the same however many bytes
//! follow, so a reader can feed it growing buffers.

use vstd::prelude::*;
use vstd::string::StringSliceAdditionalSpecFns;
use vstd::utf8::{decode_utf8, valid_utf8};
use crate::bytes::{
    contains_ignore_case, contains_ignore_case_exec, eq_ignore_case, find_byte, index_of,
    lemma_index_of, lemma_index_of_extend, lowered, parse_unsigned, trim_bounds, trimmed, unsigned_value, COLON, CR, LF,
};

verus! {

/// Why a response could not be decoded.
#[derive(Debug, Clone, Copy, PartialEq, Eq, Structural)]
pub enum ProtocolError {
    /// The stream ended before the response did.
    ConnectionClosed,
    /// The header block held no status line.
    EmptyResponse,
    /// The status line has fewer than two words.
    InvalidStatusLine,
    /// The second word of the status line is not a 16-bit unsigned number.
    InvalidStatusCode,
    /// A header line is not valid UTF-8.
    InvalidHeaderEncoding,
    /// A chunk-size line is not a hexadecimal number that fits in `usize`.
    InvalidChunkSize,
    /// The body is not valid UTF-8.
    InvalidBodyEncoding,
}

/// A decoded response.
pub struct HttpResponse {
    pub status_code: u16,
    pub headers: Vec<(String, String)>,
    pub body: String,
}

/// What a response is, mathematically.
pub struct ResponseView {
    pub status_code: u16,
    pub headers: Seq<(Seq<char>, Seq<char>)>,
    pub body: Seq<char>,
}

impl View for HttpResponse {
    type V = ResponseView;

    open spec fn view(&self) -> ResponseView {
        ResponseView {
            status_code: self.status_code,
            headers: self.headers@.map_values(|h: (String, String)| (h.0@, h.1@)),
            body: self.body@,
        }
    }
}

/// A decoding step: `Ok(Some((value, end)))` when done (`end` is the index just
/// past what was read), `Ok(None)` when more bytes are needed, or an error.
pub type Step<T> = Result<Option<(T, int)>, ProtocolError>;

/// The end of the line that starts at `pos`: just past its `\n`, or, once the
/// stream is closed, the end of the data. `None` while the line is unfinished.
pub open spec fn line_end(s: Seq<u8>, pos: int, closed: bool) -> Option<int> {
    let k = index_of(s, LF, pos);
    if k >= 0 {
        Some(k + 1)
    } else if closed {
        Some(s.len() as int)
    } else {
        None
    }
}

/// The header block from `pos` on: its lines up to the empty line `\r\n`, each
/// with its line ending, and the index just past that empty line.
pub open spec fn scan_head(s: Seq<u8>, pos: int, closed: bool) -> Step<Seq<Seq<u8>>>
    decreases s.len() - pos,
{
    let k = index_of(s, LF, pos);
    if pos < 0 || k < 0 {
        if closed {
            Err(ProtocolError::ConnectionClosed)
        } else {
            Ok(None)
        }
    } else {
        let line = s.subrange(pos, k + 1);
        if line == seq![CR, LF] {
            Ok(Some((Seq::empty(), k + 1)))
        } else if !valid_utf8(line) {
            Err(ProtocolError::InvalidHeaderEncoding)
        } else {
            proof {
                lemma_index_of(s, LF, pos);
            }
            prepend_lines(seq![line], scan_head(s, k + 1, closed))
        }
    }
}

pub open spec fn prepend_lines(ls: Seq<Seq<u8>>, r: Step<Seq<Seq<u8>>>) -> Step<Seq<Seq<u8>>> {
    match r {
        Ok(Some((more, end))) => Ok(Some((ls + more, end))),
        other => other,
    }
}

/// Whitespace-separated words: the index of the first non-whitespace byte at
/// or after `i`.
pub open spec fn skip_ws(t: Seq<u8>, i: int) -> int
    decreases t.len() - i,
{
    if 0 <= i < t.len() && crate::bytes::is_ws(t[i]) {
        skip_ws(t, i + 1)
    } else {
        i
    }
}

/// The index of the first whitespace byte at or after `i`.
pub open spec fn skip_word(t: Seq<u8>, i: int) -> int
    decreases t.len() - i,
{
    if 0 <= i < t.len() && !crate::bytes::is_ws(t[i]) {
        skip_word(t, i + 1)
    } else {
        i
    }
}

/// The status code of a status line `VERSION SP CODE SP REASON`: its second
/// word, read as a 16-bit unsigned decimal number.
pub open spec fn status_code_of(line: Seq<u8>) -> Result<u16, ProtocolError> {
    let a = skip_ws(line, skip_word(line, skip_ws(line, 0)));
    if a >= line.len() {
        Err(ProtocolError::InvalidStatusLine)
    } else {
        match unsigned_value(line.subrange(a, skip_word(line, a)), 10, 65535) {
            Some(v) => Ok(v as u16),
            None => Err(ProtocolError::InvalidStatusCode),
        }
    }
}

/// Name and value of a header line, split at its first colon and trimmed;
/// `None` for a line without a colon.
pub open spec fn header_of(line: Seq<u8>) -> Option<(Seq<u8>, Seq<u8>)> {
    let c = index_of(line, COLON, 0);
    if c < 0 {
        None
    } else {
        Some(
            (
                trimmed(line.subrange(0, c)),
                trimmed(line.subrange(c + 1, line.len() as int)),
            ),
        )
    }
}

pub open spec fn header_text_ok(line: Seq<u8>) -> bool {
    match header_of(line) {
        Some((n, v)) => valid_utf8(n) && valid_utf8(v),
        None => true,
    }
}

/// The (name, value) pairs of the header lines that have a colon, in order.
pub open spec fn header_fields(lines: Seq<Seq<u8>>) -> Seq<(Seq<char>, Seq<char>)>
    decreases lines.len(),
{
    if lines.len() == 0 {
        Seq::empty()
    } else {
        let rest = header_fields(lines.drop_last());
        match header_of(lines.last()) {
            Some((n, v)) => rest.push((decode_utf8(n), decode_utf8(v))),
            None => rest,
        }
    }
}

pub open spec fn content_length_name() -> Seq<u8> {
    "content-length".spec_bytes()
}

pub open spec fn transfer_encoding_name() -> Seq<u8> {
    "transfer-encoding".spec_bytes()
}

pub open spec fn chunked_word() -> Seq<u8> {
    "chunked".spec_bytes()
}

/// The declared body length: set by the last `Content-Length` header (any
/// case), and `None` when that header's value is not a `usize`.
pub open spec fn content_length(lines: Seq<Seq<u8>>) -> Option<nat>
    decreases lines.len(),
{
    if lines.len() == 0 {
        None
    } else {
        match header_of(lines.last()) {
            Some((n, v)) => if lowered(n) == content_length_name() {
                unsigned_value(v, 10, usize::MAX as nat)
            } else {
                content_length(lines.drop_last())
            },
            None => content_length(lines.drop_last()),
        }
    }
}

pub open spec fn is_chunked_line(line: Seq<u8>) -> bool {
    match header_of(line) {
        Some((n, v)) => lowered(n) == transfer_encoding_name() && contains_ignore_case(
            v,
            chunked_word(),
        ),
        None => false,
    }
}

/// Some `Transfer-Encoding` header (any case) mentions `chunked` (any case).
pub open spec fn is_chunked(lines: Seq<Seq<u8>>) -> bool {
    exists|k: int| 0 <= k < lines.len() && #[trigger] is_chunked_line(lines[k])
}

/// A chunked body from `pos` on: size lines in hexadecimal (blank ones are
/// skipped), each followed by that many bytes and a line ending, up to a size
/// of zero and the line after it.
pub open spec fn scan_chunks(s: Seq<u8>, pos: int, closed: bool) -> Step<Seq<u8>>
    decreases s.len() - pos,
{
    if pos < 0 || pos >= s.len() {
        if closed {
            Err(ProtocolError::ConnectionClosed)
        } else {
            Ok(None)
        }
    } else {
        match line_end(s, pos, closed) {
            None => Ok(None),
            Some(next) => {
                proof {
                    lemma_index_of(s, LF, pos);
                }
                let t = trimmed(s.subrange(pos, next));
                if t.len() == 0 {
                    scan_chunks(s, next, closed)
                } else {
                    match unsigned_value(t, 16, usize::MAX as nat) {
                        None => Err(ProtocolError::InvalidChunkSize),
                        Some(n) => if n == 0 {
                            match line_end(s, next, closed) {
                                None => Ok(None),
                                Some(e) => Ok(Some((Seq::empty(), e))),
                            }
                        } else if next + n > s.len() {
                            if closed {
                                Err(ProtocolError::ConnectionClosed)
                            } else {
                                Ok(None)
                            }
                        } else {
                            match line_end(s, next + n, closed) {
                                None => Ok(None),
                                Some(e) => {
                                    proof {
                                        lemma_index_of(s, LF, next + n);
                                    }
                                    prepend_bytes(
                                        s.subrange(next, next + n),
                                        scan_chunks(s, e, closed),
                                    )
                                },
                            }
                        },
                    }
                }
            },
        }
    }
}

pub open spec fn prepend_bytes(b: Seq<u8>, r: Step<Seq<u8>>) -> Step<Seq<u8>> {
    match r {
        Ok(Some((more, end))) => Ok(Some((b + more, end))),
        other => other,
    }
}

/// The body bytes that follow the header block ending at `start`.
pub open spec fn body_bytes(s: Seq<u8>, start: int, closed: bool, lines: Seq<Seq<u8>>) -> Step<
    Seq<u8>,
> {
    if is_chunked(lines) {
        scan_chunks(s, start, closed)
    } else {
        match content_length(lines) {
            Some(n) => if start + n <= s.len() {
                Ok(Some((s.subrange(start, start + n), start + n)))
            } else if closed {
                Err(ProtocolError::ConnectionClosed)
            } else {
                Ok(None)
            },
            None => Ok(Some((Seq::empty(), start))),
        }
    }
}

/// The response that the bytes `s` begin with, `closed` telling whether the
/// stream has ended after them.
pub open spec fn response_of(s: Seq<u8>, closed: bool) -> Step<ResponseView> {
    match scan_head(s, 0, closed) {
        Err(e) => Err(e),
        Ok(None) => Ok(None),
        Ok(Some((lines, start))) => if lines.len() == 0 {
            Err(ProtocolError::EmptyResponse)
        } else {
            match status_code_of(lines[0]) {
                Err(e) => Err(e),
                Ok(code) => {
                    let rest = lines.drop_first();
                    match body_bytes(s, start, closed, rest) {
                        Err(e) => Err(e),
                        Ok(None) => Ok(None),
                        Ok(Some((b, end))) => if valid_utf8(b) {
                            Ok(
                                Some(
                                    (
                                        ResponseView {
                                            status_code: code,
                                            headers: header_fields(rest),
                                            body: decode_utf8(b),
                                        },
                                        end,
                                    ),
                                ),
                            )
                        } else {
                            Err(ProtocolError::InvalidBodyEncoding)
                        },
                    }
                },
            }
        },
    }
}

/// Relies on `String::from_utf8`: it accepts exactly the valid UTF-8 byte
/// sequences and then holds the characters they encode.
#[verifier::external_body]
fn string_from_utf8(bytes: Vec<u8>) -> (r: Option<String>)
    ensures
        r is Some <==> valid_utf8(bytes@),
        r matches Some(s) ==> s@ == decode_utf8(bytes@),
{
    String::from_utf8(bytes).ok()
}

fn text_of(bytes: &[u8]) -> (r: Option<String>)
    ensures
        r is Some <==> valid_utf8(bytes@),
        r matches Some(s) ==> s@ == decode_utf8(bytes@),
{
    string_from_utf8(vstd::slice::slice_to_vec(bytes))
}

/// The lines that `rs` delimits in `s`.
pub open spec fn ranges_view(s: Seq<u8>, rs: Seq<(usize, usize)>) -> Seq<Seq<u8>> {
    rs.map_values(|r: (usize, usize)| s.subrange(r.0 as int, r.1 as int))
}

pub open spec fn ranges_within(rs: Seq<(usize, usize)>, len: nat) -> bool {
    forall|k: int| 0 <= k < rs.len() ==> #[trigger] rs[k].0 <= rs[k].1 <= len
}

pub open spec fn opt_nat(o: Option<usize>) -> Option<nat> {
    match o {
        Some(v) => Some(v as nat),
        None => None,
    }
}

/// What a decoding result stands for.
pub open spec fn step_view(r: Result<Option<(HttpResponse, usize)>, ProtocolError>) -> Step<
    ResponseView,
> {
    match r {
        Ok(Some((resp, end))) => Ok(Some((resp@, end as int))),
        Ok(None) => Ok(None),
        Err(e) => Err(e),
    }
}

pub open spec fn head_view(
    s: Seq<u8>,
    r: Result<Option<(Vec<(usize, usize)>, usize)>, ProtocolError>,
) -> Step<Seq<Seq<u8>>> {
    match r {
        Ok(Some((rs, end))) => Ok(Some((ranges_view(s, rs@), end as int))),
        Ok(None) => Ok(None),
        Err(e) => Err(e),
    }
}

fn line_end_exec(s: &[u8], pos: usize, closed: bool) -> (r: Option<usize>)
    requires
        pos <= s@.len(),
    ensures
        match r {
            Some(e) => line_end(s@, pos as int, closed) == Some(e as int) && pos <= e <= s@.len()
                && (pos < s@.len() ==> pos < e),
            None => line_end(s@, pos as int, closed) is None,
        },
{
    let n = s.len();
    proof {
        lemma_index_of(s@, LF, pos as int);
    }
    match find_byte(s, LF, pos) {
        Some(k) => Some(k + 1),
        None => if closed {
            Some(s.len())
        } else {
            None
        },
    }
}

fn read_head(s: &[u8], closed: bool) -> (r: Result<Option<(Vec<(usize, usize)>, usize)>, ProtocolError>)
    ensures
        head_view(s@, r) == scan_head(s@, 0, closed),
        r matches Ok(Some((rs, end))) ==> ranges_within(rs@, s@.len()) && end <= s@.len(),
{
    let n = s.len();
    let mut rs: Vec<(usize, usize)> = Vec::new();
    let mut pos: usize = 0;
    assert(prepend_lines(ranges_view(s@, rs@), scan_head(s@, 0, closed)) == scan_head(
        s@,
        0,
        closed,
    )) by {
        assert(ranges_view(s@, rs@) =~= Seq::<Seq<u8>>::empty());
        match scan_head(s@, 0, closed) {
            Ok(Some((more, end))) => {
                assert(Seq::<Seq<u8>>::empty() + more =~= more);
            },
            _ => {},
        }
    }
    loop
        invariant
            pos <= s@.len() == n,
            ranges_within(rs@, s@.len()),
            scan_head(s@, 0, closed) == prepend_lines(ranges_view(s@, rs@), scan_head(s@, pos as int, closed)),
        decreases s@.len() - pos,
    {
        proof {
            lemma_index_of(s@, LF, pos as int);
        }
        let ghost ls = ranges_view(s@, rs@);
        match find_byte(s, LF, pos) {
            None => {
                if closed {
                    return Err(ProtocolError::ConnectionClosed);
                } else {
                    return Ok(None);
                }
            },
            Some(k) => {
                let ghost line = s@.subrange(pos as int, k + 1);
                if k == pos + 1 && s[pos] == CR {
                    assert(line =~= seq![CR, LF]);
                    assert(ls + Seq::<Seq<u8>>::empty() =~= ls);
                    return Ok(Some((rs, k + 1)));
                }
                assert(line != seq![CR, LF]) by {
                    if k != pos + 1 {
                        assert(line.len() != 2);
                    } else {
                        assert(line[0] != CR);
                    }
                }
                if text_of(&s[pos..k + 1]).is_none() {
                    return Err(ProtocolError::InvalidHeaderEncoding);
                }
                rs.push((pos, k + 1));
                assert(ranges_view(s@, rs@) =~= ls + seq![line]);
                proof {
                    match scan_head(s@, k as int + 1, closed) {
                        Ok(Some((more, end))) => {
                            assert(ls + (seq![line] + more) =~= (ls + seq![line]) + more);
                        },
                        _ => {},
                    }
                }
                pos = k + 1;
            },
        }
    }
}

fn skip_ws_exec(t: &[u8], i: usize) -> (r: usize)
    requires
        i <= t@.len(),
    ensures
        r as int == skip_ws(t@, i as int),
        i <= r <= t@.len(),
{
    let mut j = i;
    while j < t.len() && (t[j] == 32 || (9 <= t[j] && t[j] <= 13))
        invariant
            i <= j <= t@.len(),
            skip_ws(t@, i as int) == skip_ws(t@, j as int),
        decreases t@.len() - j,
    {
        j = j + 1;
    }
    j
}

fn skip_word_exec(t: &[u8], i: usize) -> (r: usize)
    requires
        i <= t@.len(),
    ensures
        r as int == skip_word(t@, i as int),
        i <= r <= t@.len(),
{
    let mut j = i;
    while j < t.len() && !(t[j] == 32 || (9 <= t[j] && t[j] <= 13))
        invariant
            i <= j <= t@.len(),
            skip_word(t@, i as int) == skip_word(t@, j as int),
        decreases t@.len() - j,
    {
        j = j + 1;
    }
    j
}

/// The status code of a status line: its second whitespace-separated word,
/// as a 16-bit unsigned decimal number.
pub fn status_code(line: &[u8]) -> (r: Result<u16, ProtocolError>)
    ensures
        r == status_code_of(line@),
{
    let a0 = skip_ws_exec(line, 0);
    let w = skip_word_exec(line, a0);
    let a = skip_ws_exec(line, w);
    if a >= line.len() {
        return Err(ProtocolError::InvalidStatusLine);
    }
    let b = skip_word_exec(line, a);
    match parse_unsigned(&line[a..b], 10, 65535) {
        Some(v) => Ok(v as u16),
        None => Err(ProtocolError::InvalidStatusCode),
    }
}

/// The header fields of a header block, with the declared length and
/// whether the body is chunked.
pub struct HeaderSummary {
    pub fields: Vec<(String, String)>,
    pub content_length: Option<usize>,
    pub chunked: bool,
}

pub open spec fn fields_view(hs: Seq<(String, String)>) -> Seq<(Seq<char>, Seq<char>)> {
    hs.map_values(|h: (String, String)| (h.0@, h.1@))
}

pub open spec fn summary_matches(h: HeaderSummary, lines: Seq<Seq<u8>>) -> bool {
    &&& fields_view(h.fields@) == header_fields(lines)
    &&& opt_nat(h.content_length) == content_length(lines)
    &&& h.chunked == is_chunked(lines)
}

pub open spec fn all_valid_utf8(lines: Seq<Seq<u8>>) -> bool {
    forall|k: int| 0 <= k < lines.len() ==> valid_utf8(#[trigger] lines[k])
}

/// Reads the header lines `rs[1..]` of `s`.
fn read_headers(s: &[u8], rs: &Vec<(usize, usize)>) -> (r: HeaderSummary)
    requires
        ranges_within(rs@, s@.len()),
        rs@.len() >= 1,
        all_valid_utf8(ranges_view(s@, rs@)),
    ensures
        summary_matches(r, ranges_view(s@, rs@).drop_first()),
{
    let ghost all = ranges_view(s@, rs@).drop_first();
    let mut fields: Vec<(String, String)> = Vec::new();
    let mut content_len: Option<usize> = None;
    let mut chunked = false;
    let mut i: usize = 1;
    assert(all.subrange(0, 0) =~= Seq::<Seq<u8>>::empty());
    assert(fields_view(fields@) =~= Seq::<(Seq<char>, Seq<char>)>::empty());
    while i < rs.len()
        invariant
            1 <= i <= rs@.len(),
            ranges_within(rs@, s@.len()),
            all == ranges_view(s@, rs@).drop_first(),
            all_valid_utf8(ranges_view(s@, rs@)),
            fields_view(fields@) == header_fields(all.subrange(0, i - 1)),
            opt_nat(content_len) == content_length(all.subrange(0, i - 1)),
            chunked == is_chunked(all.subrange(0, i - 1)),
        decreases rs@.len() - i,
    {
        let ghost before = all.subrange(0, i - 1);
        let ghost after = all.subrange(0, i as int);
        let (lo, hi) = rs[i];
        proof {
            assert(rs@[i as int].0 <= rs@[i as int].1 <= s@.len());
        }
        let line = &s[lo..hi];
        assert(line@ == all[i - 1]);
        assert(after.drop_last() =~= before);
        assert(after.last() == line@);
        assert(forall|k: int| 0 <= k < before.len() ==> after[k] == before[k]);
        let ln = line.len();
        proof {
            lemma_index_of(line@, COLON, 0);
        }
        match find_byte(line, COLON, 0) {
            None => {
                assert(header_of(line@) is None);
                assert(is_chunked(after) == is_chunked(before)) by {
                    if is_chunked(after) {
                        let k = choose|k: int| 0 <= k < after.len() && #[trigger] is_chunked_line(after[k]);
                        assert(k < before.len());
                        assert(is_chunked_line(before[k]));
                    }
                    if is_chunked(before) {
                        let k = choose|k: int| 0 <= k < before.len() && #[trigger] is_chunked_line(before[k]);
                        assert(is_chunked_line(after[k]));
                    }
                }
            },
            Some(c) => {
                let name_part = &line[0..c];
                let (a, b) = trim_bounds(name_part);
                let name = &name_part[a..b];
                let value_part = &line[c + 1..ln];
                let (a2, b2) = trim_bounds(value_part);
                let value = &value_part[a2..b2];
                assert(header_of(line@) == Some((name@, value@)));
                proof {
                    assert(valid_utf8(ranges_view(s@, rs@)[i as int]));
                    lemma_header_fields_valid(line@);
                }
                let name_text = text_of(name).unwrap();
                let value_text = text_of(value).unwrap();
                if eq_ignore_case(name, "content-length".as_bytes()) {
                    content_len = parse_unsigned(value, 10, usize::MAX);
                }
                let this_chunked = eq_ignore_case(name, "transfer-encoding".as_bytes())
                    && contains_ignore_case_exec(value, "chunked".as_bytes());
                assert(this_chunked == is_chunked_line(line@));
                assert(is_chunked(after) == (is_chunked(before) || this_chunked)) by {
                    if is_chunked(after) {
                        let k = choose|k: int| 0 <= k < after.len() && #[trigger] is_chunked_line(after[k]);
                        if k < before.len() {
                            assert(is_chunked_line(before[k]));
                        }
                    }
                    if is_chunked(before) {
                        let k = choose|k: int| 0 <= k < before.len() && #[trigger] is_chunked_line(before[k]);
                        assert(is_chunked_line(after[k]));
                    }
                    if this_chunked {
                        assert(is_chunked_line(after[before.len() as int]));
                    }
                }
                chunked = chunked || this_chunked;
                let ghost old_fields = fields@;
                fields.push((name_text, value_text));
                assert(fields_view(fields@) =~= fields_view(old_fields).push(
                    (decode_utf8(name@), decode_utf8(value@)),
                ));
            },
        }
        i = i + 1;
    }
    assert(all.subrange(0, rs@.len() - 1) =~= all);
    HeaderSummary { fields, content_length: content_len, chunked }
}

pub open spec fn bytes_step_view(r: Result<Option<(Vec<u8>, usize)>, ProtocolError>) -> Step<
    Seq<u8>,
> {
    match r {
        Ok(Some((b, end))) => Ok(Some((b@, end as int))),
        Ok(None) => Ok(None),
        Err(e) => Err(e),
    }
}

/// Reads a chunked body that starts at `start`.
fn read_chunks(s: &[u8], start: usize, closed: bool) -> (r: Result<
    Option<(Vec<u8>, usize)>,
    ProtocolError,
>)
    requires
        start <= s@.len(),
    ensures
        bytes_step_view(r) == scan_chunks(s@, start as int, closed),
        r matches Ok(Some((b, end))) ==> end <= s@.len(),
{
    let n = s.len();
    let mut body: Vec<u8> = Vec::new();
    let mut pos = start;
    assert(prepend_bytes(body@, scan_chunks(s@, start as int, closed)) == scan_chunks(
        s@,
        start as int,
        closed,
    )) by {
        match scan_chunks(s@, start as int, closed) {
            Ok(Some((more, end))) => {
                assert(body@ + more =~= more);
            },
            _ => {},
        }
    }
    loop
        invariant
            start <= pos <= s@.len() == n,
            scan_chunks(s@, start as int, closed) == prepend_bytes(
                body@,
                scan_chunks(s@, pos as int, closed),
            ),
        decreases s@.len() - pos,
    {
        if pos >= n {
            if closed {
                return Err(ProtocolError::ConnectionClosed);
            } else {
                return Ok(None);
            }
        }
        let next = match line_end_exec(s, pos, closed) {
            None => {
                return Ok(None);
            },
            Some(e) => e,
        };
        proof {
            lemma_index_of(s@, LF, pos as int);
        }
        let line = &s[pos..next];
        let (a, b) = trim_bounds(line);
        if a < b {
            match parse_unsigned(&line[a..b], 16, usize::MAX) {
                None => {
                    return Err(ProtocolError::InvalidChunkSize);
                },
                Some(size) => {
                    if size == 0 {
                        match line_end_exec(s, next, closed) {
                            None => {
                                return Ok(None);
                            },
                            Some(e) => {
                                assert(body@ + Seq::<u8>::empty() =~= body@);
                                return Ok(Some((body, e)));
                            },
                        }
                    }
                    if size > n - next {
                        if closed {
                            return Err(ProtocolError::ConnectionClosed);
                        } else {
                            return Ok(None);
                        }
                    }
                    let e = match line_end_exec(s, next + size, closed) {
                        None => {
                            return Ok(None);
                        },
                        Some(e) => e,
                    };
                    proof {
                        lemma_index_of(s@, LF, next + size);
                    }
                    let ghost before = body@;
                    let chunk = &s[next..next + size];
                    let mut piece = vstd::slice::slice_to_vec(chunk);
                    body.append(&mut piece);
                    proof {
                        match scan_chunks(s@, e as int, closed) {
                            Ok(Some((more, end))) => {
                                assert(before + (chunk@ + more) =~= (before + chunk@) + more);
                            },
                            _ => {},
                        }
                    }
                    pos = e;
                },
            }
        } else {
            pos = next;
        }
    }
}

/// Decodes the response that `data` begins with; `closed` tells whether the
/// stream ended after these bytes. On success, also gives the number of bytes
/// the response spans: what follows them is left for the next read.
pub fn decode_response(data: &[u8], closed: bool) -> (r: Result<
    Option<(HttpResponse, usize)>,
    ProtocolError,
>)
    ensures
        step_view(r) == response_of(data@, closed),
        r matches Ok(Some((resp, end))) ==> end <= data@.len(),
{
    let (rs, start) = match read_head(data, closed) {
        Err(e) => {
            return Err(e);
        },
        Ok(None) => {
            return Ok(None);
        },
        Ok(Some(head)) => head,
    };
    let ghost lines = ranges_view(data@, rs@);
    if rs.len() == 0 {
        return Err(ProtocolError::EmptyResponse);
    }
    let (lo, hi) = rs[0];
    proof {
        assert(rs@[0].0 <= rs@[0].1 <= data@.len());
    }
    let code = match status_code(&data[lo..hi]) {
        Err(e) => {
            return Err(e);
        },
        Ok(c) => c,
    };
    proof {
        lemma_scan_head_valid(data@, 0, closed);
    }
    let summary = read_headers(data, &rs);
    let ghost rest = lines.drop_first();
    let body_step = if summary.chunked {
        read_chunks(data, start, closed)
    } else {
        match summary.content_length {
            Some(len) => {
                if len <= data.len() - start {
                    let b = vstd::slice::slice_to_vec(&data[start..start + len]);
                    Ok(Some((b, start + len)))
                } else if closed {
                    Err(ProtocolError::ConnectionClosed)
                } else {
                    Ok(None)
                }
            },
            None => Ok(Some((Vec::new(), start))),
        }
    };
    assert(bytes_step_view(body_step) == body_bytes(data@, start as int, closed, rest)) by {
        if let Ok(Some((b, e))) = body_step {
            if !summary.chunked && summary.content_length is None {
                assert(b@ =~= Seq::<u8>::empty());
            }
        }
    }
    match body_step {
        Err(e) => Err(e),
        Ok(None) => Ok(None),
        Ok(Some((b, end))) => {
            match text_of(b.as_slice()) {
                Some(body) => Ok(Some((HttpResponse { status_code: code, headers: summary.fields, body }, end))),
                None => Err(ProtocolError::InvalidBodyEncoding),
            }
        },
    }
}

/// The decimal digit `d` as a character.
pub open spec fn digit_char(d: nat) -> char {
    "0123456789"@[d as int]
}

/// `n` written in decimal, without leading zeros.
pub open spec fn decimal(n: nat) -> Seq<char>
    decreases n,
{
    if n < 10 {
        seq![digit_char(n)]
    } else {
        decimal(n / 10).push(digit_char(n % 10))
    }
}

/// `n` written in decimal.
pub fn decimal_text(n: usize) -> (r: String)
    ensures
        r@ == decimal(n as nat),
    decreases n,
{
    let digits = "0123456789";
    proof {
        reveal_strlit("0123456789");
    }
    let d = n % 10;
    let last = digits.substring_ascii(d, d + 1);
    assert(last@ =~= seq![digit_char(d as nat)]);
    if n < 10 {
        String::from_str(last)
    } else {
        let mut r = decimal_text(n / 10);
        r.append(last);
        r
    }
}

/// The request line: method, path and protocol version.
pub open spec fn request_line(method: Seq<char>, path: Seq<char>) -> Seq<char> {
    method + " "@ + path + " HTTP/1.1\r\n"@
}

/// What follows the request line: the `Host` header, and, with a body, its
/// content type and exact UTF-8 byte length, then a blank line and the body.
pub open spec fn request_rest(body: Option<&str>) -> Seq<char> {
    match body {
        Some(b) => "Host: localhost\r\n"@ + "Content-Type: application/json\r\n"@
            + "Content-Length: "@ + decimal(b.spec_bytes().len()) + "\r\n"@ + "\r\n"@ + b@,
        None => "Host: localhost\r\n"@ + "\r\n"@,
    }
}

/// The request text.
pub open spec fn request_text(method: Seq<char>, path: Seq<char>, body: Option<&str>) -> Seq<char> {
    request_line(method, path) + request_rest(body)
}

/// Builds the request text for `method` on `path`, with an optional JSON body.
pub fn build_request(method: &str, path: &str, body: Option<&str>) -> (r: String)
    ensures
        r@ == request_text(method@, path@, body),
{
    let mut r = String::from_str(method);
    r.append(" ");
    r.append(path);
    r.append(" HTTP/1.1\r\n");
    r.append("Host: localhost\r\n");
    match body {
        Some(b) => {
            r.append("Content-Type: application/json\r\n");
            r.append("Content-Length: ");
            let len = decimal_text(b.as_bytes().len());
            r.append(len.as_str());
            r.append("\r\n");
            r.append("\r\n");
            r.append(b);
        },
        None => {
            r.append("\r\n");
        },
    }
    assert(r@ =~= request_text(method@, path@, body));
    r
}

proof fn lemma_line_end_extend(s: Seq<u8>, t: Seq<u8>, pos: int, closed: bool)
    requires
        0 <= pos,
        line_end(s, pos, false) is Some,
    ensures
        line_end(s + t, pos, closed) == line_end(s, pos, false),
{
    lemma_index_of_extend(s, t, LF, pos);
}

proof fn lemma_scan_head_extend(s: Seq<u8>, t: Seq<u8>, pos: int, closed: bool)
    requires
        0 <= pos,
        scan_head(s, pos, false) is Ok,
        scan_head(s, pos, false)->Ok_0 is Some,
    ensures
        scan_head(s + t, pos, closed) == scan_head(s, pos, false),
    decreases s.len() - pos,
{
    let k = index_of(s, LF, pos);
    lemma_index_of(s, LF, pos);
    lemma_index_of_extend(s, t, LF, pos);
    let line = s.subrange(pos, k + 1);
    assert((s + t).subrange(pos, k + 1) =~= line);
    if line != seq![CR, LF] {
        lemma_scan_head_extend(s, t, k + 1, closed);
    }
}

proof fn lemma_scan_chunks_extend(s: Seq<u8>, t: Seq<u8>, pos: int, closed: bool)
    requires
        0 <= pos,
        scan_chunks(s, pos, false) is Ok,
        scan_chunks(s, pos, false)->Ok_0 is Some,
    ensures
        scan_chunks(s + t, pos, closed) == scan_chunks(s, pos, false),
    decreases s.len() - pos,
{
    let st = s + t;
    lemma_index_of(s, LF, pos);
    lemma_line_end_extend(s, t, pos, closed);
    let next = line_end(s, pos, false)->Some_0;
    assert(st.subrange(pos, next) =~= s.subrange(pos, next));
    let tr = trimmed(s.subrange(pos, next));
    if tr.len() == 0 {
        lemma_scan_chunks_extend(s, t, next, closed);
    } else {
        let n = unsigned_value(tr, 16, usize::MAX as nat)->Some_0;
        if n == 0 {
            lemma_line_end_extend(s, t, next, closed);
        } else {
            lemma_index_of(s, LF, next + n);
            lemma_line_end_extend(s, t, next + n, closed);
            let e = line_end(s, next + n, false)->Some_0;
            assert(st.subrange(next, next + n) =~= s.subrange(next, next + n));
            lemma_scan_chunks_extend(s, t, e, closed);
        }
    }
}

proof fn lemma_scan_head_end(s: Seq<u8>, pos: int, closed: bool)
    requires
        0 <= pos,
    ensures
        scan_head(s, pos, closed) matches Ok(Some((lines, e))) ==> pos < e <= s.len(),
    decreases s.len() - pos,
{
    let k = index_of(s, LF, pos);
    lemma_index_of(s, LF, pos);
    if k >= 0 {
        lemma_scan_head_end(s, k + 1, closed);
    }
}

/// A response that is complete on the bytes received so far stays the same,
/// and ends at the same place, whatever bytes follow and whether or not the
/// stream then closes: decoding never reads past the end of a response.
pub proof fn lemma_response_prefix_stable(s: Seq<u8>, t: Seq<u8>, closed: bool)
    requires
        response_of(s, false) is Ok,
        response_of(s, false)->Ok_0 is Some,
    ensures
        response_of(s + t, closed) == response_of(s, false),
{
    lemma_scan_head_extend(s, t, 0, closed);
    lemma_scan_head_end(s, 0, false);
    let (lines, start) = scan_head(s, 0, false)->Ok_0->Some_0;
    let rest = lines.drop_first();
    if is_chunked(rest) {
        lemma_scan_chunks_extend(s, t, start, closed);
    } else if let Some(n) = content_length(rest) {
        assert((s + t).subrange(start, start + n) =~= s.subrange(start, start + n));
    }
}

proof fn lemma_drop_first_ascii_valid(t: Seq<u8>)
    requires
        valid_utf8(t),
        t.len() > 0,
        t[0] < 128,
    ensures
        valid_utf8(t.drop_first()),
{
    assert(vstd::utf8::pop_first_scalar(t) =~= t.drop_first());
}

proof fn lemma_drop_last_ascii_valid(t: Seq<u8>)
    requires
        valid_utf8(t),
        t.len() > 0,
        t.last() < 128,
    ensures
        valid_utf8(t.drop_last()),
{
    let n = t.len() as int;
    vstd::utf8::is_char_boundary_iff_not_is_continuation_byte(t, n - 1);
    vstd::utf8::valid_utf8_split(t, n - 1);
    assert(t.subrange(0, n - 1) =~= t.drop_last());
}

proof fn lemma_trimmed_valid(t: Seq<u8>)
    requires
        valid_utf8(t),
    ensures
        valid_utf8(trimmed(t)),
{
    lemma_trim_start_valid(t);
    lemma_trim_end_valid(crate::bytes::trim_start(t));
}

proof fn lemma_trim_start_valid(t: Seq<u8>)
    requires
        valid_utf8(t),
    ensures
        valid_utf8(crate::bytes::trim_start(t)),
    decreases t.len(),
{
    if t.len() > 0 && crate::bytes::is_ws(t[0]) {
        lemma_drop_first_ascii_valid(t);
        lemma_trim_start_valid(t.drop_first());
    }
}

proof fn lemma_trim_end_valid(t: Seq<u8>)
    requires
        valid_utf8(t),
    ensures
        valid_utf8(crate::bytes::trim_end(t)),
    decreases t.len(),
{
    if t.len() > 0 && crate::bytes::is_ws(t.last()) {
        lemma_drop_last_ascii_valid(t);
        lemma_trim_end_valid(t.drop_last());
    }
}

/// The name and value of a valid UTF-8 header line are valid UTF-8: the line
/// is cut at an ASCII colon and trimmed of ASCII whitespace.
proof fn lemma_header_fields_valid(line: Seq<u8>)
    requires
        valid_utf8(line),
    ensures
        header_text_ok(line),
{
    let c = index_of(line, COLON, 0);
    lemma_index_of(line, COLON, 0);
    if c >= 0 {
        vstd::utf8::is_char_boundary_iff_not_is_continuation_byte(line, c);
        vstd::utf8::valid_utf8_split(line, c);
        let tail = line.subrange(c, line.len() as int);
        lemma_drop_first_ascii_valid(tail);
        assert(tail.drop_first() =~= line.subrange(c + 1, line.len() as int));
        lemma_trimmed_valid(line.subrange(0, c));
        lemma_trimmed_valid(line.subrange(c + 1, line.len() as int));
    }
}

/// Every line of a scanned header block is valid UTF-8.
proof fn lemma_scan_head_valid(s: Seq<u8>, pos: int, closed: bool)
    ensures
        scan_head(s, pos, closed) matches Ok(Some((lines, e))) ==> all_valid_utf8(lines),
    decreases s.len() - pos,
{
    let k = index_of(s, LF, pos);
    if pos >= 0 && k >= 0 {
        lemma_index_of(s, LF, pos);
        let line = s.subrange(pos, k + 1);
        if line != seq![CR, LF] && valid_utf8(line) {
            lemma_scan_head_valid(s, k + 1, closed);
            if let Ok(Some((more, e))) = scan_head(s, k + 1, closed) {
                let all = seq![line] + more;
                assert forall|j: int| 0 <= j < all.len() implies valid_utf8(#[trigger] all[j]) by {
                    if j > 0 {
                        assert(all[j] == more[j - 1]);
                    }
                }
            }
        }
    }
}

} // verus!
