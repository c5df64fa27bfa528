//! A request is understood by the response decoder: a peer that answers by
//! echoing the request's headers and body after a status line of its own is
//! decoded back to the body that was sent.

use vstd::prelude::*;
use vstd::utf8::{
    decode_utf8, encode_utf8, encode_utf8_decode_utf8, encode_utf8_valid_utf8, is_ascii_chars,
    is_ascii_chars_encode_utf8, partial_valid_utf8_extend_ascii_block, valid_utf8,
};
use crate::bytes::{
    all_digits, digit_value, digits_value, index_of, lowered, trim_end, trim_start, trimmed,
    unsigned_value, COLON, CR, LF,
};
use crate::codec::{
    body_bytes, content_length, is_chunked, lemma_response_prefix_stable, request_rest,
    response_of, ResponseView, Step, content_length_name, skip_word, skip_ws, status_code_of, decimal, digit_char, header_of, is_chunked_line, prepend_lines, scan_head,
    transfer_encoding_name,
};
use vstd::string::StringSliceAdditionalSpecFns;

verus! {

/// The encoding of a concatenation is the concatenation of the encodings.
proof fn lemma_encode_concat(a: Seq<char>, b: Seq<char>)
    ensures
        encode_utf8(a + b) == encode_utf8(a) + encode_utf8(b),
    decreases a.len(),
{
    if a.len() == 0 {
        assert(a + b =~= b);
        assert(encode_utf8(a) + encode_utf8(b) =~= encode_utf8(b));
    } else {
        assert((a + b).drop_first() =~= a.drop_first() + b);
        assert((a + b)[0] == a[0]);
        lemma_encode_concat(a.drop_first(), b);
        assert(encode_utf8(a + b) =~= encode_utf8(a) + encode_utf8(b));
    }
}

/// Bytes below 128 are valid UTF-8.
proof fn lemma_ascii_valid(b: Seq<u8>)
    requires
        forall|i: int| 0 <= i < b.len() ==> b[i] < 128,
    ensures
        valid_utf8(b),
{
    assert(b.subrange(0, 0) =~= Seq::<u8>::empty());
    assert(valid_utf8(Seq::<u8>::empty()));
    partial_valid_utf8_extend_ascii_block(b, 0, b.len() as int);
    assert(b.subrange(0, b.len() as int) =~= b);
}

/// The first `b` at or after `pos` is at `k` when none stands before it.
proof fn lemma_index_of_at(s: Seq<u8>, b: u8, pos: int, k: int)
    requires
        0 <= pos <= k < s.len(),
        s[k] == b,
        forall|j: int| pos <= j < k ==> s[j] != b,
    ensures
        index_of(s, b, pos) == k,
    decreases k - pos,
{
    if pos < k {
        lemma_index_of_at(s, b, pos + 1, k);
    }
}

/// Stepping the header scan over one line `s[pos..pos + len]`.
proof fn lemma_scan_line(s: Seq<u8>, pos: int, len: int, closed: bool)
    requires
        0 <= pos,
        3 <= len,
        pos + len <= s.len(),
        s[pos + len - 1] == LF,
        forall|j: int| pos <= j < pos + len - 1 ==> s[j] != LF,
        forall|j: int| pos <= j < pos + len ==> s[j] < 128,
    ensures
        scan_head(s, pos, closed) == prepend_lines(
            seq![s.subrange(pos, pos + len)],
            scan_head(s, pos + len, closed),
        ),
{
    lemma_index_of_at(s, LF, pos, pos + len - 1);
    let line = s.subrange(pos, pos + len);
    assert(line.len() != 2);
    lemma_ascii_valid(line);
}

/// The header scan ends at an empty line `\r\n` at `pos`.
proof fn lemma_scan_end(s: Seq<u8>, pos: int, closed: bool)
    requires
        0 <= pos,
        pos + 2 <= s.len(),
        s[pos] == CR,
        s[pos + 1] == LF,
    ensures
        scan_head(s, pos, closed) == Ok::<Option<(Seq<Seq<u8>>, int)>, crate::codec::ProtocolError>(
            Some((Seq::<Seq<u8>>::empty(), pos + 2)),
        ),
{
    lemma_index_of_at(s, LF, pos, pos + 1);
    assert(s.subrange(pos, pos + 2) =~= seq![CR, LF]);
}

/// Characters as bytes, one for one (right for ASCII text).
pub open spec fn ascii_bytes(c: Seq<char>) -> Seq<u8> {
    c.map_values(|x: char| x as u8)
}

pub open spec fn is_digit_char(c: char) -> bool {
    '0' <= c && c <= '9'
}

/// `decimal(n)` is one or more digits that read back as `n`.
proof fn lemma_decimal(n: nat)
    ensures
        decimal(n).len() >= 1,
        forall|i: int| 0 <= i < decimal(n).len() ==> is_digit_char(#[trigger] decimal(n)[i]),
        all_digits(ascii_bytes(decimal(n)), 10),
        digits_value(ascii_bytes(decimal(n)), 10) == n,
    decreases n,
{
    reveal_strlit("0123456789");
    let d = (n % 10) as nat;
    let c = digit_char(d);
    assert(is_digit_char(c) && c as u8 == 48 + d);
    assert(digit_value(c as u8, 10) == d);
    if n < 10 {
        assert(ascii_bytes(decimal(n)).drop_last() =~= Seq::<u8>::empty());
        assert(digits_value(Seq::<u8>::empty(), 10) == 0);
        assert(ascii_bytes(decimal(n)).last() == c as u8);
    } else {
        let p = decimal(n / 10);
        lemma_decimal(n / 10);
        assert(ascii_bytes(decimal(n)) =~= ascii_bytes(p).push(c as u8));
        assert(ascii_bytes(decimal(n)).drop_last() =~= ascii_bytes(p));
        assert(ascii_bytes(decimal(n)).last() == c as u8);
        assert(n == (n / 10) * 10 + n % 10);
        assert(digits_value(ascii_bytes(decimal(n)), 10) == digits_value(ascii_bytes(p), 10) * 10 + d);
    }
}

proof fn lemma_trim_start_len(t: Seq<u8>)
    ensures
        trim_start(t).len() <= t.len(),
    decreases t.len(),
{
    if t.len() > 0 && crate::bytes::is_ws(t[0]) {
        lemma_trim_start_len(t.drop_first());
    }
}

proof fn lemma_trim_end_len(t: Seq<u8>)
    ensures
        trim_end(t).len() <= t.len(),
    decreases t.len(),
{
    if t.len() > 0 && crate::bytes::is_ws(t.last()) {
        lemma_trim_end_len(t.drop_last());
    }
}

/// Trimming never lengthens.
proof fn lemma_trimmed_len(t: Seq<u8>)
    ensures
        trimmed(t).len() <= t.len(),
{
    lemma_trim_start_len(t);
    lemma_trim_end_len(trim_start(t));
}

/// The first `b` at or after `pos` stands no later than any `b` there.
proof fn lemma_index_of_le(s: Seq<u8>, b: u8, pos: int, k: int)
    requires
        0 <= pos <= k < s.len(),
        s[k] == b,
    ensures
        pos <= index_of(s, b, pos) <= k,
    decreases k - pos,
{
    if pos < k && s[pos] != b {
        lemma_index_of_le(s, b, pos + 1, k);
    }
}

/// A header line with a colon within its first 16 bytes names no
/// `Transfer-Encoding`, whose name is longer.
proof fn lemma_short_name_not_chunked(l: Seq<u8>, k: int)
    requires
        0 <= k < l.len(),
        k < 17,
        l[k] == COLON,
    ensures
        !is_chunked_line(l),
        header_of(l) matches Some((n, v)) && n.len() <= k,
{
    lemma_index_of_le(l, COLON, 0, k);
    let c = index_of(l, COLON, 0);
    lemma_trimmed_len(l.subrange(0, c));
    reveal_strlit("transfer-encoding");
    assert(is_ascii_chars("transfer-encoding"@));
    is_ascii_chars_encode_utf8("transfer-encoding"@);
    assert(transfer_encoding_name().len() == 17);
}

pub open spec fn echo_status_line() -> Seq<char> {
    "HTTP/1.1 200 OK\r\n"@
}

proof fn lemma_status_200(l: Seq<u8>)
    requires
        l == ascii_bytes(echo_status_line()),
    ensures
        status_code_of(l) == Ok::<u16, crate::codec::ProtocolError>(200),
{
    reveal_strlit("HTTP/1.1 200 OK\r\n");
    assert(l.len() == 17);
    reveal_with_fuel(skip_ws, 3);
    reveal_with_fuel(skip_word, 10);
    assert(skip_ws(l, 0) == 0);
    assert(skip_word(l, 0) == 8);
    assert(skip_ws(l, 8) == 9);
    assert(skip_word(l, 9) == 12);
    let code = l.subrange(9, 12);
    assert(code =~= seq![50u8, 48u8, 48u8]);
    reveal_with_fuel(digits_value, 4);
    assert(code.drop_last() =~= seq![50u8, 48u8]);
    assert(code.drop_last().drop_last() =~= seq![50u8]);
    assert(code.drop_last().drop_last().drop_last() =~= Seq::<u8>::empty());
    assert(digits_value(code, 10) == 200);
    assert(unsigned_value(code, 10, 65535) == Some(200nat));
}

pub open spec fn content_length_line(n: nat) -> Seq<char> {
    "Content-Length: "@ + decimal(n) + "\r\n"@
}

/// The `Content-Length` line that a request carries declares its length.
proof fn lemma_content_length_line(l: Seq<u8>, n: nat)
    requires
        l == ascii_bytes(content_length_line(n)),
        n <= usize::MAX,
    ensures
        header_of(l) matches Some((name, value)) && lowered(name) == content_length_name()
            && unsigned_value(value, 10, usize::MAX as nat) == Some(n) && name.len() == 14,
        l.len() > 14 && l[14] == COLON,
{
    reveal_strlit("Content-Length: ");
    reveal_strlit("\r\n");
    reveal_strlit("content-length");
    let d = decimal(n);
    lemma_decimal(n);
    let db = ascii_bytes(d);
    let len = l.len() as int;
    assert(len == 16 + d.len() + 2);
    assert forall|j: int| 0 <= j < 16 implies #[trigger] l[j] == ("Content-Length: "@)[j] as u8 by {
        assert(content_length_line(n)[j] == ("Content-Length: "@)[j]);
    }
    assert forall|j: int| 0 <= j < d.len() implies #[trigger] l[16 + j] == db[j] by {
        assert(content_length_line(n)[16 + j] == d[j]);
    }
    assert(l[len - 2] == CR && l[len - 1] == LF) by {
        assert(content_length_line(n)[len - 2] == '\r');
        assert(content_length_line(n)[len - 1] == '\n');
    }
    lemma_index_of_at(l, COLON, 0, 14);
    let name_part = l.subrange(0, 14);
    assert(trim_start(name_part) == name_part);
    assert(trim_end(name_part) == name_part);
    assert(is_ascii_chars("content-length"@));
    is_ascii_chars_encode_utf8("content-length"@);
    assert(lowered(name_part) =~= content_length_name());
    let v = l.subrange(15, len);
    assert(v.drop_first() =~= db + seq![CR, LF]);
    assert(is_digit_char(d[0]));
    assert(trim_start(v.drop_first()) == v.drop_first());
    assert(trim_start(v) == db + seq![CR, LF]);
    let w = db + seq![CR, LF];
    assert(w.drop_last() =~= db.push(CR));
    assert(w.drop_last().drop_last() =~= db);
    assert(is_digit_char(d[d.len() - 1]));
    assert(trim_end(db) == db);
    assert(w.drop_last().last() == CR);
    assert(trim_end(w.drop_last()) == trim_end(w.drop_last().drop_last()));
    assert(w.last() == LF);
    assert(trim_end(w) == trim_end(w.drop_last()));
    assert(trim_end(w) == db);
    assert(crate::bytes::unsigned_digits(db) == db);
}

/// ASCII text of three or more characters that ends with its only `\n`.
pub open spec fn line_shaped(p: Seq<char>) -> bool {
    &&& p.len() >= 3
    &&& p.last() == '\n'
    &&& forall|k: int| 0 <= k < p.len() - 1 ==> #[trigger] p[k] != '\n'
    &&& is_ascii_chars(p)
}

/// Stepping the header scan over a line whose text `p` stands at `o` in `s`.
proof fn lemma_scan_piece(s: Seq<u8>, o: int, p: Seq<char>, closed: bool)
    requires
        0 <= o,
        o + p.len() <= s.len(),
        line_shaped(p),
        forall|k: int| 0 <= k < p.len() ==> #[trigger] s[o + k] == p[k] as u8,
    ensures
        s.subrange(o, o + p.len()) == ascii_bytes(p),
        scan_head(s, o, closed) == prepend_lines(
            seq![ascii_bytes(p)],
            scan_head(s, o + p.len(), closed),
        ),
{
    let n = p.len() as int;
    assert forall|j: int| o <= j < o + n - 1 implies s[j] != LF by {
        assert(s[o + (j - o)] == p[j - o] as u8);
    }
    assert forall|j: int| o <= j < o + n implies s[j] < 128 by {
        assert(s[o + (j - o)] == p[j - o] as u8);
    }
    assert(s[o + (n - 1)] == p[n - 1] as u8);
    lemma_scan_line(s, o, n, closed);
    assert forall|k: int| 0 <= k < n implies #[trigger] s.subrange(o, o + n)[k] == ascii_bytes(
        p,
    )[k] by {
        assert(s[o + k] == p[k] as u8);
    }
    assert(s.subrange(o, o + n) =~= ascii_bytes(p));
}

pub open spec fn host_line() -> Seq<char> {
    "Host: localhost\r\n"@
}

pub open spec fn content_type_line() -> Seq<char> {
    "Content-Type: application/json\r\n"@
}

pub open spec fn blank_line() -> Seq<char> {
    "\r\n"@
}

proof fn lemma_literal_lines()
    ensures
        line_shaped(echo_status_line()),
        line_shaped(host_line()),
        line_shaped(content_type_line()),
        echo_status_line().len() == 17,
        host_line().len() == 17,
        content_type_line().len() == 32,
        host_line()[4] == ':',
        content_type_line()[12] == ':',
        blank_line() == seq!['\r', '\n'],
        is_ascii_chars(blank_line()),
        content_length_name().len() == 14,
{
    reveal_strlit("HTTP/1.1 200 OK\r\n");
    reveal_strlit("Host: localhost\r\n");
    reveal_strlit("Content-Type: application/json\r\n");
    reveal_strlit("\r\n");
    reveal_strlit("content-length");
    assert(blank_line() =~= seq!['\r', '\n']);
    assert(is_ascii_chars("content-length"@));
    is_ascii_chars_encode_utf8("content-length"@);
}

proof fn lemma_content_length_shaped(n: nat)
    ensures
        line_shaped(content_length_line(n)),
        content_length_line(n).len() == 18 + decimal(n).len(),
{
    reveal_strlit("Content-Length: ");
    reveal_strlit("\r\n");
    lemma_decimal(n);
    let p = content_length_line(n);
    let d = decimal(n);
    assert forall|k: int| 0 <= k < p.len() implies '\0' <= #[trigger] p[k] <= '\u{7f}' && (k < p.len() - 1 ==> p[k] != '\n') by {
        if k >= 16 && k < 16 + d.len() {
            assert(p[k] == d[k - 16]);
            assert(is_digit_char(d[k - 16]));
        }
    }
}

/// An ASCII text's UTF-8 encoding is its characters as bytes.
proof fn lemma_ascii_encoding(c: Seq<char>)
    requires
        is_ascii_chars(c),
    ensures
        encode_utf8(c) == ascii_bytes(c),
{
    is_ascii_chars_encode_utf8(c);
    assert(encode_utf8(c) =~= ascii_bytes(c));
}

/// What the body was: the text sent, or nothing.
pub open spec fn sent_body(body: Option<&str>) -> Seq<char> {
    match body {
        Some(b) => b@,
        None => Seq::empty(),
    }
}

/// What an echoing peer answers to a request with `body`: a status line of
/// its own, then everything the request has after its request line.
pub open spec fn echo_of(body: Option<&str>) -> Seq<u8> {
    encode_utf8(echo_status_line() + request_rest(body))
}

/// `r` is a complete response with this status code and body, ending at `end`.
pub open spec fn decodes_to(r: Step<ResponseView>, code: u16, body: Seq<char>, end: int) -> bool {
    match r {
        Ok(Some((v, e))) => v.status_code == code && v.body == body && e == end,
        _ => false,
    }
}

proof fn lemma_echo_with_body(b: &str)
    requires
        b.spec_bytes().len() <= usize::MAX,
    ensures
        decodes_to(response_of(echo_of(Some(b)), false), 200, b@, echo_of(Some(b)).len() as int),
{
    let nb = b.spec_bytes().len();
    let cl = content_length_line(nb);
    lemma_literal_lines();
    lemma_content_length_shaped(nb);
    let h = echo_status_line() + host_line() + content_type_line() + cl + blank_line();
    assert(echo_status_line() + request_rest(Some(b)) =~= h + b@);
    assert(is_ascii_chars(h)) by {
        assert forall|k: int| 0 <= k < h.len() implies '\0' <= #[trigger] h[k] <= '\u{7f}' by {
            if k < 17 {
                assert(h[k] == echo_status_line()[k]);
            } else if k < 34 {
                assert(h[k] == host_line()[k - 17]);
            } else if k < 66 {
                assert(h[k] == content_type_line()[k - 34]);
            } else if k < 66 + cl.len() {
                assert(h[k] == cl[k - 66]);
            } else {
                assert(h[k] == blank_line()[k - 66 - cl.len()]);
            }
        }
    }
    lemma_encode_concat(h, b@);
    lemma_ascii_encoding(h);
    let bb = encode_utf8(b@);
    let s = ascii_bytes(h) + bb;
    assert(echo_of(Some(b)) == s);
    let e: int = 66 + cl.len() as int;
    assert forall|k: int| 0 <= k < 17 implies #[trigger] s[0 + k] == echo_status_line()[k] as u8 by {
        assert(h[k] == echo_status_line()[k]);
    }
    assert forall|k: int| 0 <= k < 17 implies #[trigger] s[17 + k] == host_line()[k] as u8 by {
        assert(h[17 + k] == host_line()[k]);
    }
    assert forall|k: int| 0 <= k < 32 implies #[trigger] s[34 + k] == content_type_line()[k] as u8 by {
        assert(h[34 + k] == content_type_line()[k]);
    }
    assert forall|k: int| 0 <= k < cl.len() implies #[trigger] s[66 + k] == cl[k] as u8 by {
        assert(h[66 + k] == cl[k]);
    }
    assert(s[e] == CR && s[e + 1] == LF) by {
        assert(h[e] == blank_line()[0]);
        assert(h[e + 1] == blank_line()[1]);
    }
    lemma_scan_piece(s, 0, echo_status_line(), false);
    lemma_scan_piece(s, 17, host_line(), false);
    lemma_scan_piece(s, 34, content_type_line(), false);
    lemma_scan_piece(s, 66, cl, false);
    lemma_scan_end(s, e, false);
    let l0 = ascii_bytes(echo_status_line());
    let l1 = ascii_bytes(host_line());
    let l2 = ascii_bytes(content_type_line());
    let l3 = ascii_bytes(cl);
    let start: int = e + 2;
    assert(scan_head(s, 0, false) == Ok::<Option<(Seq<Seq<u8>>, int)>, crate::codec::ProtocolError>(
        Some((seq![l0, l1, l2, l3], start)),
    )) by {
        assert(seq![l3] + Seq::<Seq<u8>>::empty() =~= seq![l3]);
        assert(seq![l2] + seq![l3] =~= seq![l2, l3]);
        assert(seq![l1] + seq![l2, l3] =~= seq![l1, l2, l3]);
        assert(seq![l0] + seq![l1, l2, l3] =~= seq![l0, l1, l2, l3]);
    }
    lemma_status_200(l0);
    let rest = seq![l0, l1, l2, l3].drop_first();
    assert(rest =~= seq![l1, l2, l3]);
    lemma_short_name_not_chunked(l1, 4);
    lemma_short_name_not_chunked(l2, 12);
    lemma_content_length_line(l3, nb);
    lemma_short_name_not_chunked(l3, 14);
    assert(!is_chunked(rest));
    assert(rest.last() == l3);
    assert(content_length(rest) == Some(nb));
    assert(start == h.len());
    assert(s.subrange(start, start + nb as int) =~= bb);
    encode_utf8_valid_utf8(b@);
    encode_utf8_decode_utf8(b@);
}

proof fn lemma_echo_without_body()
    ensures
        decodes_to(
            response_of(echo_of(None), false),
            200,
            Seq::empty(),
            echo_of(None).len() as int,
        ),
{
    lemma_literal_lines();
    let h = echo_status_line() + host_line() + blank_line();
    assert(echo_status_line() + request_rest(None) =~= h);
    assert(is_ascii_chars(h)) by {
        assert forall|k: int| 0 <= k < h.len() implies '\0' <= #[trigger] h[k] <= '\u{7f}' by {
            if k < 17 {
                assert(h[k] == echo_status_line()[k]);
            } else if k < 34 {
                assert(h[k] == host_line()[k - 17]);
            } else {
                assert(h[k] == blank_line()[k - 34]);
            }
        }
    }
    lemma_ascii_encoding(h);
    let s = ascii_bytes(h);
    assert forall|k: int| 0 <= k < 17 implies #[trigger] s[0 + k] == echo_status_line()[k] as u8 by {
        assert(h[k] == echo_status_line()[k]);
    }
    assert forall|k: int| 0 <= k < 17 implies #[trigger] s[17 + k] == host_line()[k] as u8 by {
        assert(h[17 + k] == host_line()[k]);
    }
    assert(s[34] == CR && s[35] == LF) by {
        assert(h[34] == blank_line()[0]);
        assert(h[35] == blank_line()[1]);
    }
    lemma_scan_piece(s, 0, echo_status_line(), false);
    lemma_scan_piece(s, 17, host_line(), false);
    lemma_scan_end(s, 34, false);
    let l0 = ascii_bytes(echo_status_line());
    let l1 = ascii_bytes(host_line());
    assert(scan_head(s, 0, false) == Ok::<Option<(Seq<Seq<u8>>, int)>, crate::codec::ProtocolError>(
        Some((seq![l0, l1], 36)),
    )) by {
        assert(seq![l1] + Seq::<Seq<u8>>::empty() =~= seq![l1]);
        assert(seq![l0] + seq![l1] =~= seq![l0, l1]);
    }
    lemma_status_200(l0);
    let rest = seq![l0, l1].drop_first();
    assert(rest =~= seq![l1]);
    lemma_short_name_not_chunked(l1, 4);
    assert(!is_chunked(rest));
    assert(lowered(header_of(l1)->Some_0.0).len() == header_of(l1)->Some_0.0.len());
    assert(rest.drop_last() =~= Seq::<Seq<u8>>::empty());
    assert(content_length(Seq::<Seq<u8>>::empty()) == None::<nat>);
    assert(rest.last() == l1);
    assert(content_length(rest) == None::<nat>);
    assert(decode_utf8(Seq::<u8>::empty()) =~= Seq::<char>::empty());
}

/// A peer that answers a request by echoing everything after its request
/// line, behind a `200` status line of its own, is decoded to a complete
/// response with status 200 and the body that was sent, ending where the echo
/// ends, whatever bytes follow and whether or not the stream then closes.
pub proof fn lemma_request_round_trip(body: Option<&str>, more: Seq<u8>, closed: bool)
    requires
        body matches Some(b) ==> b.spec_bytes().len() <= usize::MAX,
    ensures
        decodes_to(
            response_of(echo_of(body) + more, closed),
            200,
            sent_body(body),
            echo_of(body).len() as int,
        ),
{
    match body {
        Some(b) => lemma_echo_with_body(b),
        None => lemma_echo_without_body(),
    }
    lemma_response_prefix_stable(echo_of(body), more, closed);
}

} // verus!
