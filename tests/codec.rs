use stelliberty_ipc::client::{IpcClient, Transport};
use stelliberty_ipc::codec::{build_request, decimal_text, decode_response, status_code, HttpResponse, ProtocolError};

fn complete(data: &[u8], closed: bool) -> (HttpResponse, usize) {
    match decode_response(data, closed) {
        Ok(Some(done)) => done,
        Ok(None) => panic!("incomplete"),
        Err(e) => panic!("error {:?}", e),
    }
}

#[test]
fn chunked_body_is_joined() {
    let data = b"HTTP/1.1 200 OK\r\nTransfer-Encoding: chunked\r\n\r\n5\r\nhello\r\n6\r\n world\r\n0\r\n\r\n";
    let (resp, end) = complete(data, false);
    assert_eq!(resp.body, "hello world");
    assert_eq!(end, data.len());
}

#[test]
fn zero_first_chunk_gives_empty_body() {
    let data = b"HTTP/1.1 200 OK\r\ntransfer-encoding: Chunked\r\n\r\n0\r\n\r\n";
    let (resp, end) = complete(data, false);
    assert_eq!(resp.body, "");
    assert_eq!(end, data.len());
}

#[test]
fn blank_chunk_size_lines_are_skipped() {
    let data = b"HTTP/1.1 200 OK\r\nTransfer-Encoding: chunked\r\n\r\n\r\n3\r\nabc\r\n  \r\n0\r\n\r\n";
    let (resp, _) = complete(data, false);
    assert_eq!(resp.body, "abc");
}

#[test]
fn bad_chunk_size_is_an_error() {
    let data = b"HTTP/1.1 200 OK\r\nTransfer-Encoding: chunked\r\n\r\nzz\r\nabc\r\n0\r\n\r\n";
    assert_eq!(decode_response(data, true).err(), Some(ProtocolError::InvalidChunkSize));
}

#[test]
fn chunked_stream_closed_early_is_an_error() {
    let data = b"HTTP/1.1 200 OK\r\nTransfer-Encoding: chunked\r\n\r\n5\r\nhel";
    assert_eq!(decode_response(data, true).err(), Some(ProtocolError::ConnectionClosed));
    assert!(matches!(decode_response(data, false), Ok(None)));
}

#[test]
fn content_length_stops_after_body() {
    let head = b"HTTP/1.1 200 OK\r\nContent-Length: 11\r\n\r\n";
    let mut data = head.to_vec();
    data.extend_from_slice(b"hello world");
    data.extend_from_slice(b"HTTP/1.1 204 No Content\r\n");
    let (resp, end) = complete(&data, false);
    assert_eq!(resp.body, "hello world");
    assert_eq!(end, head.len() + 11);
    assert_eq!(resp.status_code, 200);
}

#[test]
fn short_body_is_an_error_once_closed() {
    let data = b"HTTP/1.1 200 OK\r\nContent-Length: 20\r\n\r\nhello";
    assert_eq!(decode_response(data, true).err(), Some(ProtocolError::ConnectionClosed));
    assert!(matches!(decode_response(data, false), Ok(None)));
}

#[test]
fn headers_are_trimmed_and_kept_in_order() {
    let data = b"HTTP/1.1 404 Not Found\r\nX-A :  one \r\nno colon here\r\nX-A: two\r\n\r\n";
    let (resp, _) = complete(data, true);
    assert_eq!(resp.status_code, 404);
    assert_eq!(
        resp.headers,
        vec![("X-A".to_string(), "one".to_string()), ("X-A".to_string(), "two".to_string())]
    );
    assert_eq!(resp.body, "");
}

#[test]
fn empty_header_block_is_an_error() {
    assert_eq!(decode_response(b"\r\n", true).err(), Some(ProtocolError::EmptyResponse));
}

#[test]
fn header_block_cut_short() {
    let data = b"HTTP/1.1 200 OK\r\nHost: x\r\n";
    assert_eq!(decode_response(data, true).err(), Some(ProtocolError::ConnectionClosed));
    assert!(matches!(decode_response(data, false), Ok(None)));
}

#[test]
fn body_must_be_utf8() {
    let data = b"HTTP/1.1 200 OK\r\nContent-Length: 2\r\n\r\n\xff\xfe";
    assert_eq!(decode_response(data, true).err(), Some(ProtocolError::InvalidBodyEncoding));
}

#[test]
fn header_line_must_be_utf8() {
    let data = b"HTTP/1.1 200 OK\r\nX: \xff\r\n\r\n";
    assert_eq!(decode_response(data, true).err(), Some(ProtocolError::InvalidHeaderEncoding));
}

#[test]
fn status_line_words() {
    assert_eq!(status_code(b"HTTP/1.1 200 OK\r\n"), Ok(200));
    assert_eq!(status_code(b"HTTP/1.1 +201"), Ok(201));
    assert_eq!(status_code(b"HTTP/1.1\r\n"), Err(ProtocolError::InvalidStatusLine));
    assert_eq!(status_code(b"HTTP/1.1 abc OK"), Err(ProtocolError::InvalidStatusCode));
    assert_eq!(status_code(b"HTTP/1.1 70000 OK"), Err(ProtocolError::InvalidStatusCode));
    let client = IpcClient::new("/tmp/x.sock".to_string());
    assert_eq!(client.parse_status_code("HTTP/1.1 503 Busy"), Ok(503));
    assert_eq!(IpcClient::parse_status_code_static("HTTP/1.1 65535 X"), Ok(65535));
}

#[test]
fn request_without_body() {
    assert_eq!(build_request("GET", "/version", None), "GET /version HTTP/1.1\r\nHost: localhost\r\n\r\n");
    let client = IpcClient::new("/tmp/x.sock".to_string());
    assert_eq!(
        client.build_http_request("DELETE", "/connections", None),
        "DELETE /connections HTTP/1.1\r\nHost: localhost\r\n\r\n"
    );
}

#[test]
fn request_with_body_counts_bytes() {
    let r = IpcClient::build_http_request_static("PATCH", "/configs", Some("{\"a\":\"é\"}"));
    assert_eq!(
        r,
        "PATCH /configs HTTP/1.1\r\nHost: localhost\r\nContent-Type: application/json\r\nContent-Length: 10\r\n\r\n{\"a\":\"é\"}"
    );
}

#[test]
fn decimal_digits() {
    assert_eq!(decimal_text(0), "0");
    assert_eq!(decimal_text(7), "7");
    assert_eq!(decimal_text(10), "10");
    assert_eq!(decimal_text(1234567890), "1234567890");
}

#[test]
fn request_round_trips_through_an_echoing_peer() {
    let body = "{\"mode\":\"rule\",\"note\":\"a\\r\\nb é\"}";
    let request = build_request("PUT", "/configs", Some(body));
    let after_request_line = &request[request.find("\r\n").unwrap() + 2..];
    let reply = format!("HTTP/1.1 200 OK\r\n{}", after_request_line);
    let (resp, end) = complete(reply.as_bytes(), false);
    assert_eq!(resp.body, body);
    assert_eq!(end, reply.len());
    assert_eq!(resp.headers[0], ("Host".to_string(), "localhost".to_string()));

    let request = build_request("GET", "/proxies", None);
    let reply = format!("HTTP/1.1 200 OK\r\n{}", &request[request.find("\r\n").unwrap() + 2..]);
    let (resp, _) = complete(reply.as_bytes(), false);
    assert_eq!(resp.body, "");
}

#[test]
fn default_endpoints() {
    assert_eq!(IpcClient::default_ipc_path(Transport::UnixSocket, false), "/tmp/stelliberty.sock");
    assert_eq!(IpcClient::default_ipc_path(Transport::UnixSocket, true), "/tmp/stelliberty_dev.sock");
    assert_eq!(IpcClient::default_ipc_path(Transport::NamedPipe, false), r"\\.\pipe\stelliberty");
    assert_eq!(IpcClient::default_ipc_path(Transport::NamedPipe, true), r"\\.\pipe\stelliberty_dev");
    let a = IpcClient::new("/tmp/a".to_string());
    assert_eq!(a.ipc_path(), "/tmp/a");
    assert!(a.same_endpoint(&IpcClient::new("/tmp/a".to_string())));
    assert!(!a.same_endpoint(&IpcClient::new("/tmp/b".to_string())));
}

#[test]
fn growing_buffer_completes_once_and_stays() {
    let response = b"HTTP/1.1 200 OK\r\nContent-Length: 11\r\n\r\nhello world";
    let mut stream = response.to_vec();
    stream.extend_from_slice(b"HTTP/1.1 500 Next\r\n\r\n");
    for n in 0..response.len() {
        assert!(matches!(decode_response(&stream[..n], false), Ok(None)), "prefix {}", n);
    }
    for n in response.len()..=stream.len() {
        let (resp, end) = complete(&stream[..n], n == stream.len());
        assert_eq!(resp.body, "hello world");
        assert_eq!(end, response.len());
    }
}
