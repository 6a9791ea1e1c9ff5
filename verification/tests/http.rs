use ivf_fraud::http::{
    find_crlfcrlf, frame_is_defined, parse_content_length, parse_content_length_checked, route,
    try_process_one, Conn, Route, BUF_SIZE,
};

fn conn_with(bytes: &[u8]) -> Conn {
    let mut conn = Conn::new();
    conn.buf[..bytes.len()].copy_from_slice(bytes);
    conn.buf_len = bytes.len();
    conn
}

#[test]
fn finds_end_of_headers() {
    assert_eq!(find_crlfcrlf(b"GET / HTTP/1.1\r\nHost: x\r\n\r\nbody"), Some(23));
    assert_eq!(find_crlfcrlf(b"\r\n\r\n"), Some(0));
    assert_eq!(find_crlfcrlf(b"\r\n\r"), None);
    assert_eq!(find_crlfcrlf(b"GET / HTTP/1.1\r\n"), None);
}

#[test]
fn reads_content_length() {
    assert_eq!(parse_content_length(b"POST / HTTP/1.1\r\nContent-Length: \t42\r\n"), 42);
    assert_eq!(parse_content_length(b"POST / HTTP/1.1\r\ncontent-length: 42\r\n"), 0);
    assert_eq!(parse_content_length(b"POST / HTTP/1.1"), 0);
    assert_eq!(parse_content_length(b"Content-Length: 7x9"), 7);
    assert_eq!(parse_content_length_checked(b"Content-Length: 99999999999999999999999"), None);
}

#[test]
fn routes_by_request_line() {
    assert_eq!(route(b"POST /fraud-score HTTP/1.1\r\nHost: x"), Route::FraudScore);
    assert_eq!(route(b"GET /ready HTTP/1.1"), Route::Ready);
    assert_eq!(route(b"GET /readyz HTTP/1.1"), Route::NotFound);
    assert_eq!(route(b"POST /fraud-score"), Route::NotFound);
    assert_eq!(route(b""), Route::NotFound);
}

#[test]
fn takes_one_request_and_keeps_the_rest() {
    let first = b"POST /fraud-score HTTP/1.1\r\nContent-Length: 5\r\n\r\nhello";
    let second = b"GET /ready HTTP/1.1\r\n\r\n";
    let mut bytes = first.to_vec();
    bytes.extend_from_slice(second);
    let mut conn = conn_with(&bytes);
    let req = try_process_one(&mut conn).unwrap();
    assert_eq!(req.route, Route::FraudScore);
    assert_eq!(req.body, b"hello".to_vec());
    assert_eq!(&conn.buf[..conn.buf_len], &second[..]);
    let req = try_process_one(&mut conn).unwrap();
    assert_eq!(req.route, Route::Ready);
    assert!(req.body.is_empty());
    assert_eq!(conn.buf_len, 0);
    assert!(try_process_one(&mut conn).is_none());
}

#[test]
fn waits_for_the_whole_body() {
    let mut conn = conn_with(b"POST /fraud-score HTTP/1.1\r\nContent-Length: 10\r\n\r\nshort");
    let before = conn.buf_len;
    assert!(try_process_one(&mut conn).is_none());
    assert_eq!(conn.buf_len, before);
    let mut conn = conn_with(b"GET /ready HTTP/1.1\r\n");
    assert!(try_process_one(&mut conn).is_none());
    assert_eq!(Conn::new().buf.len(), BUF_SIZE);
}

#[test]
fn framing_is_defined_unless_the_length_overflows() {
    assert!(frame_is_defined(&conn_with(b"POST / HTTP/1.1\r\nContent-Length: 12\r\n\r\n")));
    assert!(frame_is_defined(&conn_with(b"POST / HTTP/1.1\r\nContent-Length: 99999999999999999999999")));
    assert!(!frame_is_defined(&conn_with(
        b"POST / HTTP/1.1\r\nContent-Length: 99999999999999999999999\r\n\r\n"
    )));
}
