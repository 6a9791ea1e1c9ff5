use ivf_fraud::http::{find_crlfcrlf, parse_content_length, try_process_one, Conn, Route};
use ivf_fraud::response::{
    bad_request_response, keep_alive_fraud_response, keep_alive_not_found_response,
    keep_alive_ready_response, not_found_response, ready_response, responses,
};

fn body_of(resp: &[u8]) -> &[u8] {
    let sep = b"\r\n\r\n";
    let pos = resp.windows(4).position(|w| w == sep).unwrap();
    &resp[pos + 4..]
}

#[test]
fn responses_cover_all_fraud_counts() {
    assert_eq!(responses().len(), 6);
}

#[test]
fn response_bodies_valid_json_with_correct_fields() {
    let all = responses();
    let b0 = body_of(&all[0]);
    assert!(b0.starts_with(b"{\"approved\":true"));
    assert!(b0.ends_with(b"0.0}"));

    let b3 = body_of(&all[3]);
    assert!(b3.starts_with(b"{\"approved\":false"));
    assert!(b3.ends_with(b"0.6}"));

    let b5 = body_of(&all[5]);
    assert!(b5.ends_with(b"1.0}"));
}

#[test]
fn content_length_matches_body() {
    for resp in responses().iter() {
        let resp_str = std::str::from_utf8(resp).unwrap();
        let header_end = resp_str.find("\r\n\r\n").unwrap();
        let body = &resp[header_end + 4..];
        let cl_line = resp_str[..header_end]
            .lines()
            .find(|l| l.to_ascii_lowercase().starts_with("content-length:"))
            .unwrap();
        let cl: usize = cl_line.split(':').nth(1).unwrap().trim().parse().unwrap();
        assert_eq!(cl, body.len(), "content-length mismatch");
    }
}

#[test]
fn responses_match_the_canned_texts() {
    assert_eq!(
        responses()[2],
        b"HTTP/1.1 200 OK\r\ncontent-type: application/json\r\ncontent-length: 35\r\n\r\n{\"approved\":true,\"fraud_score\":0.4}".to_vec()
    );
    assert_eq!(ready_response(), b"HTTP/1.1 200 OK\r\ncontent-length: 0\r\n\r\n".to_vec());
    assert_eq!(not_found_response(), b"HTTP/1.1 404 Not Found\r\ncontent-length: 0\r\n\r\n".to_vec());
    assert_eq!(bad_request_response(), b"HTTP/1.1 400 Bad Request\r\ncontent-length: 0\r\n\r\n".to_vec());
    assert_eq!(
        keep_alive_fraud_response(4),
        b"HTTP/1.1 200 OK\r\nContent-Type: application/json\r\nContent-Length: 36\r\nConnection: keep-alive\r\n\r\n{\"approved\":false,\"fraud_score\":0.8}".to_vec()
    );
    assert_eq!(keep_alive_fraud_response(9), keep_alive_fraud_response(5));
    assert_eq!(
        keep_alive_ready_response(),
        b"HTTP/1.1 200 OK\r\nContent-Length: 0\r\nConnection: keep-alive\r\n\r\n".to_vec()
    );
    assert_eq!(
        keep_alive_not_found_response(),
        b"HTTP/1.1 404 Not Found\r\nContent-Length: 0\r\nConnection: keep-alive\r\n\r\n".to_vec()
    );
}

#[test]
fn keep_alive_responses_frame_themselves() {
    for count in 0..=5usize {
        let resp = keep_alive_fraud_response(count);
        let h = find_crlfcrlf(&resp).unwrap();
        let cl = parse_content_length(&resp[..h]);
        assert_eq!(h + 4 + cl, resp.len());
        let mut conn = Conn::new();
        conn.buf[..resp.len()].copy_from_slice(&resp);
        conn.buf_len = resp.len();
        let req = try_process_one(&mut conn).unwrap();
        assert_eq!(req.route, Route::NotFound);
        assert_eq!(req.body, body_of(&resp).to_vec());
        assert_eq!(conn.buf_len, 0);
    }
}
