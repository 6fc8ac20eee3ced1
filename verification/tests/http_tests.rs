use ah4c_stream::http::{
    check_head, ioerr, is_chunked, is_ok_line, parse_url, ResponseHead, Target,
};
use ah4c_stream::text::{
    chars_of, find_byte, head_line, is_same, is_white_space, trim, two_words,
};

fn target(url: &str) -> Target {
    match parse_url(url) {
        Ok(t) => t,
        Err(e) => panic!("{}", e.message),
    }
}

#[test]
fn url_with_port_and_path() {
    let t = target("http://10.0.0.2:8090/stream0?a=1/2");
    assert_eq!(t.host, "10.0.0.2:8090");
    assert_eq!(t.path, "/stream0?a=1/2");
    assert_eq!(t.address, "10.0.0.2:8090");
}

#[test]
fn url_without_port_or_path() {
    let t = target("http://encoder");
    assert_eq!(t.host, "encoder");
    assert_eq!(t.path, "/");
    assert_eq!(t.address, "encoder:80");
    let t = target("http://encoder/");
    assert_eq!(t.path, "/");
    let t = target("http://");
    assert_eq!(t.host, "");
    assert_eq!(t.address, ":80");
}

#[test]
fn url_with_a_colon_in_the_path_only() {
    let t = target("http://h\u{e9}/a:b\u{20ac}/");
    assert_eq!(t.host, "h\u{e9}");
    assert_eq!(t.path, "/a:b\u{20ac}/");
    assert_eq!(t.address, "h\u{e9}:80");
}

#[test]
fn other_schemes_are_refused() {
    for url in ["https://a/", "a/b", "", "HTTP://a/", "http:/a", "xhttp://a/"] {
        match parse_url(url) {
            Ok(_) => panic!("{}", url),
            Err(e) => assert_eq!(e.message, "http:// only"),
        }
    }
}

#[test]
fn request_bytes() {
    let t = target("http://encoder:81/live/1");
    assert_eq!(
        t.request(),
        "GET /live/1 HTTP/1.0\r\nHost: encoder:81\r\nConnection: close\r\n\r\n"
    );
}

#[test]
fn error_carries_its_message() {
    assert_eq!(ioerr("dns").message, "dns");
}

#[test]
fn accepted_answer_hands_out_its_leftover() {
    let mut h = ResponseHead::new();
    let r = h.push(b"HTTP/1.0 200 OK\r\nServer: x\r\n\r\n\x47abc\r\n\r\n");
    match r {
        Ok(Some(body)) => assert_eq!(body, b"\x47abc\r\n\r\n"),
        _ => panic!("not accepted"),
    }
}

#[test]
fn headers_may_come_byte_by_byte() {
    let mut h = ResponseHead::new();
    let head = b"HTTP/1.1 200 OK\r\n\r\n";
    for b in &head[..head.len() - 1] {
        assert!(matches!(h.push(&[*b]), Ok(None)));
    }
    match h.push(&[b'\n', 1, 2]) {
        Ok(Some(body)) => assert_eq!(body, vec![1, 2]),
        _ => panic!("not accepted"),
    }
}

#[test]
fn end_during_headers_is_refused() {
    let mut h = ResponseHead::new();
    assert!(matches!(h.push(b"HTTP/1.0 200 OK\r\n"), Ok(None)));
    match h.push(&[]) {
        Err(e) => assert_eq!(e.message, "eof during headers"),
        _ => panic!("not refused"),
    }
}

#[test]
fn headers_without_end_are_refused_beyond_8192_bytes() {
    let mut h = ResponseHead::new();
    assert!(matches!(h.push(&[b'a'; 8192]), Ok(None)));
    match h.push(b"a") {
        Err(e) => assert_eq!(e.message, "headers too large"),
        _ => panic!("not refused"),
    }
    let mut big = vec![b'a'; 9000];
    big.splice(0..16, *b"HTTP/1.0 200 OK\n");
    big.extend_from_slice(b"\r\n\r\n");
    assert!(matches!(ResponseHead::new().push(&big), Ok(Some(_))));
}

#[test]
fn other_status_is_refused_with_its_line() {
    for (head, message) in [
        (&b"HTTP/1.0 404 Not Found\r\n\r\n"[..], "HTTP/1.0 404 Not Found"),
        (&b"HTTP/1.0 404 no 200 here\r\n\r\n"[..], "HTTP/1.0 404 no 200 here"),
        (&b"200 OK\r\n\r\n"[..], "200 OK"),
        (&b"HTTP/1.0\t200 OK\r\n\r\n"[..], "HTTP/1.0\t200 OK"),
        (&b"HTTP/1.0 200; OK\r\n\r\n"[..], "HTTP/1.0 200; OK"),
        (&b"  \t busy \n\r\n\r\n"[..], "busy"),
        (&b"HTTP/1.0 2000 OK\r\nX: 200 \r\n\r\n"[..], "HTTP/1.0 2000 OK"),
        (&b"HTTP/1.0 200 \xFF\r\n\r\n"[..], ""),
        (&b"\r\n\r\n"[..], ""),
    ] {
        let mut h = ResponseHead::new();
        match h.push(head) {
            Err(e) => assert_eq!(e.message, message),
            _ => panic!("not refused"),
        }
    }
}

#[test]
fn status_200_needs_no_reason() {
    for head in [
        &b"HTTP/1.0 200\r\n\r\n"[..],
        &b"HTTP/1.0 200 \r\n\r\n"[..],
        &b"HTTP/1.0  200 fine\r\n\r\n"[..],
        &b" 200 OK\r\n\r\n"[..],
    ] {
        assert!(check_head(head).is_ok());
        assert!(matches!(ResponseHead::new().push(head), Ok(Some(_))));
    }
}

#[test]
fn chunked_is_a_whole_coding() {
    assert!(!is_chunked(b"a\r\nTransfer-Encoding: unchunked\r\n\r\n"));
    assert!(!is_chunked(b"a\r\nTransfer-Encoding: chunked2\r\n\r\n"));
    assert!(!is_chunked(b"a\r\nTransfer-Encoding: gzip; chunked\r\n\r\n"));
    assert!(!is_chunked(b"a\r\nTransfer-Encoding: chun ked\r\n\r\n"));
    assert!(!is_chunked(b"a\r\nTransfer-Encoding:\r\n\r\n"));
    assert!(!is_chunked(b"a\r\nTransfer-Encoding: ,;, \r\nchunked\r\n\r\n"));
    assert!(is_chunked(b"a\r\nTransfer-Encoding: chunked;a=b\r\n\r\n"));
    assert!(is_chunked(b"a\r\nTransfer-Encoding: chunked\t, gzip\r\n\r\n"));
    assert!(is_chunked(b"a\r\nTransfer-Encoding: a\r\nTransfer-Encoding:,chunked\n"));
    assert!(check_head(b"HTTP/1.1 200 OK\r\nTransfer-Encoding: unchunked\r\n\r\n").is_ok());
}

#[test]
fn chunked_on_a_folded_line_is_found() {
    assert!(is_chunked(b"a\r\nTransfer-Encoding:\r\n chunked\r\n\r\n"));
    assert!(is_chunked(b"a\nTransfer-Encoding: gzip,\n\tx,\r\n  Chunked \r\n\r\n"));
    assert!(!is_chunked(b"a\r\nX: b\r\n Transfer-Encoding: chunked\r\n\r\n"));
}

#[test]
fn chunked_body_is_refused() {
    let head = b"HTTP/1.1 200 OK\r\nTransfer-Encoding: Chunked\r\n\r\n";
    match check_head(head) {
        Err(e) => assert_eq!(e.message, "chunked transfer encoding"),
        Ok(_) => panic!("not refused"),
    }
    assert!(is_chunked(b"\ntransfer-encoding:chunked"));
    assert!(is_chunked(b"a\r\nTRANSFER-ENCODING: gzip, CHUNKED\r\n"));
    assert!(!is_chunked(b"Transfer-Encoding: chunked\r\n\r\n"));
    assert!(!is_chunked(b"a\r\nTransfer-Encoding: gzip\r\nX: chunked\r\n\r\n"));
    assert!(!is_chunked(b"a\r\nX-Transfer-Encoding: chunked\r\n\r\n"));
    assert!(!is_chunked(b"a\r\nTransfer-Encoding: chunke"));
    assert!(check_head(b"HTTP/1.1 200 OK\r\nX: chunked\r\n\r\n").is_ok());
}

#[test]
fn trimming_agrees_with_the_standard_library() {
    for s in ["", " ", "a", " a b ", "\t\r\na\u{a0}", "\u{3000}x\u{200b}\u{2009}", "\u{85}\u{feff}y "] {
        assert_eq!(trim(s), s.trim());
    }
    for n in 0..0x11_0000u32 {
        if let Some(c) = char::from_u32(n) {
            assert_eq!(is_white_space(c), c.is_whitespace());
        }
    }
}

#[test]
fn first_line_agrees_with_the_standard_library() {
    for s in ["", "a", "a\n", "a\r\n", "\n", "\r\n", "a\r", "a\rb\r\nc", "\r\r\n", "\u{20ac}\nx"] {
        assert_eq!(head_line(s), s.lines().next().unwrap_or(""));
    }
}

#[test]
fn status_lines() {
    for line in [
        "HTTP/1.0 200 OK", "HTTP/1.0 200 ", "HTTP/1.0   200 OK", " 200 OK", "  200 OK",
        " HTTP/1.0 200 OK", "a\tb 200 c", " 200 404 ",
    ] {
        assert!(line.contains(" 200 "));
        assert!(is_ok_line(line), "{}", line);
    }
    for line in [
        "", " ", "200", "200 OK", "HTTP/1.0\t200 OK", "HTTP/1.0 \t200 OK", "HTTP/1.0 200\tOK",
        "HTTP/1.0 2000 OK", "HTTP/1.0 404 Not Found", "HTTP/1.0\u{a0}200 OK",
    ] {
        assert!(!line.contains(" 200 "));
        assert!(!is_ok_line(line), "{}", line);
    }
    assert!(is_ok_line("HTTP/1.0 200"));
    assert!(!is_ok_line("HTTP/1.0 404 no 200 here"));
}

#[test]
fn words_are_separated_by_spaces_alone() {
    for s in ["", " ", "a", " a ", "a b", "\ta\u{a0} b\u{3000}c", "HTTP/1.0 200 OK", "\u{20ac}  200"] {
        let mut words = s.split(' ').filter(|w| !w.is_empty());
        let (first, second) = two_words(s);
        assert_eq!(first, words.next().unwrap_or(""));
        assert_eq!(second, words.next().unwrap_or(""));
        assert_eq!(chars_of(s), s.chars().collect::<Vec<char>>());
        assert!(is_same(s, s));
        assert!(!is_same(s, "HTTP/1.0 200 O"));
        assert!(!is_same(s, "HTTP/1.0 200 OKAY"));
    }
}

#[test]
fn bytes_are_found() {
    assert_eq!(find_byte(b"a,b,c", 0, b','), 1);
    assert_eq!(find_byte(b"a,b,c", 2, b','), 3);
    assert_eq!(find_byte(b"a,b,c", 4, b','), 5);
    assert_eq!(find_byte(b"", 0, b','), 0);
}
