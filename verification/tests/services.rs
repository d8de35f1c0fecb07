use rustnet::http::page;
use rustnet::tcp::{Echo, Http, Service};

#[test]
fn echo_returns_what_it_gets() {
    let mut echo = Echo;
    assert_eq!(echo.on_data(b"hello"), (b"hello".to_vec(), false));
    assert_eq!(echo.on_data(&[]), (vec![], false));
    assert!(echo.on_peer_close().is_empty());
}

#[test]
fn the_page_word_for_word() {
    let expected = "HTTP/1.1 200 OK\r\nContent-Type: text/html\r\nContent-Length: 90\r\nConnection: close\r\n\r\n\
        <html><body><h1>hello from rustnet</h1><p>you asked for: GET / HTTP/1.1</p></body></html>\n";
    assert_eq!(page("GET / HTTP/1.1\r\nHost: x\r\n\r\n"), expected.as_bytes());
    let mut http = Http::new();
    let (reply, close) = http.on_data(b"GET / HTTP/1.1\r\nHost: x\r\n\r\n");
    assert_eq!(reply, expected.as_bytes());
    assert!(close);
    assert!(http.on_peer_close().is_empty());
}

#[test]
fn the_content_length_counts_bytes() {
    let reply = String::from_utf8(page("GET /caf\u{e9} HTTP/1.1\r\n\r\n")).unwrap();
    let (head, body) = reply.split_once("\r\n\r\n").unwrap();
    assert!(head.contains(&format!("Content-Length: {}\r\n", body.len())));
    assert!(body.contains("you asked for: GET /caf\u{e9} HTTP/1.1</p>"));
}

#[test]
fn the_first_line_ends_where_lines_end() {
    for (request, line) in [("", ""), ("\n", ""), ("\r\n", ""), ("a\nb", "a"), ("a\rb\r\nc", "a\rb"), ("a\r", "a\r")] {
        let reply = String::from_utf8(page(request)).unwrap();
        assert!(reply.contains(&format!("you asked for: {line}</p>")));
    }
}

#[test]
fn a_request_is_gathered_up_to_its_blank_line() {
    let request = b"GET / HTTP/1.1\r\nHost: x\r\n\r\n";
    let mut whole = Http::new();
    let expected = whole.on_data(request);
    for i in 1..request.len() {
        let mut http = Http::default();
        assert_eq!(http.on_data(&request[..i]), (vec![], false));
        assert_eq!(http.on_data(&request[i..]), expected);
    }
    let mut http = Http::new();
    for b in &request[..request.len() - 1] {
        assert_eq!(http.on_data(&[*b]), (vec![], false));
    }
    assert_eq!(http.on_data(b"\n"), expected);
}

#[test]
fn a_request_that_is_no_text_is_answered_all_the_same() {
    let mut http = Http::new();
    let (reply, close) = http.on_data(b"GET /\xFF\xFE HTTP/1.1\r\n\r\n");
    assert!(close);
    let text = String::from_utf8(reply).unwrap();
    assert!(text.contains("you asked for: GET /\u{FFFD}\u{FFFD} HTTP/1.1</p>"));
    let mut http = Http::new();
    let (reply, _) = http.on_data("GET /\u{1F600} HTTP/1.1\r\n\r\n".as_bytes());
    assert!(String::from_utf8(reply).unwrap().contains("you asked for: GET /\u{1F600} HTTP/1.1</p>"));
}

#[test]
fn more_data_after_the_head_bring_the_page_again() {
    let mut http = Http::new();
    let first = http.on_data(b"GET / HTTP/1.1\r\n\r\n");
    assert_eq!(http.on_data(b"more"), first);
}
