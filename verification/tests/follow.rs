use std::sync::Arc;

use http_follow::content_range::Span;
use http_follow::cursor::{Cursor, MAX_WAIT, STEP};
use http_follow::requests::{request, HeadError, Request, Requests, Step, Version, MAX_BODY};
use http_follow::target::Url;

fn url(text: &str) -> Arc<Url> {
    Arc::new(Url::parse(text).unwrap())
}

fn cursor() -> Cursor {
    Cursor::new(url("http://example.org/log"))
}

fn requests(count: usize) -> Requests {
    Requests::new((0..count).map(|i| url(&format!("http://example.org/{}", i))).collect())
}

fn span(from: u64, to: u64, total: u64) -> Span {
    Span { from, to, total }
}

fn fields(list: &[(&str, &[u8])]) -> Vec<(String, Vec<u8>)> {
    list.iter().map(|&(name, value)| (name.to_string(), value.to_vec())).collect()
}

#[test]
fn first_response_prints_whole_lines() {
    let mut cursor = cursor();
    let output = cursor.receive(span(0, 8, 9), b"one\ntwo\nt", 5);
    assert_eq!(output, b"one\ntwo\n");
    let state = cursor.state.unwrap();
    assert_eq!(state.offset, 9);
    assert_eq!(state.eof, 1);
    assert_eq!(state.last_line, b"t");
    assert_eq!(state.last_request, 5);
}

#[test]
fn next_response_repeats_one_byte() {
    let mut cursor = cursor();
    assert_eq!(cursor.receive(span(0, 3, 4), b"one\n", 0), b"one\n");
    assert_eq!(cursor.receive(span(3, 7, 8), b"\ntwo\n", 1), b"two\n");
    assert_eq!(cursor.state.unwrap().offset, 8);
}

#[test]
fn unfinished_line_grows() {
    let mut cursor = cursor();
    assert_eq!(cursor.receive(span(0, 1, 2), b"ab", 0), b"");
    assert_eq!(cursor.receive(span(1, 3, 4), b"bcd", 1), b"");
    assert_eq!(cursor.state.unwrap().last_line, b"abcd");
}

#[test]
fn response_that_finishes_a_line_prints_its_own_bytes() {
    let mut cursor = cursor();
    assert_eq!(cursor.receive(span(0, 1, 2), b"ab", 0), b"");
    assert_eq!(cursor.receive(span(1, 4, 5), b"bc\nd", 1), b"c\n");
    assert_eq!(cursor.state.unwrap().last_line, b"d");
}

#[test]
fn gap_is_announced() {
    let mut cursor = cursor();
    cursor.receive(span(0, 1, 2), b"ab", 0);
    assert_eq!(cursor.receive(span(5, 9, 10), b"cd\nef", 1), b"[.. skipped ..]\ncd\n");
    assert_eq!(cursor.state.unwrap().last_line, b"ef");
}

#[test]
fn gap_drops_the_unfinished_line() {
    let mut cursor = cursor();
    cursor.receive(span(0, 1, 2), b"ab", 0);
    assert_eq!(cursor.receive(span(u64::MAX, 9, 10), b"cd", 1), b"[.. skipped ..]\n");
    assert_eq!(cursor.state.unwrap().last_line, b"cd");
}

#[test]
fn empty_body() {
    let mut cursor = cursor();
    cursor.receive(span(0, 1, 2), b"a\n", 0);
    assert_eq!(cursor.receive(span(1, 1, 2), b"", 1), b"");
    assert_eq!(cursor.state.unwrap().eof, 2);
}

#[test]
fn wait_grows_and_is_reset() {
    let mut cursor = cursor();
    assert_eq!(request(3, &cursor, 0), Ok(Request { cursor: 3, range: None }));
    cursor.receive(span(0, 1, 9), b"a\n", 1000);
    assert_eq!(cursor.state.as_ref().unwrap().eof, 0);
    assert_eq!(request(3, &cursor, 0), Ok(Request { cursor: 3, range: None }));
    cursor.receive(span(1, 2, 3), b"\nb", 1000);
    assert_eq!(request(3, &cursor, 1000), Err(1000 + STEP));
    assert_eq!(request(3, &cursor, 1000 + STEP), Err(1000 + STEP));
    assert_eq!(request(3, &cursor, 1001 + STEP), Ok(Request { cursor: 3, range: None }));
    cursor.receive(span(2, 2, 3), b"b", 1000);
    assert_eq!(request(3, &cursor, 1000), Err(1000 + 2 * STEP));
    for _ in 0..100 {
        cursor.receive(span(2, 2, 3), b"b", 1000);
    }
    assert_eq!(cursor.state.as_ref().unwrap().eof, 102);
    assert_eq!(request(3, &cursor, 1000), Err(1000 + MAX_WAIT));
    cursor.receive(span(2, 3, 4), b"b\n", 1000);
    assert_eq!(request(3, &cursor, 1000), Err(1000 + STEP));
}

#[test]
fn idle_count_does_not_overflow() {
    let mut cursor = cursor();
    cursor.receive(span(0, 0, 1), b"a", 0);
    cursor.state.as_mut().unwrap().eof = u32::MAX;
    cursor.receive(span(0, 0, 1), b"a", 0);
    assert_eq!(cursor.state.unwrap().eof, u32::MAX);
}

#[test]
fn printed_lines_are_the_file() {
    let file: Vec<u8> = (0..200).flat_map(|i| format!("line {}\n", i).into_bytes()).collect();
    let total = file.len() as u64;
    let mut cursor = cursor();
    let mut output = Vec::new();
    let mut from = 0usize;
    while from + 1 < file.len() {
        let to = file[from + 1..].iter().position(|&b| b == b'\n').unwrap() + from + 1;
        let body = &file[from..to + 1];
        output.extend(cursor.receive(span(from as u64, to as u64, total), body, 0));
        from = to;
    }
    assert_eq!(output, file);
}

#[test]
fn files_take_turns() {
    let mut requests = requests(3);
    assert_eq!(requests.poll(false, 0), Step::Pending);
    for round in 0..2 {
        for i in 0..3 {
            assert_eq!(
                requests.poll(true, round),
                Step::Issue(Request { cursor: i, range: None })
            );
        }
    }
}

#[test]
fn files_that_wait_are_passed_over() {
    let mut requests = requests(3);
    for i in [0, 2] {
        let request = Request { cursor: i, range: Some(span(0, 0, 1)) };
        requests.data_received(&request, b"x", true, 500);
    }
    assert_eq!(requests.poll(true, 500), Step::Issue(Request { cursor: 1, range: None }));
    assert_eq!(requests.queue, vec![2, 0, 1]);
    assert_eq!(requests.poll(true, 500), Step::Issue(Request { cursor: 1, range: None }));
}

#[test]
fn sleeps_until_the_first_file_is_due() {
    let mut requests = requests(2);
    for (i, now) in [(0, 900), (1, 400)] {
        let request = Request { cursor: i, range: Some(span(0, 0, 1)) };
        requests.data_received(&request, b"x", true, now);
    }
    assert_eq!(requests.poll(true, 1000), Step::Sleep(400 + STEP));
    assert_eq!(requests.queue, vec![0, 1]);
    assert_eq!(requests.poll(true, 401 + STEP), Step::Issue(Request { cursor: 1, range: None }));
}

#[test]
fn no_files_to_follow() {
    assert_eq!(requests(0).poll(true, 10), Step::Sleep(10 + MAX_WAIT));
}

#[test]
fn wording_of_the_first_request() {
    let requests = requests(2);
    let head = requests.start_write(&Request { cursor: 1, range: None });
    assert_eq!(head.method, "GET");
    assert_eq!(head.path, "/1");
    assert_eq!(head.version, Version::Http11);
    assert_eq!(
        head.fields,
        vec![
            ("Host".to_string(), "example.org".to_string()),
            ("Range".to_string(), "bytes=-4096".to_string()),
        ]
    );
}

#[test]
fn wording_of_later_requests() {
    let mut requests = requests(1);
    let request = Request { cursor: 0, range: Some(span(904, 4999, 5000)) };
    requests.data_received(&request, &[b'x'; 4096], true, 0);
    let head = requests.start_write(&Request { cursor: 0, range: None });
    assert_eq!(head.fields[1], ("Range".to_string(), "bytes=4999-70535".to_string()));
}

#[test]
fn request_without_host() {
    let requests = Requests::new(vec![url("data:/x")]);
    let head = requests.start_write(&Request { cursor: 0, range: None });
    assert_eq!(head.path, "/x");
    assert_eq!(head.fields, vec![("Range".to_string(), "bytes=-4096".to_string())]);
}

#[test]
fn body_goes_to_its_file() {
    let mut requests = requests(2);
    let request = Request { cursor: 1, range: Some(span(0, 3, 4)) };
    let delivery = requests.data_received(&request, b"abc\n", true, 7);
    assert_eq!(delivery.output, b"abc\n");
    assert_eq!(delivery.consumed, 4);
    assert!(requests.cursors[0].state.is_none());
    assert_eq!(requests.cursors[1].state.as_ref().unwrap().offset, 4);
    assert_eq!(requests.cursors[1].url.path, "/1");
}

#[test]
fn head_of_a_partial_response() {
    let mut request = Request { cursor: 0, range: None };
    let head = fields(&[
        ("Server", b"x"),
        ("Content-Range", b"bytes 0-1/2"),
        ("content-range", b"nonsense"),
        ("Content-Range", b"bytes 904-4999/5000"),
    ]);
    assert_eq!(request.headers_received(206, &head).unwrap(), MAX_BODY);
    assert_eq!(MAX_BODY, 65536);
    assert_eq!(request.range, Some(span(904, 4999, 5000)));
}

#[test]
fn head_without_content_range() {
    let mut request = Request { cursor: 0, range: None };
    assert!(request.headers_received(206, &fields(&[("Server", b"x")])).is_ok());
    assert_eq!(request.range, None);
}

#[test]
fn head_with_another_status() {
    let mut request = Request { cursor: 0, range: None };
    let head = fields(&[("Content-Range", b"nonsense")]);
    match request.headers_received(404, &head) {
        Err(HeadError::InvalidStatus(message)) => {
            assert_eq!(message, "Server returned invalid status: Some(NotFound)")
        }
        _ => panic!("accepted"),
    }
    match request.headers_received(299, &head) {
        Err(HeadError::InvalidStatus(message)) => {
            assert_eq!(message, "Server returned invalid status: None")
        }
        _ => panic!("accepted"),
    }
    assert!(matches!(request.headers_received(200, &head), Err(HeadError::InvalidStatus(_))));
    assert_eq!(request.range, None);
}

#[test]
fn head_with_a_malformed_range() {
    let mut request = Request { cursor: 0, range: None };
    let head = fields(&[("Content-Range", b"bytes 0-1/2"), ("Content-Range", b"bytes */2")]);
    assert!(matches!(request.headers_received(206, &head), Err(HeadError::MalformedRange)));
    assert_eq!(request.range, None);
}

#[test]
fn empty_file_is_asked_for_again() {
    let mut requests = requests(1);
    let mut request = Request { cursor: 0, range: None };
    let head = fields(&[("Content-Range", b"bytes 0-18446744073709551615/0")]);
    request.headers_received(206, &head).unwrap();
    assert_eq!(requests.data_received(&request, b"", true, 0).output, b"");
    let state = requests.cursors[0].state.as_ref().unwrap();
    assert_eq!(state.offset, 1);
    assert_eq!(state.eof, 0);
    let head = requests.start_write(&request);
    assert_eq!(head.fields[1].1, "bytes=0-65536");
}
