use flyserve::http_response::ResponseSnapshot;
use flyserve::HttpRequest;
use flyserve::HttpResponse;
use flyserve::ParseError;
use flyserve::Path;
use flyserve::ResponseHandler;
use regex::Regex;
use std::cell::Cell;
use std::rc::Rc;

struct Noop;

impl ResponseHandler for Noop {
    fn on_response(&mut self, _response: &ResponseSnapshot) {}
}

struct Recorder {
    sent: Rc<Cell<bool>>,
}

impl ResponseHandler for Recorder {
    fn on_response(&mut self, _response: &ResponseSnapshot) {
        self.sent.set(true);
    }
}

#[test]
fn path_parse_and_strip() {
    let path = Path::parse("/foo/bar");
    assert_eq!(path.segments.len(), 2);
    assert_eq!(path.segments[0], "foo");
    assert_eq!(path.segments[1], "bar");
}

#[test]
fn parse_http_request() {
    let request = HttpRequest::parse(
        "POST /foo/bar?foo=bar&foo%3F=bar%26 HTTP/1.1\r\n\
            Host: example.com\r\n\
            User-Agent: Mozilla/5.0 (X11; U; Linux i686; ru; rv:1.9b5) Gecko/2008050509 Firefox/3.0b5\r\n\
            Accept: text/html\r\n\
            \r\n\
            Lorem ipsum",
    );
    let request = request.unwrap();
    assert_eq!(request.method, "POST");
    assert_eq!(request.path.segments.len(), 2);
    assert_eq!(request.query.get("foo"), Some(String::from("bar")));
    assert_eq!(request.query.get("foo?"), Some(String::from("bar&")));
    assert_eq!(request.version, "1.1");
    assert_eq!(request.headers.get("Host"), Some(String::from("example.com")));
    assert_eq!(
        request.headers.get("User-Agent"),
        Some(String::from(
            "Mozilla/5.0 (X11; U; Linux i686; ru; rv:1.9b5) Gecko/2008050509 Firefox/3.0b5"
        ))
    );
    assert_eq!(request.headers.get("Accept"), Some(String::from("text/html")));
    assert_eq!(request.body, "Lorem ipsum");
}

#[test]
fn stringify_default_http_response() {
    let response: HttpResponse<Noop> = HttpResponse::new();
    let test_regex = Regex::new(
        r"^HTTP/1\.1 200 OK\r\nDate: (Mon|Tue|Wed|Thu|Fri|Sat|Sun) [0-3][0-9] (Jan|Feb|Mar|Apr|May|Jun|Jul|Aug|Sep|Oct|Nov|Dec) [1-9][0-9][0-9][0-9] [0-2][0-9]:[0-5][0-9]:[0-5][0-9] GMT\r\nServer: Flyserve$",
    )
    .unwrap();
    assert!(test_regex.is_match(&response.to_string()));
}

#[test]
fn stringify_http_response() {
    let mut response: HttpResponse<Noop> = HttpResponse::new();
    response.headers.insert(String::from("Content-type"), String::from("text/plain"));
    response.body = Some(String::from("Hello, world!"));
    let test_regex_for_header = Regex::new(r"\r\nContent-type: text/plain").unwrap();
    let test_regex_for_body = Regex::new(r"\r\n\r\nHello, world!$").unwrap();
    assert!(test_regex_for_header.is_match(&response.to_string()));
    assert!(test_regex_for_body.is_match(&response.to_string()));
}

#[test]
fn compare_blank_paths() {
    let path = Path::parse("");
    assert!(path.compare("").is_some());
}

#[test]
fn compare_simple_regex() {
    let path = Path::parse("/foo");
    assert!(path.compare("/.*").is_some());
}

#[test]
fn compare_simple_negative() {
    let path = Path::parse("/foo");
    assert!(path.compare("/.*/bar").is_none());
}

#[test]
fn compare_read_param() {
    let path = Path::parse("/user/42");
    let compare_result = path.compare("/user/(?P<id>.*)");
    assert!(compare_result.is_some());
    assert_eq!(compare_result.unwrap().get("id"), Some("42".to_string()));
}

#[test]
fn send_response() {
    let response_sent = Rc::new(Cell::new(false));
    {
        let mut response: HttpResponse<Recorder> = HttpResponse::new();
        response.set_response_handler(Recorder { sent: response_sent.clone() });
        response.send();
    }
    assert!(response_sent.get());
}

#[test]
fn strip_never_changes_segments() {
    let with_slashes = Path::parse("/foo/bar/");
    let without = Path::parse("foo/bar");
    assert_eq!(with_slashes.segments, without.segments);
    let one = Path::parse("/foo");
    let two = Path::parse("foo");
    assert_eq!(one.segments, two.segments);
}

#[test]
fn empty_path_single_empty_segment() {
    let path = Path::parse("");
    assert_eq!(path.segments.len(), 1);
    assert_eq!(path.segments[0], "");
    let caps = path.compare("").unwrap();
    assert_eq!(caps.len(), 0);
}

#[test]
fn try_compare_reports_invalid_template() {
    let path = Path::parse("/foo");
    assert!(path.try_compare("(unclosed").is_none());
    let ok = path.try_compare("/.*");
    assert!(ok.is_some());
    assert!(ok.unwrap().is_some());
}

#[test]
fn rejects_single_line() {
    assert!(HttpRequest::parse("GET / HTTP/1.1").is_err());
}

#[test]
fn rejects_short_request_line() {
    assert!(HttpRequest::parse("GET /\r\nHost: a\r\n\r\n").is_err());
}

#[test]
fn rejects_query_without_equals() {
    assert!(HttpRequest::parse("GET /a?foo HTTP/1.1\r\nHost: a\r\n\r\n").is_err());
    assert!(HttpRequest::parse("GET /a?=bar HTTP/1.1\r\nHost: a\r\n\r\n").is_err());
}

#[test]
fn rejects_header_without_colon() {
    let r = HttpRequest::parse("GET / HTTP/1.1\r\nNotAHeader\r\n\r\n");
    assert!(r.is_err());
    assert!(matches!(r, Err(ParseError::Malformed(_))));
}

#[test]
fn rejects_bad_protocol() {
    assert!(HttpRequest::parse("GET / SPDY/1.1\r\nHost: a\r\n\r\n").is_err());
    assert!(HttpRequest::parse("GET / HTTP/\r\nHost: a\r\n\r\n").is_err());
    assert!(HttpRequest::parse("GET / HTTP\r\nHost: a\r\n\r\n").is_err());
}

#[test]
fn accepts_lowercase_protocol_and_method() {
    let request = HttpRequest::parse("post / http/1.0\r\nHost: a\r\n\r\n").unwrap();
    assert_eq!(request.method, "POST");
    assert_eq!(request.version, "1.0");
}

#[test]
fn header_value_keeps_colons() {
    let request = HttpRequest::parse("GET / HTTP/1.1\r\nX-Time: 10:20:30\r\n\r\n").unwrap();
    assert_eq!(request.headers.get("X-Time"), Some(String::from("10:20:30")));
}

#[test]
fn duplicate_keys_last_write_wins() {
    let request = HttpRequest::parse(
        "GET /a?x=1&x=2 HTTP/1.1\r\nHost: one\r\nHost: two\r\n\r\n",
    )
    .unwrap();
    assert_eq!(request.query.get("x"), Some(String::from("2")));
    assert_eq!(request.headers.get("Host"), Some(String::from("two")));
}

#[test]
fn percent_decoding_applies_to_names_and_values() {
    let request = HttpRequest::parse("GET /a?x%20y=a%2Fb HTTP/1.1\r\nHost: a\r\n\r\n").unwrap();
    assert_eq!(request.query.get("x y"), Some(String::from("a/b")));
}

#[test]
fn body_lines_concatenate_without_separator() {
    let request =
        HttpRequest::parse("GET / HTTP/1.1\r\nHost: a\r\n\r\nfirst\r\nsecond\r\nthird").unwrap();
    assert_eq!(request.body, "firstsecondthird");
}

#[test]
fn parse_is_idempotent_on_same_bytes() {
    let raw = "POST /foo?a=1 HTTP/1.1\r\nHost: example.com\r\n\r\nbody";
    let one = HttpRequest::parse(raw).unwrap();
    let two = HttpRequest::parse(raw).unwrap();
    assert_eq!(one.method, two.method);
    assert_eq!(one.version, two.version);
    assert_eq!(one.body, two.body);
    assert_eq!(one.path.segments, two.path.segments);
    assert_eq!(one.query.get("a"), two.query.get("a"));
    assert_eq!(one.headers.get("Host"), two.headers.get("Host"));
    assert_eq!(one.params.len(), 0);
    assert_eq!(two.params.len(), 0);
}

#[test]
fn response_headers_serialize_in_key_order() {
    let mut response: HttpResponse<Noop> = HttpResponse::new();
    response.headers.insert(String::from("AAA"), String::from("first"));
    let text = response.to_string();
    let a = text.find("AAA").unwrap();
    let d = text.find("Date").unwrap();
    let s = text.find("Server").unwrap();
    assert!(a < d && d < s);
}

#[test]
fn response_status_without_message() {
    let mut response: HttpResponse<Noop> = HttpResponse::new();
    response.status_code = 404;
    response.status_msg = None;
    let text = response.to_string();
    assert!(text.starts_with("HTTP/1.1 404\r\n"));
}

#[test]
fn query_empty_value_and_missing_header() {
    let request = HttpRequest::parse("GET /a?x= HTTP/1.1\r\nHost: a\r\n\r\n").unwrap();
    assert_eq!(request.query.get("x"), Some(String::new()));
    assert_eq!(request.headers.get("Nope"), None);
}

#[test]
fn invalid_percent_sequences_pass_through() {
    let request = HttpRequest::parse("GET /a?a%zz=1 HTTP/1.1\r\nHost: a\r\n\r\n").unwrap();
    assert_eq!(request.query.get("a%zz"), Some(String::from("1")));
}

#[test]
fn header_names_and_values_are_trimmed() {
    let request = HttpRequest::parse("GET / HTTP/1.1\r\n  Host  :   spaced out  \r\n\r\n").unwrap();
    assert_eq!(request.headers.get("Host"), Some(String::from("spaced out")));
}

#[test]
fn rejects_empty_header_name_or_value() {
    assert!(HttpRequest::parse("GET / HTTP/1.1\r\n: value\r\n\r\n").is_err());
    assert!(HttpRequest::parse("GET / HTTP/1.1\r\nName:   \r\n\r\n").is_err());
}
