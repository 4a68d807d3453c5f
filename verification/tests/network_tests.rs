use minibrowser::interceptor::{RecordedRequest, RequestLog, InterceptError};
use minibrowser::request::{HttpRequest, Method};
use minibrowser::response::HttpResponse;
use minibrowser::ssrf::url_targets_private_ip;

fn sample_pair() -> (HttpRequest, HttpResponse) {
    let req = HttpRequest::get("https://example.com/").header("accept", "text/html");
    let resp = HttpResponse {
        status: 200,
        headers: vec![("content-type".to_string(), "text/html".to_string())],
        body: b"<h1>Hello</h1>".to_vec(),
        url: "https://example.com/".to_string(),
    };
    (req, resp)
}

#[test]
fn record_and_retrieve() {
    let (req, resp) = sample_pair();
    let mut log = RequestLog::new();
    log.record(&req, &resp);
    assert_eq!(log.entries().len(), 1);
    assert_eq!(log.entries()[0].method, "GET");
    assert_eq!(log.entries()[0].url, "https://example.com/");
    assert_eq!(log.entries()[0].response_status, 200);
}

#[test]
fn curl_output() {
    let (req, resp) = sample_pair();
    let mut log = RequestLog::new();
    log.record(&req, &resp);
    let cmds = log.to_curl_commands();
    assert_eq!(cmds.len(), 1);
    assert!(cmds[0].contains("curl"));
    assert!(cmds[0].contains("https://example.com/"));
}

#[test]
fn curl_exact_text() {
    let (req, resp) = sample_pair();
    let rec = RecordedRequest::from_parts_at(&req, &resp, 7);
    assert_eq!(rec.to_curl(), "curl \\\n  -H 'accept: text/html' \\\n  'https://example.com/'");
}

#[test]
fn record_then_replay_gives_request_back() {
    let req = HttpRequest::post("https://example.com/api")
        .header("x-a", "1")
        .header("x-b", "2")
        .body(b"payload".to_vec());
    let resp = HttpResponse { status: 201, headers: vec![], body: vec![], url: String::new() };
    let rec = RecordedRequest::from_parts_at(&req, &resp, 0);
    let back = match rec.to_http_request() {
        Ok(r) => r,
        Err(_) => panic!("replay failed"),
    };
    assert_eq!(back.method, Method::Post);
    assert_eq!(back.url, "https://example.com/api");
    assert_eq!(back.headers, req.headers);
    assert_eq!(back.body, b"payload".to_vec());
}

#[test]
fn replay_unknown_method_is_refused() {
    let (req, resp) = sample_pair();
    let mut rec = RecordedRequest::from_parts_at(&req, &resp, 0);
    rec.method = "BREW".to_string();
    match rec.to_http_request() {
        Err(InterceptError::UnsupportedMethod(m)) => assert_eq!(m, "BREW"),
        Ok(_) => panic!("expected an error"),
    }
}

#[test]
fn response_headers_are_joined() {
    let req = HttpRequest::get("https://example.com/");
    let resp = HttpResponse {
        status: 200,
        headers: vec![
            ("set-cookie".to_string(), "a=1".to_string()),
            ("set-cookie".to_string(), "b=2".to_string()),
        ],
        body: vec![],
        url: String::new(),
    };
    let rec = RecordedRequest::from_parts_at(&req, &resp, 0);
    assert_eq!(rec.response_headers, vec![("set-cookie".to_string(), "a=1, b=2".to_string())]);
}

#[test]
fn response_helpers() {
    let (_, resp) = sample_pair();
    assert!(resp.is_success());
    assert_eq!(resp.status_code(), 200);
    assert_eq!(resp.text(), Some("<h1>Hello</h1>".to_string()));
    assert_eq!(resp.header("Content-Type"), Some("text/html"));
    assert_eq!(resp.header("x-missing"), None);
}

#[test]
fn request_header_replaces_value() {
    let req = HttpRequest::get("https://a/").header("k", "1").header("k", "2");
    assert_eq!(req.headers, vec![("k".to_string(), "2".to_string())]);
    assert_eq!(Method::Get.as_str(), "GET");
    assert_eq!(Method::from_name("DELETE"), Some(Method::Delete));
}

#[test]
fn test_ssrf_blocked_loopback() {
    assert!(url_targets_private_ip("http://127.0.0.1/"));
    assert!(url_targets_private_ip("http://127.0.0.1:8080/api"));
    assert!(url_targets_private_ip("http://[::1]:8080/"));
}

#[test]
fn test_ssrf_blocked_private_ranges() {
    assert!(url_targets_private_ip("http://10.0.0.1/"));
    assert!(url_targets_private_ip("http://172.16.0.1/"));
    assert!(url_targets_private_ip("http://192.168.1.1/"));
    assert!(url_targets_private_ip("http://169.254.1.1/"));
}

#[test]
fn test_ssrf_allowed_public() {
    assert!(!url_targets_private_ip("https://example.com/"));
    assert!(!url_targets_private_ip("http://8.8.8.8/"));
    assert!(!url_targets_private_ip("https://1.1.1.1/"));
}

#[test]
fn ssrf_unique_local_v6() {
    assert!(url_targets_private_ip("http://[fd00::1]/"));
    assert!(!url_targets_private_ip("not a url"));
}

#[test]
fn ssrf_host_names_read_as_addresses() {
    assert!(url_targets_private_ip("foo://127.0.0.1/"));
    assert!(url_targets_private_ip("ws://10.1.2.3/socket"));
    assert!(url_targets_private_ip("foo://192.168.0.7:9000/x"));
    assert!(!url_targets_private_ip("foo://127.1/"));
    assert!(!url_targets_private_ip("foo://010.0.0.1/"));
    assert!(!url_targets_private_ip("foo://8.8.8.8/"));
    assert!(!url_targets_private_ip("foo://intranet/"));
    assert!(url_targets_private_ip("http://0x7f.1/"));
}
