use minibrowser::cookie::{parse_http_date, Cookie, CookieJar};

#[test]
fn test_parse_set_cookie_max_age() {
    let mut jar = CookieJar::new();
    jar.parse_set_cookie("session=abc123; Max-Age=3600; Path=/", "example.com");
    let cookies = jar.get_matching("example.com", "/");
    assert_eq!(cookies.len(), 1);
    assert!(cookies[0].expires.is_some());
    let now = std::time::SystemTime::now()
        .duration_since(std::time::UNIX_EPOCH)
        .unwrap()
        .as_secs() as i64;
    let diff = cookies[0].expires.unwrap() - now;
    assert!(diff > 3500 && diff <= 3600);
}

#[test]
fn test_parse_set_cookie_expired_max_age() {
    let mut jar = CookieJar::new();
    jar.parse_set_cookie("session=abc123; Max-Age=0; Path=/", "example.com");
    let cookies = jar.get_matching("example.com", "/");
    assert_eq!(cookies.len(), 0, "cookie with Max-Age=0 should be filtered out");
}

#[test]
fn test_parse_set_cookie_session_cookie() {
    let mut jar = CookieJar::new();
    jar.parse_set_cookie("session=abc123; Path=/", "example.com");
    let cookies = jar.get_matching("example.com", "/");
    assert_eq!(cookies.len(), 1);
    assert!(cookies[0].expires.is_none(), "session cookie should have None expires");
}

#[test]
fn test_parse_set_cookie_expires() {
    let mut jar = CookieJar::new();
    jar.parse_set_cookie("id=xyz; Expires=Wed, 21 Oct 2099 07:28:00 GMT; Path=/", "example.com");
    let cookies = jar.get_matching("example.com", "/");
    assert_eq!(cookies.len(), 1);
    assert!(cookies[0].expires.is_some());
    assert!(cookies[0].expires.unwrap() > 0);
}

#[test]
fn test_max_age_overrides_expires() {
    let mut jar = CookieJar::new();
    jar.parse_set_cookie(
        "id=xyz; Expires=Wed, 21 Oct 2099 07:28:00 GMT; Max-Age=0; Path=/",
        "example.com",
    );
    let cookies = jar.get_matching("example.com", "/");
    assert_eq!(cookies.len(), 0, "Max-Age=0 should override Expires and expire immediately");
}

#[test]
fn test_parse_http_date() {
    let ts = parse_http_date("Wed, 21 Oct 2025 07:28:00 GMT");
    assert!(ts.is_some());
    let expected = 1761031680;
    assert_eq!(ts.unwrap(), expected);
}

#[test]
fn http_date_epoch_and_bad_input() {
    assert_eq!(parse_http_date("Thu, 01 Jan 1970 00:00:00 GMT"), Some(0));
    assert_eq!(parse_http_date("not a date"), None);
}

#[test]
fn jar_insert_replaces_same_name_and_path() {
    let mut jar = CookieJar::new();
    let c = |v: &str| Cookie {
        name: "a".to_string(),
        value: v.to_string(),
        domain: Some("example.com".to_string()),
        path: "/".to_string(),
        expires: None,
        secure: false,
        http_only: false,
    };
    jar.insert(c("1"));
    jar.insert(c("2"));
    let all = jar.all_cookies();
    assert_eq!(all.len(), 1);
    assert_eq!(all[0].value, "2");
}

#[test]
fn cookie_header_joins_pairs() {
    let mut jar = CookieJar::new();
    jar.parse_set_cookie("a=1; Path=/", "example.com");
    jar.parse_set_cookie("b=2; Path=/", "example.com");
    assert_eq!(jar.cookie_header("example.com", "/"), Some("a=1; b=2".to_string()));
    assert_eq!(jar.cookie_header("other.org", "/"), None);
}

#[test]
fn clear_empties_jar() {
    let mut jar = CookieJar::new();
    jar.parse_set_cookie("a=1", "example.com");
    jar.clear();
    assert!(jar.all_cookies().is_empty());
}
