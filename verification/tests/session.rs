use http_crawler::html::HtmlPage;
use http_crawler::session::{csrf_token, first_token, host_and_port, login_page_request, login_request, uses_tls, SessionError};
use http_crawler::text::decimal_string;

#[test]
fn login_page_request_text() {
    assert_eq!(
        login_page_request("fakebook.example").to_string(),
        "GET /accounts/login/ HTTP/1.1\r\nHost: fakebook.example\r\n\r\n"
    );
}

#[test]
fn login_request_text() {
    let r = login_request("fb.example", "csrftoken=t", "alice", "secret", "TOKEN");
    let body = "username=alice&password=secret&csrfmiddlewaretoken=TOKEN&next=";
    assert_eq!(
        r.to_string(),
        format!(
            "POST /accounts/login HTTP/1.1\r\nHost: fb.example\r\nReferer: https://fb.example/accounts/login/\r\nCookie: csrftoken=t\r\nContent-Type: application/x-www-form-urlencoded\r\nContent-Length: {}\r\n\r\n{}",
            body.len(),
            body
        )
    );
}

#[test]
fn csrf_token_from_page() {
    let page = HtmlPage::new(
        r#"<form><input type="hidden" name="csrfmiddlewaretoken" value="abc123"><input name="csrfmiddlewaretoken" value="second"></form>"#
            .to_string(),
    );
    assert_eq!(csrf_token(&page), Ok("abc123".to_string()));
    let none = HtmlPage::new("<form><input name=\"username\"></form>".to_string());
    assert_eq!(csrf_token(&none), Err(SessionError::MissingCsrfToken));
    let no_value = HtmlPage::new("<input name=\"csrfmiddlewaretoken\">".to_string());
    assert_eq!(csrf_token(&no_value), Err(SessionError::MissingCsrfToken));
}

#[test]
fn first_token_takes_the_first_field() {
    assert_eq!(first_token(&vec![Some("a".to_string()), Some("b".to_string())]), Ok("a".to_string()));
    assert_eq!(first_token(&vec![None, Some("b".to_string())]), Err(SessionError::MissingCsrfToken));
    assert_eq!(first_token(&vec![]), Err(SessionError::MissingCsrfToken));
}

#[test]
fn addresses() {
    assert_eq!(host_and_port("fakebook.example", 443), "fakebook.example:443");
    assert_eq!(host_and_port("h", 0), "h:0");
    assert_eq!(host_and_port("h", 4294967295), "h:4294967295");
    assert!(uses_tls(443));
    assert!(!uses_tls(80));
}

#[test]
fn decimal_numerals() {
    assert_eq!(decimal_string(0), "0");
    assert_eq!(decimal_string(9), "9");
    assert_eq!(decimal_string(10), "10");
    assert_eq!(decimal_string(1234567890), "1234567890");
}
