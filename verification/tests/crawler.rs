use http_crawler::crawler::{flag_lines, handles_code, response_action, CrawlError, Crawler, ResponseAction, VisitDecision};
use http_crawler::html::HtmlPage;
use http_crawler::http::Response;

fn fetch_text(d: VisitDecision) -> Option<String> {
    match d {
        VisitDecision::Fetch(r) => Some(r.to_string()),
        _ => None,
    }
}

#[test]
fn visit_fetches_a_page_once() {
    let mut c = Crawler::new("sessionid=1", "fakebook.example");
    let first = fetch_text(c.visit("/fakebook/"));
    assert_eq!(
        first.as_deref(),
        Some("GET /fakebook/ HTTP/1.1\r\nHost: fakebook.example\r\nCookie: sessionid=1\r\n\r\n")
    );
    assert!(matches!(c.visit("/fakebook/"), VisitDecision::AlreadyVisited));
}

#[test]
fn visit_skips_what_is_not_a_page() {
    let mut c = Crawler::new("", "s");
    assert!(matches!(c.visit("http://elsewhere/"), VisitDecision::NotAPath));
    assert!(matches!(c.visit(""), VisitDecision::NotAPath));
    assert!(matches!(c.visit("/accounts/logout/"), VisitDecision::SessionPage));
    assert!(matches!(c.visit("/accounts/login/"), VisitDecision::SessionPage));
    assert!(matches!(c.visit("/x/accounts"), VisitDecision::SessionPage));
}

#[test]
fn links_are_queued_unless_visited() {
    let mut c = Crawler::new("", "s");
    assert!(matches!(c.visit("/seen/"), VisitDecision::Fetch(_)));
    c.enqueue_links(&vec![
        Some("/a/".to_string()),
        None,
        Some("/seen/".to_string()),
        Some("/accounts/login/".to_string()),
        Some("/a/".to_string()),
    ]);
    assert_eq!(c.next_trip(), Some("/a/".to_string()));
    assert_eq!(c.next_trip(), Some("/a/".to_string()));
    assert_eq!(c.next_trip(), None);
}

#[test]
fn scan_queues_the_first_path() {
    let mut c = Crawler::new("", "s");
    c.scan("/start/");
    c.scan("/then/");
    assert_eq!(c.next_trip(), Some("/start/".to_string()));
    assert_eq!(c.next_trip(), Some("/then/".to_string()));
    assert_eq!(c.next_trip(), None);
}

#[test]
fn collect_links_reads_flags_and_links() {
    let page = HtmlPage::new(
        r#"<html><body>
        <h2 class="secret_flag" style="color:red">FLAG: 0123abcd</h2>
        <a href="/fakebook/1/">one</a>
        <a name="nowhere">no link</a>
        <a href="/accounts/logout/">out</a>
        <p class="secret_flag">FLAG: FLAG: x</p>
        </body></html>"#
            .to_string(),
    );
    let mut c = Crawler::new("", "s");
    let (flags, outcome) = c.collect_links(&page);
    assert_eq!(outcome, Ok(()));
    assert_eq!(flags, vec!["0123abcd".to_string(), "x".to_string()]);
    assert_eq!(c.next_trip(), Some("/fakebook/1/".to_string()));
    assert_eq!(c.next_trip(), Some("/accounts/logout/".to_string()));
    assert_eq!(c.next_trip(), None);
}

#[test]
fn flag_lines_drop_every_marker() {
    let texts = vec![
        vec!["FLAG: abc".to_string(), "plain".to_string()],
        vec![],
        vec!["xFLAG: FLAG: y".to_string(), "FLAG:".to_string()],
    ];
    assert_eq!(
        flag_lines(&texts),
        vec!["abc".to_string(), "plain".to_string(), "xy".to_string(), "FLAG:".to_string()]
    );
}

#[test]
fn response_actions() {
    assert!(handles_code(200) && handles_code(302) && handles_code(503));
    assert!(!handles_code(404));
    let ok = Response::try_from("HTTP/1.1 200 OK\n\n<p/>").unwrap();
    assert!(matches!(response_action(&ok), Ok(ResponseAction::CollectLinks)));
    let busy = Response::try_from("HTTP/1.1 503 Busy\n\n").unwrap();
    assert!(matches!(response_action(&busy), Ok(ResponseAction::PauseThenCollect(2))));
    let moved = Response::try_from("HTTP/1.1 302 Found\nlocation: /next/\n\n").unwrap();
    match response_action(&moved) {
        Ok(ResponseAction::FollowRedirect(l)) => assert_eq!(l, "/next/"),
        _ => panic!("expected a redirect"),
    }
    let lost = Response::try_from("HTTP/1.1 302 Found\nLocation: /next/\n\n").unwrap();
    assert!(matches!(response_action(&lost), Err(CrawlError::MissingLocation)));
}
