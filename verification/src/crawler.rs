//! The crawler's bookkeeping: which pages it has visited, which it still has
//! to visit, which request fetches a page, and what to do with each response.
//! The fetching itself (connections, sending, waiting) is left to the caller,
//! which hands every response back.

use crate::html::{select_attrs, select_texts, selected_attrs, selected_texts, HtmlPage};
use crate::http::{lemma_header_read_back, with_header, Method, RequestBuilder, RequestView, Response};
use crate::headers::{entries_lookup, headers_get};
use crate::text::{chars_of, contains, contains_seq, occurs_at, remove_all, remove_all_exec, starts_with, str_eq};
use std::collections::VecDeque;
use vstd::prelude::*;

verus! {

broadcast use vstd::string::group_string_axioms;

/// The state of a crawl.
pub struct Crawler {
    /// The visited paths, as a set: vstd gives `String` keys no key model, so
    /// a `HashSet<String>` would leave nothing provable about membership.
    visited_urls: Vec<String>,
    trips_queue: VecDeque<String>,
    cookies: String,
    server: String,
}

/// What a crawler holds: the paths it has visited (or is visiting), the
/// paths queued for a later visit, the cookies it sends, and the server.
#[verifier::ext_equal]
pub struct CrawlerView {
    pub visited: Set<Seq<char>>,
    pub queue: Seq<Seq<char>>,
    pub cookies: Seq<char>,
    pub server: Seq<char>,
}

/// Strings, as character sequences.
pub open spec fn strings_view(v: Seq<String>) -> Seq<Seq<char>> {
    v.map_values(|s: String| s@)
}

impl View for Crawler {
    type V = CrawlerView;

    closed spec fn view(&self) -> CrawlerView {
        CrawlerView {
            visited: strings_view(self.visited_urls@).to_set(),
            queue: strings_view(self.trips_queue@),
            cookies: self.cookies@,
            server: self.server@,
        }
    }
}

/// Whether a visit of `path` fetches it: it must be an absolute path, must not
/// lead to the session pages (anything with `accounts` in it), and must not
/// have been visited before.
pub open spec fn fetches(c: CrawlerView, path: Seq<char>) -> bool {
    occurs_at(path, "/"@, 0) && !contains_seq(path, "accounts"@) && !c.visited.contains(path)
}

/// The request that fetches `path`: a GET with the server as `Host` and the
/// crawler's cookies.
pub open spec fn page_request(c: CrawlerView, path: Seq<char>) -> RequestView {
    with_header(
        with_header(
            RequestView {
                method: Method::Get,
                path,
                headers: Seq::empty(),
                form_items: Seq::empty(),
            },
            "Host"@,
            c.server,
        ),
        "Cookie"@,
        c.cookies,
    )
}

/// The paths that a list of links adds to the queue: each link that has a
/// target not yet visited, in order.
pub open spec fn new_links(hrefs: Seq<Option<Seq<char>>>, visited: Set<Seq<char>>) -> Seq<Seq<char>>
    decreases hrefs.len(),
{
    if hrefs.len() == 0 {
        Seq::empty()
    } else {
        let init = new_links(hrefs.drop_last(), visited);
        match hrefs.last() {
            Some(u) => if visited.contains(u) {
                init
            } else {
                init.push(u)
            },
            None => init,
        }
    }
}

/// Each page is fetched at most once: once a visit fetches `path`, a later
/// visit of `path` does not.
pub proof fn lemma_fetch_once(c: CrawlerView, path: Seq<char>)
    requires
        fetches(c, path),
    ensures
        !fetches(CrawlerView { visited: c.visited.insert(path), ..c }, path),
{
}

/// The session pages are never fetched: no path with `accounts` in it, the
/// login page among them.
pub proof fn lemma_session_pages_not_fetched(c: CrawlerView, path: Seq<char>)
    ensures
        contains_seq(path, "accounts"@) ==> !fetches(c, path),
        !fetches(c, "/accounts/login/"@),
{
    reveal_strlit("/accounts/login/");
    reveal_strlit("accounts");
    assert(occurs_at("/accounts/login/"@, "accounts"@, 1)) by {
        assert("/accounts/login/"@.subrange(1, 9) =~= "accounts"@);
    }
}

/// Only unvisited pages are queued: every path that a list of links adds to
/// the queue is the target of one of the links, and has not been visited.
pub proof fn lemma_new_links_unvisited(hrefs: Seq<Option<Seq<char>>>, visited: Set<Seq<char>>)
    ensures
        forall|i: int|
            0 <= i < new_links(hrefs, visited).len() ==> !visited.contains(#[trigger] new_links(hrefs, visited)[i])
                && exists|j: int| 0 <= j < hrefs.len() && hrefs[j] == Some(new_links(hrefs, visited)[i]),
    decreases hrefs.len(),
{
    if hrefs.len() > 0 {
        lemma_new_links_unvisited(hrefs.drop_last(), visited);
        let init = new_links(hrefs.drop_last(), visited);
        let all = new_links(hrefs, visited);
        assert forall|i: int| 0 <= i < all.len() implies !visited.contains(#[trigger] all[i]) && exists|j: int|
            0 <= j < hrefs.len() && hrefs[j] == Some(all[i]) by {
            if i < init.len() {
                assert(all[i] == init[i]);
                let j = choose|j: int| 0 <= j < hrefs.drop_last().len() && hrefs.drop_last()[j] == Some(init[i]);
                assert(hrefs[j] == Some(all[i]));
            } else {
                assert(hrefs[hrefs.len() - 1] == Some(all[i]));
            }
        }
    }
}

/// Which paths a list of links queues: exactly the targets that have not been
/// visited, in the order of the links, each as often as it occurs; links
/// without a target are left out.  (Stated with `Seq::filter_map`.)
pub proof fn lemma_new_links_are_the_unvisited_targets(hrefs: Seq<Option<Seq<char>>>, visited: Set<Seq<char>>)
    ensures
        new_links(hrefs, visited) == hrefs.filter_map(
            |o: Option<Seq<char>>|
                match o {
                    Some(u) => if visited.contains(u) {
                        None
                    } else {
                        Some(u)
                    },
                    None => None,
                },
        ),
    decreases hrefs.len(),
{
    if hrefs.len() > 0 {
        lemma_new_links_are_the_unvisited_targets(hrefs.drop_last(), visited);
        let init = new_links(hrefs.drop_last(), visited);
        match hrefs.last() {
            Some(u) => {
                assert(init.push(u) =~= init + seq![u]);
            },
            None => {},
        }
    }
}

/// No unvisited target is lost: every link whose target has not been
/// visited puts that target in the queue.
pub proof fn lemma_new_links_complete(hrefs: Seq<Option<Seq<char>>>, visited: Set<Seq<char>>, i: int, u: Seq<char>)
    requires
        0 <= i < hrefs.len(),
        hrefs[i] == Some(u),
        !visited.contains(u),
    ensures
        new_links(hrefs, visited).contains(u),
    decreases hrefs.len(),
{
    let init = new_links(hrefs.drop_last(), visited);
    if i == hrefs.len() - 1 {
        assert(new_links(hrefs, visited) == init.push(u));
        assert(init.push(u)[init.len() as int] == u);
    } else {
        assert(hrefs.drop_last()[i] == Some(u));
        lemma_new_links_complete(hrefs.drop_last(), visited, i, u);
        let k = choose|k: int| 0 <= k < init.len() && init[k] == u;
        match hrefs.last() {
            Some(w) => if !visited.contains(w) {
                assert(init.push(w)[k] == u);
            },
            None => {},
        }
    }
}

/// The request a fetching visit builds: a GET of exactly the visited path,
/// with no form, carrying the crawler's server as `Host` and its whole cookie
/// string as `Cookie`.
pub proof fn lemma_page_request_carries_session(c: CrawlerView, path: Seq<char>)
    ensures
        page_request(c, path).method == Method::Get,
        page_request(c, path).path == path,
        page_request(c, path).form_items.len() == 0,
        entries_lookup(page_request(c, path).headers, "Host"@) == Some(c.server),
        entries_lookup(page_request(c, path).headers, "Cookie"@) == Some(c.cookies),
{
    let base = RequestView { method: Method::Get, path, headers: Seq::empty(), form_items: Seq::empty() };
    let with_host = with_header(base, "Host"@, c.server);
    reveal_strlit("Host");
    reveal_strlit("Cookie");
    assert("Host"@.len() != "Cookie"@.len());
    lemma_header_read_back(base, "Host"@, c.server, "Cookie"@);
    lemma_header_read_back(with_host, "Cookie"@, c.cookies, "Host"@);
}

/// One call on a crawler, as far as its state is concerned.
pub enum CrawlOp {
    /// `visit(path)`.
    Visit(Seq<char>),
    /// `enqueue_links(hrefs)`, or a `collect_links` that found these links.
    Enqueue(Seq<Option<Seq<char>>>),
    /// `scan(path)`.
    Scan(Seq<char>),
    /// `next_trip()`.
    NextTrip,
}

/// The crawler after a call.
pub open spec fn after_op(c: CrawlerView, op: CrawlOp) -> CrawlerView {
    match op {
        CrawlOp::Visit(p) => if fetches(c, p) {
            CrawlerView { visited: c.visited.insert(p), ..c }
        } else {
            c
        },
        CrawlOp::Enqueue(h) => CrawlerView { queue: c.queue + new_links(h, c.visited), ..c },
        CrawlOp::Scan(p) => CrawlerView { queue: c.queue.push(p), ..c },
        CrawlOp::NextTrip => if c.queue.len() > 0 {
            CrawlerView { queue: c.queue.drop_first(), ..c }
        } else {
            c
        },
    }
}

/// The crawler after a sequence of calls.
pub open spec fn after_ops(c: CrawlerView, ops: Seq<CrawlOp>) -> CrawlerView
    decreases ops.len(),
{
    if ops.len() == 0 {
        c
    } else {
        after_op(after_ops(c, ops.drop_last()), ops.last())
    }
}

/// The paths fetched during a sequence of calls, in order.
pub open spec fn fetched_paths(c: CrawlerView, ops: Seq<CrawlOp>) -> Seq<Seq<char>>
    decreases ops.len(),
{
    if ops.len() == 0 {
        Seq::empty()
    } else {
        let before = after_ops(c, ops.drop_last());
        let earlier = fetched_paths(c, ops.drop_last());
        match ops.last() {
            CrawlOp::Visit(p) => if fetches(before, p) {
                earlier.push(p)
            } else {
                earlier
            },
            _ => earlier,
        }
    }
}

/// Over any sequence of calls, the crawler fetches each path at most once,
/// only absolute paths without `accounts` in them (so never the login page),
/// and none it had visited before; every fetched path is recorded as visited,
/// and nothing is ever forgotten.
pub proof fn lemma_crawl_fetches_each_page_once(c: CrawlerView, ops: Seq<CrawlOp>)
    ensures
        ({
            let f = fetched_paths(c, ops);
            let end = after_ops(c, ops);
            &&& forall|i: int, j: int| 0 <= i < j < f.len() ==> f[i] != f[j]
            &&& forall|i: int|
                0 <= i < f.len() ==> occurs_at(#[trigger] f[i], "/"@, 0) && !contains_seq(f[i], "accounts"@)
                    && !c.visited.contains(f[i]) && end.visited.contains(f[i])
            &&& c.visited.subset_of(end.visited)
        }),
    decreases ops.len(),
{
    if ops.len() > 0 {
        let prev = ops.drop_last();
        lemma_crawl_fetches_each_page_once(c, prev);
        let before = after_ops(c, prev);
        let earlier = fetched_paths(c, prev);
        let f = fetched_paths(c, ops);
        let end = after_ops(c, ops);
        assert(before.visited.subset_of(end.visited));
        match ops.last() {
            CrawlOp::Visit(p) => {
                if fetches(before, p) {
                    assert forall|i: int| 0 <= i < earlier.len() implies earlier[i] != p by {
                        assert(before.visited.contains(earlier[i]));
                    }
                    assert forall|i: int, j: int| 0 <= i < j < f.len() implies f[i] != f[j] by {
                        if j == f.len() - 1 {
                            assert(f[i] == earlier[i]);
                        } else {
                            assert(f[i] == earlier[i] && f[j] == earlier[j]);
                        }
                    }
                    assert forall|i: int| 0 <= i < f.len() implies occurs_at(#[trigger] f[i], "/"@, 0)
                        && !contains_seq(f[i], "accounts"@) && !c.visited.contains(f[i]) && end.visited.contains(f[i]) by {
                        if i < earlier.len() {
                            assert(f[i] == earlier[i]);
                        } else {
                            assert(f[i] == p);
                        }
                    }
                }
            },
            _ => {},
        }
    }
}

/// The lines a page's secret flags print: every text of every flag element,
/// in order, without its `FLAG: ` markers.
pub open spec fn flag_lines_spec(texts: Seq<Seq<Seq<char>>>) -> Seq<Seq<char>>
    decreases texts.len(),
{
    if texts.len() == 0 {
        Seq::empty()
    } else {
        flag_lines_spec(texts.drop_last()) + texts.last().map_values(|t: Seq<char>| remove_all(t, "FLAG: "@))
    }
}

/// Whether the crawler knows what to do with a response with status `code`.
pub open spec fn is_handled_code(code: u32) -> bool {
    code == 200 || code == 302 || code == 503
}

/// Why a visit went wrong.
#[derive(Debug, Clone, Copy, PartialEq, Eq, Structural)]
pub enum CrawlError {
    /// The selector for the secret flags did not parse.
    InvalidFlagSelector,
    /// The selector for the links did not parse.
    InvalidLinkSelector,
    /// A redirect came without a `location` header.
    MissingLocation,
}

/// What a visit of a path comes to.
pub enum VisitDecision {
    /// The path is not absolute; it is skipped.
    NotAPath,
    /// The path leads to the session pages; it is skipped.
    SessionPage,
    /// The path was visited before; it is skipped.
    AlreadyVisited,
    /// The path is to be fetched with this request.
    Fetch(RequestBuilder),
}

/// What to do with a response.
pub enum ResponseAction {
    /// Collect the flags and links of the page in the body.
    CollectLinks,
    /// Visit this path instead.
    FollowRedirect(String),
    /// Wait this many seconds, then collect the flags and links of the body.
    PauseThenCollect(u64),
}

/// Whether a status code is one the crawler knows what to do with.
pub fn handles_code(code: u32) -> (b: bool)
    ensures
        b == is_handled_code(code),
{
    code == 200 || code == 302 || code == 503
}

/// What to do with a response: collect the page of a 200, follow the
/// `location` of a 302, wait two seconds and then collect the page of a 503.
pub fn response_action(response: &Response) -> (r: Result<ResponseAction, CrawlError>)
    requires
        is_handled_code(response.code),
    ensures
        response.code == 200 ==> r matches Ok(ResponseAction::CollectLinks),
        response.code == 503 ==> r matches Ok(ResponseAction::PauseThenCollect(2)),
        response.code == 302 ==> match entries_lookup(response@.headers, "location"@) {
            Some(l) => r matches Ok(ResponseAction::FollowRedirect(m)) && m@ == l,
            None => r matches Err(CrawlError::MissingLocation),
        },
{
    if response.code == 200 {
        Ok(ResponseAction::CollectLinks)
    } else if response.code == 302 {
        match headers_get(&response.headers, "location") {
            Some(location) => Ok(ResponseAction::FollowRedirect(location.clone())),
            None => Err(CrawlError::MissingLocation),
        }
    } else {
        Ok(ResponseAction::PauseThenCollect(2))
    }
}

/// The lines to print for the secret flags of a page, from the texts of its
/// flag elements: each text without its `FLAG: ` markers.
pub fn flag_lines(texts: &Vec<Vec<String>>) -> (lines: Vec<String>)
    ensures
        strings_view(lines@) == flag_lines_spec(crate::html::texts_view(texts@)),
{
    let ghost all = crate::html::texts_view(texts@);
    let mut lines: Vec<String> = Vec::new();
    let mut i: usize = 0;
    assert(all.take(0) == Seq::<Seq<Seq<char>>>::empty());
    assert(strings_view(lines@) == Seq::<Seq<char>>::empty());
    while i < texts.len()
        invariant
            i <= texts@.len(),
            all == crate::html::texts_view(texts@),
            strings_view(lines@) == flag_lines_spec(all.take(i as int)),
        decreases texts.len() - i,
    {
        let ghost before = strings_view(lines@);
        let ghost row = all[i as int];
        let mut j: usize = 0;
        while j < texts[i].len()
            invariant
                i < texts@.len(),
                j <= texts@[i as int]@.len(),
                row == texts@[i as int]@.map_values(|s: String| s@),
                strings_view(lines@) == before + row.take(j as int).map_values(|t: Seq<char>| remove_all(t, "FLAG: "@)),
            decreases texts[i as int]@.len() - j,
        {
            let line = remove_all_exec(texts[i][j].as_str(), "FLAG: ");
            let ghost prev = strings_view(lines@);
            lines.push(line);
            proof {
                assert(strings_view(lines@) == prev.push(line@));
                assert(row.take(j + 1).map_values(|t: Seq<char>| remove_all(t, "FLAG: "@))
                    == row.take(j as int).map_values(|t: Seq<char>| remove_all(t, "FLAG: "@)).push(remove_all(row[j as int], "FLAG: "@)));
            }
            j = j + 1;
        }
        proof {
            assert(row.take(j as int) == row);
            assert(all.take(i + 1).drop_last() == all.take(i as int));
            assert(all.take(i + 1).last() == row);
        }
        i = i + 1;
    }
    assert(all.take(i as int) == all);
    lines
}

impl Crawler {
    /// A crawler that sends `cookies` to `server`.  The login page counts as
    /// visited from the start.
    pub fn new(cookies: &str, server: &str) -> (c: Self)
        ensures
            c@ == (CrawlerView {
                visited: set!["/accounts/login/"@],
                queue: Seq::empty(),
                cookies: cookies@,
                server: server@,
            }),
    {
        let mut visited_urls: Vec<String> = Vec::new();
        visited_urls.push("/accounts/login/".to_owned());
        let c = Crawler {
            visited_urls,
            trips_queue: VecDeque::new(),
            cookies: cookies.to_owned(),
            server: server.to_owned(),
        };
        proof {
            assert(strings_view(c.visited_urls@) == seq!["/accounts/login/"@]);
            assert(seq!["/accounts/login/"@].to_set() =~= set!["/accounts/login/"@]) by {
                assert(seq!["/accounts/login/"@][0] == "/accounts/login/"@);
            }
            assert(strings_view(c.trips_queue@) =~= Seq::<Seq<char>>::empty());
        }
        c
    }

    fn is_visited(&self, path: &str) -> (b: bool)
        ensures
            b == self@.visited.contains(path@),
    {
        let mut i: usize = 0;
        while i < self.visited_urls.len()
            invariant
                i <= self.visited_urls@.len(),
                forall|j: int| 0 <= j < i ==> self.visited_urls@[j]@ != path@,
            decreases self.visited_urls.len() - i,
        {
            if str_eq(self.visited_urls[i].as_str(), path) {
                proof {
                    assert(strings_view(self.visited_urls@)[i as int] == path@);
                }
                return true;
            }
            i = i + 1;
        }
        proof {
            if strings_view(self.visited_urls@).contains(path@) {
                let k = choose|k: int| 0 <= k < strings_view(self.visited_urls@).len() && strings_view(self.visited_urls@)[k] == path@;
                assert(self.visited_urls@[k]@ == path@);
            }
        }
        false
    }

    /// Decides what a visit of `path` comes to.  A path that is fetched is
    /// marked as visited at once.
    pub fn visit(&mut self, path: &str) -> (r: VisitDecision)
        ensures
            match r {
                VisitDecision::Fetch(request) => fetches(old(self)@, path@) && request@ == page_request(old(self)@, path@)
                    && final(self)@ == (CrawlerView { visited: old(self)@.visited.insert(path@), ..old(self)@ }),
                VisitDecision::NotAPath => !occurs_at(path@, "/"@, 0) && final(self)@ == old(self)@,
                VisitDecision::SessionPage => occurs_at(path@, "/"@, 0) && contains_seq(path@, "accounts"@)
                    && final(self)@ == old(self)@,
                VisitDecision::AlreadyVisited => occurs_at(path@, "/"@, 0) && !contains_seq(path@, "accounts"@)
                    && old(self)@.visited.contains(path@) && final(self)@ == old(self)@,
            },
            final(self)@ == after_op(old(self)@, CrawlOp::Visit(path@)),
            r is Fetch <==> fetches(old(self)@, path@),
            r matches VisitDecision::Fetch(request) ==> request@.path == path@ && entries_lookup(
                request@.headers,
                "Cookie"@,
            ) == Some(old(self)@.cookies) && entries_lookup(request@.headers, "Host"@) == Some(
                old(self)@.server,
            ),
    {
        let path_chars = chars_of(path);
        let slash = chars_of("/");
        let accounts = chars_of("accounts");
        if !starts_with(path_chars.as_slice(), slash.as_slice()) {
            return VisitDecision::NotAPath;
        }
        if contains(path_chars.as_slice(), accounts.as_slice()) {
            return VisitDecision::SessionPage;
        }
        if self.is_visited(path) {
            return VisitDecision::AlreadyVisited;
        }
        let ghost before = strings_view(self.visited_urls@);
        self.visited_urls.push(path.to_owned());
        proof {
            assert(strings_view(self.visited_urls@) == before.push(path@));
            assert(before.push(path@).to_set() =~= before.to_set().insert(path@)) by {
                assert forall|u: Seq<char>| before.push(path@).contains(u) <==> before.contains(u) || u == path@ by {
                    if before.push(path@).contains(u) && u != path@ {
                        let k = choose|k: int| 0 <= k < before.push(path@).len() && before.push(path@)[k] == u;
                        assert(k < before.len());
                        assert(before[k] == u);
                    }
                    if before.contains(u) {
                        let k = choose|k: int| 0 <= k < before.len() && before[k] == u;
                        assert(before.push(path@)[k] == u);
                    }
                    if u == path@ {
                        assert(before.push(path@)[before.len() as int] == u);
                    }
                }
            }
        }
        proof {
            lemma_page_request_carries_session(old(self)@, path@);
        }
        let request = RequestBuilder::new(Method::Get, path.to_owned())
            .header("Host", self.server.as_str())
            .header("Cookie", self.cookies.as_str());
        VisitDecision::Fetch(request)
    }

    /// Queues the target of each link that has one and has not been visited.
    pub fn enqueue_links(&mut self, hrefs: &Vec<Option<String>>)
        ensures
            final(self)@ == after_op(old(self)@, CrawlOp::Enqueue(crate::html::opt_strings_view(hrefs@))),
            final(self)@ == (CrawlerView {
                queue: old(self)@.queue + new_links(crate::html::opt_strings_view(hrefs@), old(self)@.visited),
                ..old(self)@
            }),
    {
        let ghost all = crate::html::opt_strings_view(hrefs@);
        let ghost start = self@;
        let mut i: usize = 0;
        assert(all.take(0) == Seq::<Option<Seq<char>>>::empty());
        assert(start.queue + Seq::<Seq<char>>::empty() == start.queue);
        while i < hrefs.len()
            invariant
                i <= hrefs@.len(),
                all == crate::html::opt_strings_view(hrefs@),
                start == old(self)@,
                self@ == (CrawlerView { queue: start.queue + new_links(all.take(i as int), start.visited), ..start }),
            decreases hrefs.len() - i,
        {
            proof {
                assert(all.take(i + 1).drop_last() == all.take(i as int));
                assert(all.take(i + 1).last() == all[i as int]);
            }
            match &hrefs[i] {
                Some(url) => {
                    if !self.is_visited(url.as_str()) {
                        let ghost q = strings_view(self.trips_queue@);
                        self.trips_queue.push_back(url.clone());
                        proof {
                            assert(strings_view(self.trips_queue@) == q.push(url@));
                            assert(start.queue + new_links(all.take(i as int), start.visited).push(url@)
                                == (start.queue + new_links(all.take(i as int), start.visited)).push(url@));
                        }
                    }
                },
                None => {},
            }
            i = i + 1;
        }
        assert(all.take(i as int) == all);
    }

    /// Collects what a page holds: the lines its secret flags print, and its
    /// links, which are queued.  The first part of the result is the lines to
    /// print, the second whether both searches could be made.
    pub fn collect_links(&mut self, doc: &HtmlPage) -> (r: (Vec<String>, Result<(), CrawlError>))
        ensures
            match selected_texts(doc@, ".secret_flag"@) {
                None => r.0@.len() == 0 && r.1 == Err::<(), CrawlError>(CrawlError::InvalidFlagSelector)
                    && final(self)@ == old(self)@,
                Some(texts) => strings_view(r.0@) == flag_lines_spec(texts) && match selected_attrs(
                    doc@,
                    "a"@,
                    "href"@,
                ) {
                    None => r.1 == Err::<(), CrawlError>(CrawlError::InvalidLinkSelector) && final(self)@ == old(self)@,
                    Some(hrefs) => r.1 == Ok::<(), CrawlError>(()) && final(self)@ == (CrawlerView {
                        queue: old(self)@.queue + new_links(hrefs, old(self)@.visited),
                        ..old(self)@
                    }),
                },
            },
    {
        let texts = match select_texts(doc.source(), ".secret_flag") {
            Some(texts) => texts,
            None => {
                return (Vec::new(), Err(CrawlError::InvalidFlagSelector));
            },
        };
        let lines = flag_lines(&texts);
        match select_attrs(doc.source(), "a", "href") {
            Some(hrefs) => {
                self.enqueue_links(&hrefs);
                (lines, Ok(()))
            },
            None => (lines, Err(CrawlError::InvalidLinkSelector)),
        }
    }

    /// Starts a scan at `initial_path`: queues it for a visit.
    pub fn scan(&mut self, initial_path: &str)
        ensures
            final(self)@ == after_op(old(self)@, CrawlOp::Scan(initial_path@)),
            final(self)@ == (CrawlerView { queue: old(self)@.queue.push(initial_path@), ..old(self)@ }),
    {
        let ghost q = strings_view(self.trips_queue@);
        self.trips_queue.push_back(initial_path.to_owned());
        assert(strings_view(self.trips_queue@) == q.push(initial_path@));
    }

    /// Takes the next queued path, if any.
    pub fn next_trip(&mut self) -> (r: Option<String>)
        ensures
            final(self)@ == after_op(old(self)@, CrawlOp::NextTrip),
            match r {
                Some(p) => old(self)@.queue.len() > 0 && p@ == old(self)@.queue[0] && final(self)@ == (
                CrawlerView { queue: old(self)@.queue.drop_first(), ..old(self)@ }),
                None => old(self)@.queue.len() == 0 && final(self)@ == old(self)@,
            },
    {
        let ghost q = self.trips_queue@;
        let r = self.trips_queue.pop_front();
        proof {
            if r is Some {
                assert(strings_view(self.trips_queue@) == strings_view(q).drop_first());
            } else {
                assert(strings_view(q).len() == 0);
            }
        }
        r
    }
}

} // verus!
