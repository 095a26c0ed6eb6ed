# http_crawler

A small web crawler for a login-protected site, written as a Verus-verified
library (`src/`) and a thin asynchronous program around it (`app/`).

- `src/text.rs` — characters of strings, ASCII case folding, trailing
  whitespace, decimal and hexadecimal numerals, substring search.
- `src/headers.rs` — ordered header maps (`indexmap::IndexMap`) and their
  model as a sequence of (name, value) pairs.
- `src/http.rs` — the request builder and its serialisation, the response
  type and the questions asked of it.
- `src/http/parse.rs` — the HTTP/1.1 response parser (plain and chunked
  bodies, footers, `Set-Cookie`), specified over the characters of the input.
- `src/html.rs` — HTML pages, searched with `scraper`.
- `src/session.rs` — the login requests and the form token of the login page.
- `src/crawler.rs` — which pages to fetch, what to do with each response,
  which links to queue.
- `app/main.rs` — argument parsing, TCP/TLS connections, sending and reading
  (until the announced body length has arrived), the crawl loop over the
  queued pages,
  waiting and printing.
