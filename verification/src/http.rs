//! HTTP/1.1 requests and responses: a builder that serialises a request, and
//! the response type with the questions the crawler asks of it.

pub mod parse;

use crate::headers::{
    entries_insert, entries_insert_absent, entries_lookup, entries_lookup_ignore_case,
    first_index_of, header_entries, lemma_first_index_ignore_case,
    headers_get, headers_insert, headers_new, headers_pairs, lemma_first_index_of,
    lemma_insert_other_key, lemma_insert_read_back,
};
use crate::html::HtmlPage;
use crate::text::{
    all_ascii, ascii_lowercase, chars_of, decimal_string, decimal_text, eq_ignore_ascii_case,
    eq_ignore_ascii_case_exec, lemma_decimal_round_trip, parse_unsigned, parse_unsigned_exec,
    push_str, str_eq, utf8_len_exec,
};
use indexmap::IndexMap;
use vstd::prelude::*;

verus! {

broadcast use vstd::string::group_string_axioms;

/// Ordered HTTP headers: each name at most once, in first-insertion order.
pub type Headers = IndexMap<String, String>;

/// The name under a `str::to_lowercase` call: the Unicode lower-case mapping of a string.
pub uninterp spec fn unicode_lowercase(s: Seq<char>) -> Seq<char>;

/// `str::to_lowercase`: the Unicode lower-case mapping of `s`.  On ASCII text
/// it maps exactly the letters `A`..=`Z` to `a`..=`z`.
#[verifier::external_body]
fn to_lowercase(s: &str) -> (r: String)
    ensures
        r@ == unicode_lowercase(s@),
        all_ascii(s@) ==> r@ == ascii_lowercase(s@),
{
    s.to_lowercase()
}

/// The value of the first header whose name equals `key` up to ASCII case.
fn header_ignore_case(h: &Headers, key: &str) -> (r: Option<String>)
    ensures
        opt_view(r) == entries_lookup_ignore_case(header_entries(*h), key@),
{
    let pairs = headers_pairs(h);
    let ghost entries = header_entries(*h);
    let key_chars = chars_of(key);
    let mut i: usize = 0;
    while i < pairs.len()
        invariant
            i <= pairs@.len(),
            pairs@.len() == entries.len(),
            entries == header_entries(*h),
            key_chars@ == key@,
            forall|j: int|
                0 <= j < pairs@.len() ==> pairs@[j].0@ == entries[j].0 && pairs@[j].1@ == entries[j].1,
            forall|j: int| 0 <= j < i ==> !eq_ignore_ascii_case(#[trigger] entries[j].0, key@),
        decreases pairs.len() - i,
    {
        let name = chars_of(pairs[i].0.as_str());
        if eq_ignore_ascii_case_exec(name.as_slice(), key_chars.as_slice()) {
            proof {
                assert(name@ == entries[i as int].0);
                lemma_first_index_ignore_case(entries, key@, i as int);
            }
            let v = pairs[i].1.clone();
            assert(v@ == entries[i as int].1);
            return Some(v);
        }
        i = i + 1;
    }
    proof {
        lemma_first_index_ignore_case(entries, key@, i as int);
    }
    None
}

/// Whether `found` is a value equal to `v` up to ASCII case.
pub open spec fn value_is(found: Option<Seq<char>>, v: Seq<char>) -> bool {
    found matches Some(x) && eq_ignore_ascii_case(x, v)
}

/// Whether the header `k`, or its lower-case spelling, holds `v` up to ASCII case.
pub open spec fn header_has_spec(entries: Seq<(Seq<char>, Seq<char>)>, k: Seq<char>, v: Seq<char>) -> bool {
    value_is(entries_lookup(entries, k), v) || value_is(entries_lookup(entries, lowercase_name(k)), v)
}

/// The lower-case spelling of a header name: on ASCII names, `A`..=`Z` become
/// `a`..=`z`; other names take the Unicode lower-case mapping.
pub open spec fn lowercase_name(k: Seq<char>) -> Seq<char> {
    if all_ascii(k) {
        ascii_lowercase(k)
    } else {
        unicode_lowercase(k)
    }
}

fn value_is_exec(found: Option<&String>, v: &str) -> (b: bool)
    ensures
        b == value_is(
            match found {
                Some(x) => Some(x@),
                None => None,
            },
            v@,
        ),
{
    match found {
        Some(x) => {
            let xs = chars_of(x.as_str());
            let vs = chars_of(v);
            eq_ignore_ascii_case_exec(xs.as_slice(), vs.as_slice())
        },
        None => false,
    }
}

/// Whether header `k` (spelt as given, or in lower case) holds the value `v`,
/// comparing values without regard to ASCII case.
pub fn header_has(h: &Headers, k: &str, v: &str) -> (b: bool)
    ensures
        b == header_has_spec(header_entries(*h), k@, v@),
{
    let lowercase_key = to_lowercase(k);
    let first = value_is_exec(headers_get(h, k), v);
    let second = value_is_exec(headers_get(h, lowercase_key.as_str()), v);
    first || second
}

/// The request methods the crawler uses.
#[derive(Debug, Clone, Copy, PartialEq, Eq, Structural)]
pub enum Method {
    Get,
    Post,
}

/// The method as it stands in a request line, in upper case.
pub open spec fn method_name(m: Method) -> Seq<char> {
    match m {
        Method::Get => "GET"@,
        Method::Post => "POST"@,
    }
}

/// The method a name stands for, or the message that refuses the name.
pub open spec fn method_from_name(s: Seq<char>) -> Result<Method, Seq<char>> {
    if s == "GET"@ {
        Ok(Method::Get)
    } else if s == "POST"@ {
        Ok(Method::Post)
    } else {
        Err("Failed to parse string '"@ + s + "' for enum Method"@)
    }
}

/// Reading back a method's name gives the method again.
pub proof fn lemma_method_name_round_trip(m: Method)
    ensures
        method_from_name(method_name(m)) == Ok::<Method, Seq<char>>(m),
{
    reveal_strlit("GET");
    reveal_strlit("POST");
    if m == Method::Post {
        assert("POST"@ != "GET"@) by {
            assert("POST"@.len() != "GET"@.len());
        }
    }
}

impl Method {
    /// The method whose upper-case name is `s`.
    pub fn try_from(s: &str) -> (r: Result<Method, String>)
        ensures
            match method_from_name(s@) {
                Ok(m) => r == Ok::<Method, String>(m),
                Err(msg) => r matches Err(e) && e@ == msg,
            },
    {
        if str_eq(s, "GET") {
            Ok(Method::Get)
        } else if str_eq(s, "POST") {
            Ok(Method::Post)
        } else {
            let mut msg = "Failed to parse string '".to_owned();
            push_str(&mut msg, s);
            push_str(&mut msg, "' for enum Method");
            Err(msg)
        }
    }

    /// The method's name in upper case.
    pub fn to_string(&self) -> (s: String)
        ensures
            s@ == method_name(*self),
    {
        match self {
            Method::Get => "GET".to_owned(),
            Method::Post => "POST".to_owned(),
        }
    }
}

/// A request under construction.
#[derive(Debug)]
pub struct RequestBuilder {
    method: Method,
    path: String,
    headers: Headers,
    form_items: String,
}

/// What a request builder holds.
pub struct RequestView {
    pub method: Method,
    pub path: Seq<char>,
    pub headers: Seq<(Seq<char>, Seq<char>)>,
    pub form_items: Seq<char>,
}

impl View for RequestBuilder {
    type V = RequestView;

    closed spec fn view(&self) -> RequestView {
        RequestView {
            method: self.method,
            path: self.path@,
            headers: header_entries(self.headers),
            form_items: self.form_items@,
        }
    }
}

/// Number of bytes of the UTF-8 encoding of `s`.
pub open spec fn utf8_len(s: Seq<char>) -> nat {
    vstd::utf8::encode_utf8(s).len()
}

/// The request after `header(key, value)`.
pub open spec fn with_header(r: RequestView, key: Seq<char>, value: Seq<char>) -> RequestView {
    RequestView { headers: entries_insert(r.headers, key, value), ..r }
}

/// The form body after appending `name=value`, separated by `&` from earlier items.
pub open spec fn form_body_with(form: Seq<char>, name: Seq<char>, value: Seq<char>) -> Seq<char> {
    form + (if form.len() > 0 { "&"@ } else { Seq::<char>::empty() }) + name + "="@ + value
}

/// The request after `form_item(name, value)`: the form body grows by one
/// item, a form content type is set unless one is already there, and the
/// content length is the byte length of the new body.
pub open spec fn with_form_item(r: RequestView, name: Seq<char>, value: Seq<char>) -> RequestView {
    let body = form_body_with(r.form_items, name, value);
    let typed = entries_insert_absent(r.headers, "Content-Type"@, "application/x-www-form-urlencoded"@);
    RequestView {
        headers: entries_insert(typed, "Content-Length"@, decimal_text(utf8_len(body))),
        form_items: body,
        ..r
    }
}

/// The header block: one `name: value` line per header, in order.
pub open spec fn headers_text(entries: Seq<(Seq<char>, Seq<char>)>) -> Seq<char>
    decreases entries.len(),
{
    if entries.len() == 0 {
        Seq::empty()
    } else {
        headers_text(entries.drop_last()) + entries.last().0 + ": "@ + entries.last().1 + "\r\n"@
    }
}

/// The request line and the header block, up to and including the empty line.
pub open spec fn request_head(r: RequestView) -> Seq<char> {
    method_name(r.method) + " "@ + r.path + " HTTP/1.1\r\n"@ + headers_text(r.headers) + "\r\n"@
}

/// The serialised request: its head followed by the form body.
pub open spec fn request_text(r: RequestView) -> Seq<char> {
    request_head(r) + r.form_items
}

/// Reading back a header: after `header(key, value)` the request's headers
/// hold `value` under `key`, and every other header as before.
pub proof fn lemma_header_read_back(r: RequestView, key: Seq<char>, value: Seq<char>, other: Seq<char>)
    ensures
        entries_lookup(with_header(r, key, value).headers, key) == Some(value),
        other != key ==> entries_lookup(with_header(r, key, value).headers, other) == entries_lookup(r.headers, other),
{
    lemma_insert_read_back(r.headers, key, value);
    if other != key {
        lemma_insert_other_key(r.headers, key, value, other);
    }
}

/// After `form_item`, the request announces exactly the body it sends: its
/// `Content-Length` is the byte length of the form body, which is what follows
/// the head of the serialised request; and it has a content type, the one it
/// had before if any, else the form type.
pub proof fn lemma_form_length_announced(r: RequestView, name: Seq<char>, value: Seq<char>)
    ensures
        ({
            let f = with_form_item(r, name, value);
            &&& entries_lookup(f.headers, "Content-Length"@) == Some(decimal_text(utf8_len(f.form_items)))
            &&& request_text(f) == request_head(f) + f.form_items
            &&& entries_lookup(f.headers, "Content-Type"@) == match entries_lookup(r.headers, "Content-Type"@) {
                Some(t) => Some(t),
                None => Some("application/x-www-form-urlencoded"@),
            }
        }),
{
    let f = with_form_item(r, name, value);
    let typed = entries_insert_absent(r.headers, "Content-Type"@, "application/x-www-form-urlencoded"@);
    lemma_insert_read_back(typed, "Content-Length"@, decimal_text(utf8_len(f.form_items)));
    reveal_strlit("Content-Length");
    reveal_strlit("Content-Type");
    assert("Content-Length"@[8] != "Content-Type"@[8]);
    lemma_insert_other_key(typed, "Content-Length"@, decimal_text(utf8_len(f.form_items)), "Content-Type"@);
    lemma_first_index_of(r.headers, "Content-Type"@);
    if first_index_of(r.headers, "Content-Type"@) is None {
        lemma_insert_read_back(r.headers, "Content-Type"@, "application/x-www-form-urlencoded"@);
    }
}

impl RequestBuilder {
    /// A request with no headers and an empty form.
    pub fn new(method: Method, path: String) -> (r: Self)
        ensures
            r@ == (RequestView {
                method,
                path: path@,
                headers: Seq::empty(),
                form_items: Seq::empty(),
            }),
    {
        RequestBuilder { method, path, headers: headers_new(), form_items: String::new() }
    }

    /// Adds a header to the request.
    pub fn header(self, key: &str, value: &str) -> (r: Self)
        ensures
            r@ == with_header(self@, key@, value@),
    {
        let mut s = self;
        headers_insert(&mut s.headers, key.to_owned(), value.to_owned());
        s
    }

    /// Adds an item to a form for a POST request.
    pub fn form_item(self, name: &str, value: &str) -> (r: Self)
        ensures
            r@ == with_form_item(self@, name@, value@),
    {
        let mut s = self;
        proof {
            lemma_first_index_of(header_entries(s.headers), "Content-Type"@);
        }
        if headers_get(&s.headers, "Content-Type").is_none() {
            headers_insert(
                &mut s.headers,
                "Content-Type".to_owned(),
                "application/x-www-form-urlencoded".to_owned(),
            );
        }
        if !s.form_items.as_str().is_empty() {
            push_str(&mut s.form_items, "&");
        }
        push_str(&mut s.form_items, name);
        push_str(&mut s.form_items, "=");
        push_str(&mut s.form_items, value);
        let len = utf8_len_exec(s.form_items.as_str());
        headers_insert(&mut s.headers, "Content-Length".to_owned(), decimal_string(len));
        assert(s.form_items@ == form_body_with(self@.form_items, name@, value@));
        s
    }

    /// The request as it goes on the wire.
    pub fn to_string(&self) -> (s: String)
        ensures
            s@ == request_text(self@),
    {
        let mut out = self.method.to_string();
        push_str(&mut out, " ");
        push_str(&mut out, self.path.as_str());
        push_str(&mut out, " HTTP/1.1\r\n");
        let pairs = headers_pairs(&self.headers);
        let ghost entries = header_entries(self.headers);
        let ghost start = out@;
        let mut i: usize = 0;
        assert(entries.take(0) == Seq::<(Seq<char>, Seq<char>)>::empty());
        while i < pairs.len()
            invariant
                i <= pairs@.len(),
                pairs@.len() == entries.len(),
                forall|j: int|
                    0 <= j < pairs@.len() ==> pairs@[j].0@ == entries[j].0 && pairs@[j].1@ == entries[j].1,
                out@ == start + headers_text(entries.take(i as int)),
            decreases pairs.len() - i,
        {
            push_str(&mut out, pairs[i].0.as_str());
            push_str(&mut out, ": ");
            push_str(&mut out, pairs[i].1.as_str());
            push_str(&mut out, "\r\n");
            proof {
                assert(entries.take(i + 1).drop_last() == entries.take(i as int));
                assert(entries.take(i + 1).last() == entries[i as int]);
            }
            i = i + 1;
        }
        assert(entries.take(i as int) == entries);
        push_str(&mut out, "\r\n");
        if !self.form_items.as_str().is_empty() {
            push_str(&mut out, self.form_items.as_str());
        }
        out
    }
}

/// A parsed HTTP response.
#[derive(Debug, Default, PartialEq, Eq)]
pub struct Response {
    pub code: u32,
    pub message: String,
    pub headers: Headers,
    /// The cookies set, as (name, value) pairs in the order their names first
    /// appeared; a later cookie of the same name replaces the value.  (A
    /// `HashMap<String, String>` would leave nothing provable here: vstd gives
    /// `String` keys no key model.)
    pub set_cookies: Vec<(String, String)>,
    pub body: Option<String>,
}

/// What a response holds.
#[verifier::ext_equal]
pub struct ResponseView {
    pub code: u32,
    pub message: Seq<char>,
    pub headers: Seq<(Seq<char>, Seq<char>)>,
    pub set_cookies: Seq<(Seq<char>, Seq<char>)>,
    pub body: Option<Seq<char>>,
}

/// The pairs of a vector of string pairs, as character sequences.
pub open spec fn pairs_view(v: Seq<(String, String)>) -> Seq<(Seq<char>, Seq<char>)> {
    v.map_values(|p: (String, String)| (p.0@, p.1@))
}

/// An optional string, as an optional character sequence.
pub open spec fn opt_view(o: Option<String>) -> Option<Seq<char>> {
    match o {
        Some(s) => Some(s@),
        None => None,
    }
}

impl View for Response {
    type V = ResponseView;

    open spec fn view(&self) -> ResponseView {
        ResponseView {
            code: self.code,
            message: self.message@,
            headers: header_entries(self.headers),
            set_cookies: pairs_view(self.set_cookies@),
            body: opt_view(self.body),
        }
    }
}

/// Why a response could not be used.
#[derive(Debug, Clone, Copy, PartialEq, Eq, Structural)]
pub enum HttpError {
    /// The text is not an HTTP/1.1 response this parser accepts.
    MalformedResponse,
    /// The response carries no body.
    MissingBody,
}

/// The value of the `content-length` header, if it is present and a valid `usize` numeral.
pub open spec fn content_length_spec(r: ResponseView) -> Option<nat> {
    match entries_lookup(r.headers, "content-length"@) {
        Some(v) => parse_unsigned(v, 10, usize::MAX as nat),
        None => None,
    }
}

/// The length of body still to be read after the first read of a response.
pub open spec fn pending_body_length_spec(r: ResponseView) -> Option<usize> {
    if r.code == 503 {
        None
    } else {
        match announced_length(r) {
            Some(len) => if len > received_bytes(r) {
                Some((len - received_bytes(r)) as usize)
            } else {
                None
            },
            None => None,
        }
    }
}

/// The header value that announces the body length: that of the header
/// spelt `content-length` when there is one, else that of the first header
/// whose name is `content-length` in some other letter case.
pub open spec fn length_header(r: ResponseView) -> Option<Seq<char>> {
    match entries_lookup(r.headers, "content-length"@) {
        Some(v) => Some(v),
        None => entries_lookup_ignore_case(r.headers, "content-length"@),
    }
}

/// The body length a response announces: the value of its length header
/// (see `length_header`), when it is a valid numeral.
pub open spec fn announced_length(r: ResponseView) -> Option<nat> {
    match length_header(r) {
        Some(v) => parse_unsigned(v, 10, usize::MAX as nat),
        None => None,
    }
}

/// The header spelt `content-length` decides the announced length whenever
/// it is present, whatever other spellings of the name the response holds.
pub proof fn lemma_exact_length_header_decides(r: ResponseView, v: Seq<char>)
    requires
        entries_lookup(r.headers, "content-length"@) == Some(v),
    ensures
        announced_length(r) == parse_unsigned(v, 10, usize::MAX as nat),
{
}

/// Every status but 503 reads the rest of an announced body: when the
/// `content-length` header announces `len` bytes and fewer have arrived, the
/// pending length is what is missing; a 503 reads nothing more.
pub proof fn lemma_pending_is_what_is_missing(r: ResponseView, v: Seq<char>, len: nat)
    requires
        entries_lookup(r.headers, "content-length"@) == Some(v) || (entries_lookup(r.headers, "content-length"@) is None
            && entries_lookup_ignore_case(r.headers, "content-length"@) == Some(v)),
        parse_unsigned(v, 10, usize::MAX as nat) == Some(len),
        match r.body {
            Some(b) => vstd::utf8::encode_utf8(b).len() < len,
            None => 0 < len,
        },
    ensures
        r.code != 503 ==> pending_body_length_spec(r) == Some(
            (len - match r.body {
                Some(b) => vstd::utf8::encode_utf8(b).len(),
                None => 0,
            }) as usize,
        ),
        r.code == 503 ==> pending_body_length_spec(r) is None,
{
}

/// How many bytes of body a response holds.
pub open spec fn received_bytes(r: ResponseView) -> nat {
    match r.body {
        Some(b) => utf8_len(b),
        None => 0,
    }
}

proof fn lemma_utf8_len_concat(a: Seq<char>, b: Seq<char>)
    ensures
        utf8_len(a + b) == utf8_len(a) + utf8_len(b),
    decreases a.len(),
{
    if a.len() > 0 {
        lemma_utf8_len_concat(a.drop_first(), b);
        assert((a + b).drop_first() == a.drop_first() + b);
        assert((a + b)[0] == a[0]);
    } else {
        assert(a + b == b);
    }
}

/// Reading the pending bytes completes the body: once text of exactly the
/// pending length is added, the response holds the announced number of bytes
/// and nothing more is pending.
pub proof fn lemma_body_completed(r: ResponseView, more: Seq<char>)
    requires
        pending_body_length_spec(r) matches Some(m) && utf8_len(more) == m,
    ensures
        ({
            let full = ResponseView {
                body: Some(
                    match r.body {
                        Some(b) => b,
                        None => Seq::empty(),
                    } + more,
                ),
                ..r
            };
            &&& announced_length(full) == Some(received_bytes(full))
            &&& pending_body_length_spec(full) is None
        }),
{
    let old_body = match r.body {
        Some(b) => b,
        None => Seq::<char>::empty(),
    };
    lemma_utf8_len_concat(old_body, more);
    assert(utf8_len(Seq::<char>::empty()) == 0);
}

/// What `form_item` announces, `content_length` reads back: a response whose
/// `content-length` header is the decimal numeral of `n` has content length `n`.
pub proof fn lemma_content_length_read_back(r: ResponseView, n: usize)
    requires
        entries_lookup(r.headers, "content-length"@) == Some(decimal_text(n as nat)),
    ensures
        content_length_spec(r) == Some(n as nat),
{
    lemma_decimal_round_trip(n as nat, usize::MAX as nat);
}

/// The `Cookie` header value for a list of cookies: `name=value` pairs joined by `; `.
pub open spec fn cookie_header(pairs: Seq<(Seq<char>, Seq<char>)>) -> Seq<char>
    decreases pairs.len(),
{
    if pairs.len() == 0 {
        Seq::empty()
    } else {
        let init = cookie_header(pairs.drop_last());
        let item = pairs.last().0 + "="@ + pairs.last().1;
        if init.len() == 0 {
            item
        } else {
            init + "; "@ + item
        }
    }
}

impl Response {
    /// Parses a response from its text (see `parse::spec_http_response`).
    pub fn try_from(value: &str) -> (r: Result<Response, HttpError>)
        ensures
            match parse::spec_http_response(value@) {
                Some((_, resp)) => r matches Ok(response) && response@ == resp,
                None => r == Err::<Response, HttpError>(HttpError::MalformedResponse),
            },
    {
        match parse::http_response(value) {
            Ok((_, response)) => Ok(response),
            Err(e) => Err(e),
        }
    }

    /// How many more bytes of body to read until the response is full: what
    /// the `content-length` header announces (spelt so, or else under another
    /// case of the name) less the bytes of body already held.  Nothing, when the status is 503, when
    /// no valid length is announced, or when the body is already complete.
    pub fn pending_body_length(&self) -> (r: Option<usize>)
        ensures
            r == pending_body_length_spec(self@),
    {
        if self.code == 503 {
            return None;
        }
        let found = match headers_get(&self.headers, "content-length") {
            Some(v) => Some(v.clone()),
            None => header_ignore_case(&self.headers, "content-length"),
        };
        assert(opt_view(found) == length_header(self@));
        let announced = match found {
            Some(v) => {
                let cs = chars_of(v.as_str());
                proof {
                    assert(cs@.subrange(0, cs@.len() as int) == cs@);
                }
                parse_unsigned_exec(cs.as_slice(), 0, cs.len(), 10, usize::MAX)
            },
            None => None,
        };
        let received = match &self.body {
            Some(b) => utf8_len_exec(b.as_str()),
            None => 0,
        };
        match announced {
            Some(len) => if len > received {
                Some(len - received)
            } else {
                None
            },
            None => None,
        }
    }

    /// Appends body text that arrived after the first read.
    pub fn add_body(&mut self, more: &str)
        ensures
            final(self)@ == (ResponseView {
                body: Some(
                    match old(self)@.body {
                        Some(b) => b,
                        None => Seq::empty(),
                    } + more@,
                ),
                ..old(self)@
            }),
    {
        let mut body = match self.body.take() {
            Some(b) => b,
            None => String::new(),
        };
        push_str(&mut body, more);
        self.body = Some(body);
    }

    /// The value of the `content-length` header, when it is a valid numeral.
    pub fn content_length(&self) -> (r: Option<usize>)
        ensures
            match r {
                Some(n) => content_length_spec(self@) == Some(n as nat),
                None => content_length_spec(self@) is None,
            },
    {
        match headers_get(&self.headers, "content-length") {
            Some(v) => {
                let cs = chars_of(v.as_str());
                proof {
                    assert(cs@.subrange(0, cs@.len() as int) == cs@);
                }
                parse_unsigned_exec(cs.as_slice(), 0, cs.len(), 10, usize::MAX)
            },
            None => None,
        }
    }

    /// The body as an HTML page.
    pub fn html_body(&self) -> (r: Result<HtmlPage, HttpError>)
        ensures
            match self@.body {
                Some(b) => r matches Ok(page) && page@ == b,
                None => r == Err::<HtmlPage, HttpError>(HttpError::MissingBody),
            },
    {
        match &self.body {
            Some(body) => Ok(HtmlPage::new(body.clone())),
            None => Err(HttpError::MissingBody),
        }
    }

    /// The cookies the server set, as the value of a `Cookie` request header.
    pub fn cookies(&self) -> (s: String)
        ensures
            s@ == cookie_header(self@.set_cookies),
    {
        let mut s = String::new();
        let ghost pairs = self@.set_cookies;
        let mut i: usize = 0;
        while i < self.set_cookies.len()
            invariant
                i <= self.set_cookies@.len(),
                pairs == pairs_view(self.set_cookies@),
                s@ == cookie_header(pairs.take(i as int)),
            decreases self.set_cookies.len() - i,
        {
            let ghost before = s@;
            let is_first = s.as_str().is_empty();
            if !is_first {
                push_str(&mut s, "; ");
            }
            push_str(&mut s, self.set_cookies[i].0.as_str());
            push_str(&mut s, "=");
            push_str(&mut s, self.set_cookies[i].1.as_str());
            proof {
                assert(pairs.take(i + 1).drop_last() == pairs.take(i as int));
                assert(pairs.take(i + 1).last() == pairs[i as int]);
            }
            i = i + 1;
        }
        assert(pairs.take(i as int) == pairs);
        s
    }

    /// Whether the server asks to keep the connection open.
    pub fn should_keep_alive(&self) -> (b: bool)
        ensures
            b == value_is(entries_lookup(self@.headers, "connection"@), "keep-alive"@),
    {
        value_is_exec(headers_get(&self.headers, "connection"), "keep-alive")
    }

    /// Whether the body uses chunked transfer encoding.
    pub fn is_chunked(&self) -> (b: bool)
        ensures
            b == header_has_spec(self@.headers, "Transfer-Encoding"@, "chunked"@),
    {
        header_has(&self.headers, "Transfer-Encoding", "chunked")
    }
}

} // verus!
