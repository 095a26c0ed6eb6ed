//! Parsing of HTTP/1.1 responses.
//!
//! A response is a status line (`HTTP/1.1 <code> <message>`), header lines
//! (`name: value`), an empty line, and a body.  Lines end in `\n` or `\r\n`.
//! With `Transfer-Encoding: chunked` the body is a sequence of chunks, each a
//! hexadecimal size line followed by that many characters, ended by a chunk of
//! size zero and optionally followed by footer lines that join the headers.
//! `Set-Cookie` headers are not kept as headers: their `name=value` part is
//! collected into the response's cookies.
//!
//! The specifications below work on the characters of the input; positions
//! are indices into it.

use crate::headers::{
    entries_insert, entries_insert_all, header_entries, headers_insert, headers_new, keys_distinct,
    lemma_first_index_of, lemma_insert_all_keeps_keys_distinct, lemma_insert_keeps_keys_distinct,
};
use crate::http::{header_has, header_has_spec, pairs_view, Headers, HttpError, Response, ResponseView};
use crate::text::{
    chars_of, digit_value, eq_ignore_ascii_case, eq_ignore_ascii_case_exec, numeral_value, parse_unsigned,
    parse_unsigned_exec,
    push_chars, string_from, trim_end, trim_end_index, utf8_width, utf8_width_exec,
};
use vstd::utf8::encode_utf8;
use vstd::prelude::*;

verus! {

broadcast use vstd::string::group_string_axioms;

/// The sets of characters at which a scan stops.
#[derive(Clone, Copy, PartialEq, Eq, Structural)]
pub enum StopAt {
    /// `\r` or `\n`.
    LineBreak,
    /// Anything but a space or a tab.
    NonSpace,
    /// Anything but an ASCII digit.
    NonDigit,
    /// `:`, `\r` or `\n`: the end of a header name.
    NameEnd,
    /// `;`, `\r` or `\n`: the end of a chunk size.
    SizeEnd,
    /// `;`.
    Semicolon,
    /// `=`.
    Equals,
}

/// Whether a scan for `stop` stops at `c`.
pub open spec fn stops_at(stop: StopAt, c: char) -> bool {
    match stop {
        StopAt::LineBreak => c == '\r' || c == '\n',
        StopAt::NonSpace => !(c == ' ' || c == '\t'),
        StopAt::NonDigit => !(48 <= (c as u32) && (c as u32) <= 57),
        StopAt::NameEnd => c == ':' || c == '\r' || c == '\n',
        StopAt::SizeEnd => c == ';' || c == '\r' || c == '\n',
        StopAt::Semicolon => c == ';',
        StopAt::Equals => c == '=',
    }
}

/// The first position at or after `p` holding a character at which `stop`
/// stops, or the end of `s` when there is none.
pub open spec fn scan_to(s: Seq<char>, p: int, stop: StopAt) -> int
    decreases s.len() - p,
{
    if 0 <= p < s.len() && !stops_at(stop, s[p]) {
        scan_to(s, p + 1, stop)
    } else {
        p
    }
}

/// Where a line ending (`\n` or `\r\n`) at `p` ends, if there is one.
pub open spec fn line_ending_at(s: Seq<char>, p: int) -> Option<int> {
    if 0 <= p < s.len() && s[p] == '\n' {
        Some(p + 1)
    } else if 0 <= p && p + 1 < s.len() && s[p] == '\r' && s[p + 1] == '\n' {
        Some(p + 2)
    } else {
        None
    }
}

/// Where the text of the line starting at `p` ends: at the next `\n` or
/// `\r\n`, or at the end of the input.  A `\r` not followed by `\n` is an error.
pub open spec fn line_text_end(s: Seq<char>, p: int) -> Option<int> {
    let q = scan_to(s, p, StopAt::LineBreak);
    if 0 <= q < s.len() && s[q] == '\r' && !(q + 1 < s.len() && s[q + 1] == '\n') {
        None
    } else {
        Some(q)
    }
}

/// The outcome of a parser at a position: it succeeds with the position after
/// what it read and a value, it fails, or it needs more input than there is.
pub enum Parsed<T> {
    Done(int, T),
    Error,
    Incomplete,
}

/// The status line: `HTTP/1.1`, spaces, a decimal code that fits in a `u32`,
/// spaces, the message, and a line ending.  Gives the position after the line,
/// the code and the message.
pub open spec fn status_line(s: Seq<char>) -> Option<(int, u32, Seq<char>)> {
    if !(8 <= s.len() && s.take(8) == "HTTP/1.1"@) {
        None
    } else {
        let a = scan_to(s, 8, StopAt::NonSpace);
        let b = scan_to(s, a, StopAt::NonDigit);
        let c = scan_to(s, b, StopAt::NonSpace);
        if a == 8 || b == a || c == b {
            None
        } else {
            match (parse_unsigned(s.subrange(a, b), 10, u32::MAX as nat), line_text_end(s, c)) {
                (Some(code), Some(d)) => match line_ending_at(s, d) {
                    Some(e) => Some((e, code as u32, s.subrange(c, d))),
                    None => None,
                },
                _ => None,
            }
        }
    }
}

/// One header line at `p`: a non-empty name, `:`, optional spaces, the value
/// up to the end of the line, and an optional line ending.  The value loses
/// its trailing whitespace.  A name that runs to the end of the input needs
/// more input.
pub open spec fn header_line(s: Seq<char>, p: int) -> Parsed<(Seq<char>, Seq<char>)> {
    let k = scan_to(s, p, StopAt::NameEnd);
    if k == p {
        Parsed::Error
    } else if k >= s.len() {
        Parsed::Incomplete
    } else if s[k] != ':' {
        Parsed::Error
    } else {
        let v = scan_to(s, k + 1, StopAt::NonSpace);
        match line_text_end(s, v) {
            None => Parsed::Error,
            Some(e) => {
                let next = match line_ending_at(s, e) {
                    Some(n) => n,
                    None => e,
                };
                Parsed::Done(next, (s.subrange(p, k), trim_end(s.subrange(v, e))))
            },
        }
    }
}

/// `pre` followed by what `r` gives, when `r` succeeds.
pub open spec fn prepend<T>(pre: Seq<T>, r: Parsed<Seq<T>>) -> Parsed<Seq<T>> {
    match r {
        Parsed::Done(q, t) => Parsed::Done(q, pre + t),
        Parsed::Error => Parsed::Error,
        Parsed::Incomplete => Parsed::Incomplete,
    }
}

/// Header lines from `p` on, as many as parse: the first line that does not
/// parse ends the list, unless it needs more input, which fails the whole.
pub open spec fn header_lines(s: Seq<char>, p: int) -> Parsed<Seq<(Seq<char>, Seq<char>)>>
    decreases s.len() - p,
{
    match header_line(s, p) {
        Parsed::Error => Parsed::Done(p, Seq::empty()),
        Parsed::Incomplete => Parsed::Incomplete,
        Parsed::Done(q, h) => if p < q <= s.len() {
            prepend(seq![h], header_lines(s, q))
        } else {
            Parsed::Error
        },
    }
}

/// What a `Set-Cookie` value gives: the text left after the cookie (from
/// the first `;` after the `=` on, or nothing), and the cookie: the text
/// before the first `=`, and the text after it up to the first `;`, both
/// without trailing whitespace.  There is nothing when the value holds no `=`.
pub open spec fn set_cookie_header_spec(v: Seq<char>) -> Option<(Seq<char>, (Seq<char>, Seq<char>))> {
    let i = scan_to(v, 0, StopAt::Equals);
    if i >= v.len() {
        None
    } else {
        let j = scan_to(v, i + 1, StopAt::Semicolon);
        Some((v.subrange(j, v.len() as int), (trim_end(v.take(i)), trim_end(v.subrange(i + 1, j)))))
    }
}

/// The cookie a `Set-Cookie` value sets, if any.
pub open spec fn cookie_pair(v: Seq<char>) -> Option<(Seq<char>, Seq<char>)> {
    match set_cookie_header_spec(v) {
        Some((_, pair)) => Some(pair),
        None => None,
    }
}

/// Whether a header name is `Set-Cookie`, up to ASCII case.
pub open spec fn is_set_cookie(name: Seq<char>) -> bool {
    eq_ignore_ascii_case(name, "set-cookie"@)
}

/// The headers and the cookies that a list of header lines gives, taken in
/// order: `Set-Cookie` lines set a cookie (when their value holds one), all
/// other lines set a header.
pub open spec fn split_headers(raw: Seq<(Seq<char>, Seq<char>)>) -> (
    Seq<(Seq<char>, Seq<char>)>,
    Seq<(Seq<char>, Seq<char>)>,
)
    decreases raw.len(),
{
    if raw.len() == 0 {
        (Seq::empty(), Seq::empty())
    } else {
        let (h, c) = split_headers(raw.drop_last());
        let (k, v) = raw.last();
        if is_set_cookie(k) {
            match cookie_pair(v) {
                Some((ck, cv)) => (h, entries_insert(c, ck, cv)),
                None => (h, c),
            }
        } else {
            (entries_insert(h, k, v), c)
        }
    }
}

/// What inserting under `key` leaves of the keys: the keys there were, and `key`.
proof fn lemma_insert_keys(entries: Seq<(Seq<char>, Seq<char>)>, key: Seq<char>, value: Seq<char>)
    ensures
        forall|i: int|
            0 <= i < entries_insert(entries, key, value).len() ==> #[trigger] entries_insert(entries, key, value)[i].0
                == key || exists|j: int| 0 <= j < entries.len() && entries[j].0 == entries_insert(entries, key, value)[i].0,
{
    lemma_first_index_of(entries, key);
    let after = entries_insert(entries, key, value);
    assert forall|i: int| 0 <= i < after.len() implies #[trigger] after[i].0 == key || exists|j: int|
        0 <= j < entries.len() && entries[j].0 == after[i].0 by {
        if after[i].0 != key {
            assert(entries[i].0 == after[i].0);
        }
    }
}

/// The header section's `Set-Cookie` lines become cookies and never headers,
/// and each name occurs at most once among the headers and among the cookies.
pub proof fn lemma_split_headers(raw: Seq<(Seq<char>, Seq<char>)>)
    ensures
        keys_distinct(split_headers(raw).0),
        keys_distinct(split_headers(raw).1),
        forall|i: int| 0 <= i < split_headers(raw).0.len() ==> !is_set_cookie(#[trigger] split_headers(raw).0[i].0),
    decreases raw.len(),
{
    if raw.len() > 0 {
        lemma_split_headers(raw.drop_last());
        let (h, c) = split_headers(raw.drop_last());
        let (k, v) = raw.last();
        if is_set_cookie(k) {
            match cookie_pair(v) {
                Some((ck, cv)) => {
                    lemma_insert_keeps_keys_distinct(c, ck, cv);
                },
                None => {},
            }
        } else {
            lemma_insert_keeps_keys_distinct(h, k, v);
            lemma_insert_keys(h, k, v);
            let after = entries_insert(h, k, v);
            assert forall|i: int| 0 <= i < after.len() implies !is_set_cookie(#[trigger] after[i].0) by {
                if after[i].0 != k {
                    let j = choose|j: int| 0 <= j < h.len() && h[j].0 == after[i].0;
                    assert(!is_set_cookie(h[j].0));
                }
            }
        }
    }
}

/// Each name at most once: the headers and the cookies of a parsed response
/// have no name twice.
pub proof fn lemma_response_keys_distinct(s: Seq<char>)
    ensures
        spec_http_response(s) matches Some((_, r)) ==> keys_distinct(r.headers) && keys_distinct(r.set_cookies),
{
    match status_line(s) {
        Some((p1, code, message)) => match header_lines(s, p1) {
            Parsed::Done(p2, raw) => {
                lemma_split_headers(raw);
                let (headers, cookies) = split_headers(raw);
                match line_ending_at(s, p2) {
                    Some(p3) => match chunks(s, p3) {
                        Parsed::Done(p4, parts) => {
                            if p4 < s.len() {
                                match line_ending_at(s, p4) {
                                    Some(p5) => match header_lines(s, p5) {
                                        Parsed::Done(_, footers) => {
                                            lemma_insert_all_keeps_keys_distinct(headers, footers);
                                        },
                                        _ => {},
                                    },
                                    None => {},
                                }
                            }
                        },
                        _ => {},
                    },
                    None => {},
                }
            },
            _ => {},
        },
        None => {},
    }
}

/// Where data of `n` bytes starting at `p` ends: the position `c` such that
/// the characters `s[p..c]` take exactly `n` bytes in UTF-8.  When the input
/// ends first, more input is needed; when the last of the `n` bytes would fall
/// inside a character, the data is malformed.
pub open spec fn bytes_end(s: Seq<char>, p: int, n: int) -> Parsed<()>
    decreases s.len() - p,
{
    if n <= 0 {
        Parsed::Done(p, ())
    } else if !(0 <= p < s.len()) {
        Parsed::Incomplete
    } else if utf8_width(s[p]) > n {
        Parsed::Error
    } else {
        bytes_end(s, p + 1, n - utf8_width(s[p]))
    }
}

/// Data that `bytes_end` delimits takes exactly the bytes asked for.
pub proof fn lemma_bytes_end(s: Seq<char>, p: int, n: int)
    requires
        0 <= p <= s.len(),
        n >= 0,
    ensures
        bytes_end(s, p, n) matches Parsed::Done(c, _) ==> p <= c <= s.len() && encode_utf8(
            s.subrange(p, c),
        ).len() == n,
    decreases s.len() - p,
{
    if n > 0 && p < s.len() && utf8_width(s[p]) <= n {
        lemma_bytes_end(s, p + 1, n - utf8_width(s[p]));
        if let Parsed::Done(c, _) = bytes_end(s, p, n) {
            assert(s.subrange(p, c).drop_first() == s.subrange(p + 1, c));
            assert(s.subrange(p, c)[0] == s[p]);
        }
    } else if n == 0 {
        assert(s.subrange(p, p).len() == 0);
    }
}

proof fn lemma_scan_to_run(s: Seq<char>, p: int, q: int, stop: StopAt)
    requires
        0 <= p <= q <= s.len(),
        forall|k: int| p <= k < q ==> !stops_at(stop, #[trigger] s[k]),
        q == s.len() || stops_at(stop, s[q]),
    ensures
        scan_to(s, p, stop) == q,
    decreases q - p,
{
    if p < q {
        lemma_scan_to_run(s, p + 1, q, stop);
    }
}

/// `bytes_end` stops exactly at the end of any text: data of `n` bytes is
/// the text whose UTF-8 encoding has `n` bytes, whatever characters (line
/// breaks included) it holds.
pub proof fn lemma_bytes_end_of_text(s: Seq<char>, b: int, c: int)
    requires
        0 <= b <= c <= s.len(),
    ensures
        bytes_end(s, b, encode_utf8(s.subrange(b, c)).len() as int) == Parsed::<()>::Done(c, ()),
    decreases c - b,
{
    if b < c {
        let t = s.subrange(b, c);
        assert(t.drop_first() == s.subrange(b + 1, c));
        assert(t[0] == s[b]);
        assert(encode_utf8(t) == vstd::utf8::encode_scalar(s[b] as u32) + encode_utf8(s.subrange(b + 1, c)));
        lemma_bytes_end_of_text(s, b + 1, c);
    } else {
        assert(s.subrange(b, c).len() == 0);
        assert(encode_utf8(s.subrange(b, c)).len() == 0);
    }
}

/// A hexadecimal digit.
pub open spec fn is_hex_digit(c: char) -> bool {
    digit_value(c, 16) is Some
}

/// A well-formed chunk: a non-empty hexadecimal size `h` (no sign), a line
/// break, data `d` whose UTF-8 encoding has exactly that many bytes, a line
/// break.
pub open spec fn well_formed_chunk(h: Seq<char>, d: Seq<char>) -> bool {
    &&& h.len() > 0
    &&& forall|i: int| 0 <= i < h.len() ==> is_hex_digit(#[trigger] h[i])
    &&& numeral_value(h, 16) == Some(encode_utf8(d).len())
    &&& encode_utf8(d).len() <= usize::MAX
    &&& d.len() > 0
}

/// The text of a chunk.
pub open spec fn chunk_text(h: Seq<char>, d: Seq<char>) -> Seq<char> {
    h + seq!['\n'] + d + seq!['\n']
}

/// A well-formed chunk reads as its data, whatever the data holds (line
/// breaks, `;`, anything), and reading stops right after it.
pub proof fn lemma_chunk_reads_its_data(s: Seq<char>, p: int, h: Seq<char>, d: Seq<char>)
    requires
        well_formed_chunk(h, d),
        0 <= p,
        p + chunk_text(h, d).len() <= s.len(),
        s.subrange(p, p + chunk_text(h, d).len()) == chunk_text(h, d),
    ensures
        chunk(s, p) == Parsed::Done(p + chunk_text(h, d).len(), d),
{
    let ct = chunk_text(h, d);
    let e = p + h.len();
    let b = e + 1;
    let c = b + d.len();
    assert forall|k: int| 0 <= k < ct.len() implies s[p + k] == #[trigger] ct[k] by {
        assert(s.subrange(p, p + ct.len())[k] == s[p + k]);
    }
    assert forall|k: int| p <= k < e implies !stops_at(StopAt::SizeEnd, #[trigger] s[k]) by {
        assert(ct[k - p] == h[k - p]);
        assert(s[k] == h[k - p]);
        assert(is_hex_digit(h[k - p]));
    }
    assert(ct[h.len() as int] == '\n');
    assert(s[e] == '\n');
    lemma_scan_to_run(s, p, e, StopAt::SizeEnd);
    assert(s.subrange(p, e) =~= h) by {
        assert forall|k: int| 0 <= k < h.len() implies s.subrange(p, e)[k] == h[k] by {
            assert(ct[k] == h[k]);
        }
    }
    assert(is_hex_digit(h[0]));
    assert(h[0] != '+');
    let n = encode_utf8(d).len();
    assert(parse_unsigned(s.subrange(p, e), 16, usize::MAX as nat) == Some(n));
    assert(n > 0) by {
        assert(encode_utf8(d) == vstd::utf8::encode_scalar(d[0] as u32) + encode_utf8(d.drop_first()));
    }
    lemma_scan_to_run(s, e, e, StopAt::LineBreak);
    assert(line_text_end(s, e) == Some(e));
    assert(line_ending_at(s, e) == Some(b));
    assert(s.subrange(b, c) =~= d) by {
        assert forall|k: int| 0 <= k < d.len() implies s.subrange(b, c)[k] == d[k] by {
            assert(ct[h.len() + 1 + k] == d[k]);
            assert(s[p + h.len() + 1 + k] == ct[h.len() + 1 + k]);
        }
    }
    lemma_bytes_end_of_text(s, b, c);
    assert(ct[(h.len() + 1 + d.len()) as int] == '\n');
    assert(s[c] == '\n');
    assert(line_ending_at(s, c) == Some(c + 1));
}

/// The text of a list of chunks, first to last.
pub open spec fn chunks_text(hs: Seq<Seq<char>>, ds: Seq<Seq<char>>) -> Seq<char>
    decreases hs.len(),
{
    if hs.len() == 0 {
        Seq::empty()
    } else {
        chunk_text(hs[0], ds[0]) + chunks_text(hs.drop_first(), ds.drop_first())
    }
}

/// Whether every chunk of a list is well formed.
pub open spec fn all_well_formed(hs: Seq<Seq<char>>, ds: Seq<Seq<char>>) -> bool {
    hs.len() == ds.len() && forall|i: int| 0 <= i < hs.len() ==> well_formed_chunk(#[trigger] hs[i], ds[i])
}

proof fn lemma_more_chunks_read(s: Seq<char>, p: int, hs: Seq<Seq<char>>, ds: Seq<Seq<char>>)
    requires
        all_well_formed(hs, ds),
        0 <= p <= s.len(),
        s.subrange(p, s.len() as int) == chunks_text(hs, ds) + seq!['0'],
    ensures
        more_chunks(s, p) == Parsed::Done(s.len() as int, ds.push(Seq::<char>::empty())),
    decreases hs.len(),
{
    if hs.len() == 0 {
        let t = s.subrange(p, s.len() as int);
        assert(t =~= seq!['0']);
        assert(s.len() == p + 1);
        assert(s[p] == t[0]);
        lemma_scan_to_run(s, p, p + 1, StopAt::SizeEnd);
        assert(s.subrange(p, p + 1) =~= seq!['0']);
        assert(seq!['0'].drop_last() =~= Seq::<char>::empty());
        assert(('0' as u32) == 48);
        assert(numeral_value(Seq::<char>::empty(), 16) == Some(0nat));
        assert(seq!['0'].last() == '0');
        assert(digit_value('0', 16) == Some(0nat));
        assert(numeral_value(seq!['0'], 16) == Some(0nat));
        assert(parse_unsigned(s.subrange(p, p + 1), 16, usize::MAX as nat) == Some(0nat));
        assert(chunk(s, p) == Parsed::Done(p + 1, Seq::<char>::empty()));
        lemma_scan_to_run(s, p + 1, p + 1, StopAt::SizeEnd);
        assert(s.subrange(p + 1, p + 1).len() == 0);
        assert(chunk(s, p + 1) == Parsed::<Seq<char>>::Error);
        assert(more_chunks(s, p + 1) == Parsed::Done(p + 1, Seq::<Seq<char>>::empty()));
        assert(seq![Seq::<char>::empty()] + Seq::<Seq<char>>::empty() =~= ds.push(Seq::<char>::empty()));
    } else {
        let ct = chunk_text(hs[0], ds[0]);
        let rest = chunks_text(hs.drop_first(), ds.drop_first());
        let q = p + ct.len();
        assert(well_formed_chunk(hs[0], ds[0]));
        assert(s.subrange(p, s.len() as int) == ct + (rest + seq!['0']));
        assert(s.subrange(p, q) =~= ct) by {
            assert forall|k: int| 0 <= k < ct.len() implies s.subrange(p, q)[k] == ct[k] by {
                assert(s.subrange(p, s.len() as int)[k] == (ct + (rest + seq!['0']))[k]);
            }
        }
        lemma_chunk_reads_its_data(s, p, hs[0], ds[0]);
        assert(s.subrange(q, s.len() as int) =~= rest + seq!['0']) by {
            assert forall|k: int| 0 <= k < s.len() - q implies s.subrange(q, s.len() as int)[k] == (rest + seq!['0'])[k] by {
                assert(s.subrange(p, s.len() as int)[ct.len() + k] == (ct + (rest + seq!['0']))[ct.len() + k]);
            }
        }
        assert forall|i: int| 0 <= i < hs.drop_first().len() implies well_formed_chunk(#[trigger] hs.drop_first()[i], ds.drop_first()[i]) by {
            assert(well_formed_chunk(hs[i + 1], ds[i + 1]));
        }
        lemma_more_chunks_read(s, q, hs.drop_first(), ds.drop_first());
        assert(seq![ds[0]] + ds.drop_first().push(Seq::<char>::empty()) =~= ds.push(Seq::<char>::empty()));
    }
}

/// A chunked body made of well-formed chunks and ended by a chunk of size
/// zero reads as the list of their data (and the empty data of the last
/// chunk), so the body is the data of the chunks, one after the other.
pub proof fn lemma_chunked_body_reads_its_data(hs: Seq<Seq<char>>, ds: Seq<Seq<char>>)
    requires
        all_well_formed(hs, ds),
        hs.len() > 0,
    ensures
        chunks(chunks_text(hs, ds) + seq!['0'], 0) == Parsed::Done(
            (chunks_text(hs, ds).len() + 1) as int,
            ds.push(Seq::<char>::empty()),
        ),
        concat_all(ds.push(Seq::<char>::empty())) == concat_all(ds),
{
    let s = chunks_text(hs, ds) + seq!['0'];
    assert(s.subrange(0, s.len() as int) == s);
    lemma_more_chunks_read(s, 0, hs, ds);
    assert(ds.push(Seq::<char>::empty()).drop_last() == ds);
    assert(concat_all(ds) + Seq::<char>::empty() == concat_all(ds));
}

/// A `Set-Cookie` value `k=v` followed by nothing or by `;...` sets the
/// cookie named `k` to `v` (both without trailing whitespace), whatever `v`
/// holds besides `;` (`=` included), and leaves the rest.
pub proof fn lemma_cookie_value_runs_to_semicolon(k: Seq<char>, v: Seq<char>, rest: Seq<char>)
    requires
        forall|i: int| 0 <= i < k.len() ==> #[trigger] k[i] != '=',
        forall|i: int| 0 <= i < v.len() ==> #[trigger] v[i] != ';',
        rest.len() == 0 || rest[0] == ';',
    ensures
        set_cookie_header_spec(k + seq!['='] + v + rest) == Some((rest, (trim_end(k), trim_end(v)))),
{
    let s = k + seq!['='] + v + rest;
    let i = k.len() as int;
    let j = i + 1 + v.len();
    assert forall|x: int| 0 <= x < i implies !stops_at(StopAt::Equals, #[trigger] s[x]) by {
        assert(s[x] == k[x]);
    }
    assert(s[i] == '=');
    lemma_scan_to_run(s, 0, i, StopAt::Equals);
    assert forall|x: int| i + 1 <= x < j implies !stops_at(StopAt::Semicolon, #[trigger] s[x]) by {
        assert(s[x] == v[x - i - 1]);
    }
    if rest.len() > 0 {
        assert(s[j] == rest[0]);
    }
    lemma_scan_to_run(s, i + 1, j, StopAt::Semicolon);
    assert(s.take(i) =~= k);
    assert(s.subrange(i + 1, j) =~= v);
    assert(s.subrange(j, s.len() as int) =~= rest);
}

/// One chunk at `p`: a hexadecimal size (an optional `+`, then digits, as
/// `usize::from_str_radix` reads them) up to `;` or the end of the line.  A
/// size of zero ends the body and reads nothing more.  Otherwise the rest of
/// the size line, a line ending, data of that many bytes (of the UTF-8
/// encoding, see `bytes_end`), and a line ending follow.
pub open spec fn chunk(s: Seq<char>, p: int) -> Parsed<Seq<char>> {
    let e = scan_to(s, p, StopAt::SizeEnd);
    match parse_unsigned(s.subrange(p, e), 16, usize::MAX as nat) {
        None => Parsed::Error,
        Some(n) => if n == 0 {
            Parsed::Done(e, Seq::empty())
        } else {
            match line_text_end(s, e) {
                None => Parsed::Error,
                Some(a) => match line_ending_at(s, a) {
                    None => Parsed::Error,
                    Some(b) => match bytes_end(s, b, n as int) {
                        Parsed::Incomplete => Parsed::Incomplete,
                        Parsed::Error => Parsed::Error,
                        Parsed::Done(c, _) => match line_ending_at(s, c) {
                            None => Parsed::Error,
                            Some(d) => Parsed::Done(d, s.subrange(b, c)),
                        },
                    },
                },
            }
        },
    }
}

/// A chunk's data takes exactly as many bytes as its size line says.
pub proof fn lemma_chunk_size_in_bytes(s: Seq<char>, p: int)
    requires
        0 <= p <= s.len(),
    ensures
        chunk(s, p) matches Parsed::Done(_, d) ==> parse_unsigned(
            s.subrange(p, scan_to(s, p, StopAt::SizeEnd)),
            16,
            usize::MAX as nat,
        ) == Some(encode_utf8(d).len()),
{
    lemma_scan_to(s, p, StopAt::SizeEnd);
    let e = scan_to(s, p, StopAt::SizeEnd);
    match parse_unsigned(s.subrange(p, e), 16, usize::MAX as nat) {
        Some(n) => {
            if n == 0 {
                assert(encode_utf8(Seq::<char>::empty()).len() == 0);
            } else {
                lemma_scan_to(s, e, StopAt::LineBreak);
                match line_text_end(s, e) {
                    Some(a) => match line_ending_at(s, a) {
                        Some(b) => {
                            lemma_bytes_end(s, b, n as int);
                        },
                        None => {},
                    },
                    None => {},
                }
            }
        },
        None => {},
    }
}

proof fn lemma_scan_to(s: Seq<char>, p: int, stop: StopAt)
    requires
        0 <= p <= s.len(),
    ensures
        p <= scan_to(s, p, stop) <= s.len(),
    decreases s.len() - p,
{
    if p < s.len() && !stops_at(stop, s[p]) {
        lemma_scan_to(s, p + 1, stop);
    }
}

/// Further chunks from `p` on: the first chunk that does not parse ends the
/// list, unless it needs more input, which fails the whole.
pub open spec fn more_chunks(s: Seq<char>, p: int) -> Parsed<Seq<Seq<char>>>
    decreases s.len() - p,
{
    match chunk(s, p) {
        Parsed::Error => Parsed::Done(p, Seq::empty()),
        Parsed::Incomplete => Parsed::Incomplete,
        Parsed::Done(q, c) => if p < q <= s.len() {
            prepend(seq![c], more_chunks(s, q))
        } else {
            Parsed::Error
        },
    }
}

/// One or more chunks from `p` on.
pub open spec fn chunks(s: Seq<char>, p: int) -> Parsed<Seq<Seq<char>>> {
    match chunk(s, p) {
        Parsed::Error => Parsed::Error,
        Parsed::Incomplete => Parsed::Incomplete,
        Parsed::Done(q, c) => prepend(seq![c], more_chunks(s, q)),
    }
}

/// The texts of `parts`, one after the other.
pub open spec fn concat_all(parts: Seq<Seq<char>>) -> Seq<char>
    decreases parts.len(),
{
    if parts.len() == 0 {
        Seq::empty()
    } else {
        concat_all(parts.drop_last()) + parts.last()
    }
}

/// A response; an empty body counts as no body.
pub open spec fn response_of(
    code: u32,
    message: Seq<char>,
    headers: Seq<(Seq<char>, Seq<char>)>,
    cookies: Seq<(Seq<char>, Seq<char>)>,
    body: Seq<char>,
) -> ResponseView {
    ResponseView {
        code,
        message,
        headers,
        set_cookies: cookies,
        body: if body.len() > 0 { Some(body) } else { None },
    }
}

/// What `s` parses to: the position where parsing stopped and the response,
/// or nothing when `s` is not a response this parser accepts.
///
/// After the status line, the header lines and an empty line, the body is the
/// rest of the input, unless the headers say `Transfer-Encoding: chunked`.  A
/// chunked body is the data of its chunks; what follows the chunks, when there
/// is anything, must start with a line ending and then holds footer lines that
/// are added to the headers.  Parsing stops at the start of the body, or after
/// the chunks.
pub open spec fn spec_http_response(s: Seq<char>) -> Option<(int, ResponseView)> {
    match status_line(s) {
        None => None,
        Some((p1, code, message)) => match header_lines(s, p1) {
            Parsed::Done(p2, raw) => match line_ending_at(s, p2) {
                None => None,
                Some(p3) => {
                    let (headers, cookies) = split_headers(raw);
                    if header_has_spec(headers, "Transfer-Encoding"@, "chunked"@) {
                        match chunks(s, p3) {
                            Parsed::Done(p4, parts) => {
                                let body = concat_all(parts);
                                if p4 < s.len() {
                                    match line_ending_at(s, p4) {
                                        None => None,
                                        Some(p5) => match header_lines(s, p5) {
                                            Parsed::Done(_, footers) => Some(
                                                (
                                                    p4,
                                                    response_of(
                                                        code,
                                                        message,
                                                        entries_insert_all(headers, footers),
                                                        cookies,
                                                        body,
                                                    ),
                                                ),
                                            ),
                                            _ => None,
                                        },
                                    }
                                } else {
                                    Some((p4, response_of(code, message, headers, cookies, body)))
                                }
                            },
                            _ => None,
                        }
                    } else {
                        Some((p3, response_of(code, message, headers, cookies, s.subrange(p3, s.len() as int))))
                    }
                },
            },
            _ => None,
        },
    }
}

// ---------------------------------------------------------------------------
// The parser
// ---------------------------------------------------------------------------

/// The outcome of an executable parser, as `Parsed` describes it.
enum Step<T> {
    Done(usize, T),
    Error,
    Incomplete,
}

fn stops_exec(stop: StopAt, c: char) -> (b: bool)
    ensures
        b == stops_at(stop, c),
{
    match stop {
        StopAt::LineBreak => c == '\r' || c == '\n',
        StopAt::NonSpace => !(c == ' ' || c == '\t'),
        StopAt::NonDigit => !(48 <= (c as u32) && (c as u32) <= 57),
        StopAt::NameEnd => c == ':' || c == '\r' || c == '\n',
        StopAt::SizeEnd => c == ';' || c == '\r' || c == '\n',
        StopAt::Semicolon => c == ';',
        StopAt::Equals => c == '=',
    }
}

fn scan_to_exec(cs: &[char], p: usize, stop: StopAt) -> (q: usize)
    requires
        p <= cs@.len(),
    ensures
        q == scan_to(cs@, p as int, stop),
        p <= q <= cs@.len(),
{
    let mut i = p;
    while i < cs.len() && !stops_exec(stop, cs[i])
        invariant
            p <= i <= cs@.len(),
            scan_to(cs@, i as int, stop) == scan_to(cs@, p as int, stop),
        decreases cs.len() - i,
    {
        i = i + 1;
    }
    i
}

fn line_ending_exec(cs: &[char], p: usize) -> (r: Option<usize>)
    requires
        p <= cs@.len(),
    ensures
        match r {
            Some(q) => line_ending_at(cs@, p as int) == Some(q as int) && q <= cs@.len(),
            None => line_ending_at(cs@, p as int) is None,
        },
{
    if p < cs.len() && cs[p] == '\n' {
        Some(p + 1)
    } else if cs.len() > 1 && p < cs.len() - 1 && cs[p] == '\r' && cs[p + 1] == '\n' {
        Some(p + 2)
    } else {
        None
    }
}

fn line_text_end_exec(cs: &[char], p: usize) -> (r: Option<usize>)
    requires
        p <= cs@.len(),
    ensures
        match r {
            Some(q) => line_text_end(cs@, p as int) == Some(q as int) && p <= q <= cs@.len(),
            None => line_text_end(cs@, p as int) is None,
        },
{
    let q = scan_to_exec(cs, p, StopAt::LineBreak);
    if q < cs.len() && cs[q] == '\r' && !(q + 1 < cs.len() && cs[q + 1] == '\n') {
        None
    } else {
        Some(q)
    }
}

fn status_line_exec(cs: &[char]) -> (r: Option<(usize, u32, String)>)
    ensures
        match (r, status_line(cs@)) {
            (Some((e, code, message)), Some((e2, code2, message2))) => e == e2 && code == code2
                && message@ == message2 && e <= cs@.len(),
            (None, None) => true,
            _ => false,
        },
{
    let version = chars_of("HTTP/1.1");
    if cs.len() < 8 || !crate::text::starts_with(cs, version.as_slice()) {
        return None;
    }
    proof {
        reveal_strlit("HTTP/1.1");
        assert(cs@.take(8) == cs@.subrange(0, 8));
    }
    let a = scan_to_exec(cs, 8, StopAt::NonSpace);
    let b = scan_to_exec(cs, a, StopAt::NonDigit);
    let c = scan_to_exec(cs, b, StopAt::NonSpace);
    if a == 8 || b == a || c == b {
        return None;
    }
    let code = parse_unsigned_exec(cs, a, b, 10, 4294967295usize);
    let d = line_text_end_exec(cs, c);
    match (code, d) {
        (Some(code), Some(d)) => match line_ending_exec(cs, d) {
            Some(e) => Some((e, code as u32, string_from(cs, c, d))),
            None => None,
        },
        _ => None,
    }
}

fn header_line_exec(cs: &[char], p: usize) -> (r: Step<(String, String)>)
    requires
        p <= cs@.len(),
    ensures
        match (r, header_line(cs@, p as int)) {
            (Step::Done(q, (k, v)), Parsed::Done(q2, (k2, v2))) => q == q2 && k@ == k2 && v@ == v2
                && q <= cs@.len(),
            (Step::Error, Parsed::Error) => true,
            (Step::Incomplete, Parsed::Incomplete) => true,
            _ => false,
        },
{
    let k = scan_to_exec(cs, p, StopAt::NameEnd);
    if k == p {
        return Step::Error;
    }
    if k >= cs.len() {
        return Step::Incomplete;
    }
    if cs[k] != ':' {
        return Step::Error;
    }
    let v = scan_to_exec(cs, k + 1, StopAt::NonSpace);
    match line_text_end_exec(cs, v) {
        None => Step::Error,
        Some(e) => {
            let next = match line_ending_exec(cs, e) {
                Some(n) => n,
                None => e,
            };
            let trimmed = trim_end_index(cs, v, e);
            Step::Done(next, (string_from(cs, p, k), string_from(cs, v, trimmed)))
        },
    }
}

proof fn lemma_prepend_prepend<T>(a: Seq<T>, b: Seq<T>, r: Parsed<Seq<T>>)
    ensures
        prepend(a, prepend(b, r)) == prepend(a + b, r),
{
    match r {
        Parsed::Done(q, t) => {
            assert(a + (b + t) == (a + b) + t);
        },
        _ => {},
    }
}

fn header_lines_exec(cs: &[char], p: usize) -> (r: Step<Vec<(String, String)>>)
    requires
        p <= cs@.len(),
    ensures
        match (r, header_lines(cs@, p as int)) {
            (Step::Done(q, v), Parsed::Done(q2, t)) => q == q2 && pairs_view(v@) == t && q <= cs@.len(),
            (Step::Error, Parsed::Error) => true,
            (Step::Incomplete, Parsed::Incomplete) => true,
            _ => false,
        },
{
    let mut out: Vec<(String, String)> = Vec::new();
    let mut i = p;
    proof {
        assert(pairs_view(out@) == Seq::<(Seq<char>, Seq<char>)>::empty());
        assert(Seq::<(Seq<char>, Seq<char>)>::empty() + Seq::<(Seq<char>, Seq<char>)>::empty() == Seq::<(Seq<char>, Seq<char>)>::empty());
        match header_lines(cs@, p as int) {
            Parsed::Done(q, t) => {
                assert(Seq::<(Seq<char>, Seq<char>)>::empty() + t == t);
            },
            _ => {},
        }
    }
    loop
        invariant
            p <= i <= cs@.len(),
            header_lines(cs@, p as int) == prepend(pairs_view(out@), header_lines(cs@, i as int)),
        decreases cs.len() - i,
    {
        match header_line_exec(cs, i) {
            Step::Error => {
                assert(pairs_view(out@) + Seq::<(Seq<char>, Seq<char>)>::empty() == pairs_view(out@));
                return Step::Done(i, out);
            },
            Step::Incomplete => {
                return Step::Incomplete;
            },
            Step::Done(q, h) => {
                if !(i < q && q <= cs.len()) {
                    return Step::Error;
                }
                let ghost hv = (h.0@, h.1@);
                let ghost before = pairs_view(out@);
                out.push(h);
                proof {
                    assert(pairs_view(out@) == before + seq![hv]);
                    lemma_prepend_prepend(before, seq![hv], header_lines(cs@, q as int));
                }
                i = q;
            },
        }
    }
}

/// Reads the cookie of a `Set-Cookie` value: gives the text left after it and
/// the cookie's name and value (see `set_cookie_header_spec`).
pub fn set_cookie_header(v: &str) -> (r: Option<(String, (String, String))>)
    ensures
        match (r, set_cookie_header_spec(v@)) {
            (Some((rest, (k, x))), Some((rest2, (k2, x2)))) => rest@ == rest2 && k@ == k2 && x@ == x2,
            (None, None) => true,
            _ => false,
        },
{
    let cs = chars_of(v);
    let i = scan_to_exec(cs.as_slice(), 0, StopAt::Equals);
    if i >= cs.len() {
        return None;
    }
    let j = scan_to_exec(cs.as_slice(), i + 1, StopAt::Semicolon);
    let key_end = trim_end_index(cs.as_slice(), 0, i);
    let value_end = trim_end_index(cs.as_slice(), i + 1, j);
    proof {
        assert(cs@.take(i as int) == cs@.subrange(0, i as int));
    }
    let rest = string_from(cs.as_slice(), j, cs.len());
    Some((rest, (string_from(cs.as_slice(), 0, key_end), string_from(cs.as_slice(), i + 1, value_end))))
}

/// Sets `key` to `value` in a list of pairs: an existing key keeps its place
/// and takes the new value, a new key goes last.
fn pairs_insert(pairs: &mut Vec<(String, String)>, key: String, value: String)
    ensures
        pairs_view(final(pairs)@) == entries_insert(pairs_view(old(pairs)@), key@, value@),
{
    let ghost entries = pairs_view(pairs@);
    let mut i: usize = 0;
    while i < pairs.len()
        invariant
            i <= pairs@.len(),
            entries == pairs_view(pairs@),
            entries == pairs_view(old(pairs)@),
            forall|j: int| 0 <= j < i ==> entries[j].0 != key@,
        decreases pairs.len() - i,
    {
        if pairs[i].0 == key {
            let ghost kv = (key@, value@);
            proof {
                assert(entries[i as int].0 == key@);
                crate::headers::lemma_first_index_of_is(entries, key@, i as int);
            }
            pairs[i] = (key, value);
            proof {
                assert(pairs_view(pairs@) =~= entries.update(i as int, kv));
            }
            return;
        }
        i = i + 1;
    }
    proof {
        lemma_first_index_of(entries, key@);
    }
    let ghost kv = (key@, value@);
    pairs.push((key, value));
    assert(pairs_view(pairs@) == entries.push(kv));
}

fn split_headers_exec(raw: &Vec<(String, String)>) -> (r: (Headers, Vec<(String, String)>))
    ensures
        (header_entries(r.0), pairs_view(r.1@)) == split_headers(pairs_view(raw@)),
{
    let ghost all = pairs_view(raw@);
    let mut headers = headers_new();
    let mut cookies: Vec<(String, String)> = Vec::new();
    let set_cookie = chars_of("set-cookie");
    let mut i: usize = 0;
    assert(all.take(0) == Seq::<(Seq<char>, Seq<char>)>::empty());
    assert(pairs_view(cookies@) == Seq::<(Seq<char>, Seq<char>)>::empty());
    while i < raw.len()
        invariant
            i <= raw@.len(),
            all == pairs_view(raw@),
            set_cookie@ == "set-cookie"@,
            (header_entries(headers), pairs_view(cookies@)) == split_headers(all.take(i as int)),
        decreases raw.len() - i,
    {
        let key = &raw[i].0;
        let value = &raw[i].1;
        proof {
            assert(all.take(i + 1).drop_last() == all.take(i as int));
            assert(all.take(i + 1).last() == (key@, value@));
        }
        let key_chars = chars_of(key.as_str());
        if eq_ignore_ascii_case_exec(key_chars.as_slice(), set_cookie.as_slice()) {
            match set_cookie_header(value.as_str()) {
                Some((_, (ck, cv))) => {
                    pairs_insert(&mut cookies, ck, cv);
                },
                None => {},
            }
        } else {
            headers_insert(&mut headers, key.clone(), value.clone());
        }
        i = i + 1;
    }
    assert(all.take(i as int) == all);
    (headers, cookies)
}

fn bytes_end_exec(cs: &[char], p: usize, n: usize) -> (r: Step<()>)
    requires
        p <= cs@.len(),
    ensures
        match (r, bytes_end(cs@, p as int, n as int)) {
            (Step::Done(c, _), Parsed::Done(c2, _)) => c == c2 && p <= c <= cs@.len(),
            (Step::Error, Parsed::Error) => true,
            (Step::Incomplete, Parsed::Incomplete) => true,
            _ => false,
        },
{
    let mut i = p;
    let mut rem = n;
    loop
        invariant
            p <= i <= cs@.len(),
            bytes_end(cs@, p as int, n as int) == bytes_end(cs@, i as int, rem as int),
        decreases cs.len() - i,
    {
        if rem == 0 {
            return Step::Done(i, ());
        }
        if i >= cs.len() {
            return Step::Incomplete;
        }
        let w = utf8_width_exec(cs[i]);
        if w > rem {
            return Step::Error;
        }
        rem = rem - w;
        i = i + 1;
    }
}

fn chunk_exec(cs: &[char], p: usize) -> (r: Step<(usize, usize)>)
    requires
        p <= cs@.len(),
    ensures
        match (r, chunk(cs@, p as int)) {
            (Step::Done(q, (a, b)), Parsed::Done(q2, d)) => q == q2 && a <= b <= cs@.len() && d
                == cs@.subrange(a as int, b as int) && q <= cs@.len(),
            (Step::Error, Parsed::Error) => true,
            (Step::Incomplete, Parsed::Incomplete) => true,
            _ => false,
        },
{
    let e = scan_to_exec(cs, p, StopAt::SizeEnd);
    match parse_unsigned_exec(cs, p, e, 16, usize::MAX) {
        None => Step::Error,
        Some(n) => {
            if n == 0 {
                proof {
                    assert(cs@.subrange(e as int, e as int) == Seq::<char>::empty());
                }
                return Step::Done(e, (e, e));
            }
            match line_text_end_exec(cs, e) {
                None => Step::Error,
                Some(a) => match line_ending_exec(cs, a) {
                    None => Step::Error,
                    Some(b) => match bytes_end_exec(cs, b, n) {
                        Step::Incomplete => Step::Incomplete,
                        Step::Error => Step::Error,
                        Step::Done(c, _) => match line_ending_exec(cs, c) {
                            None => Step::Error,
                            Some(d) => Step::Done(d, (b, c)),
                        },
                    },
                },
            }
        },
    }
}

proof fn lemma_concat_all_push(parts: Seq<Seq<char>>, c: Seq<char>)
    ensures
        concat_all(parts.push(c)) == concat_all(parts) + c,
{
    assert(parts.push(c).drop_last() == parts);
}

fn chunks_exec(cs: &[char], p: usize) -> (r: Step<String>)
    requires
        p <= cs@.len(),
    ensures
        match (r, chunks(cs@, p as int)) {
            (Step::Done(q, body), Parsed::Done(q2, parts)) => q == q2 && body@ == concat_all(parts)
                && q <= cs@.len(),
            (Step::Error, Parsed::Error) => true,
            (Step::Incomplete, Parsed::Incomplete) => true,
            _ => false,
        },
{
    let (mut i, a, b) = match chunk_exec(cs, p) {
        Step::Error => {
            return Step::Error;
        },
        Step::Incomplete => {
            return Step::Incomplete;
        },
        Step::Done(q, (a, b)) => (q, a, b),
    };
    let mut body = String::new();
    push_chars(&mut body, cs, a, b);
    let ghost mut parts: Seq<Seq<char>> = seq![cs@.subrange(a as int, b as int)];
    proof {
        lemma_concat_all_push(Seq::<Seq<char>>::empty(), cs@.subrange(a as int, b as int));
        assert(Seq::<Seq<char>>::empty().push(cs@.subrange(a as int, b as int)) == parts);
        assert(Seq::<char>::empty() + cs@.subrange(a as int, b as int) == cs@.subrange(a as int, b as int));
    }
    loop
        invariant
            i <= cs@.len(),
            chunks(cs@, p as int) == prepend(parts, more_chunks(cs@, i as int)),
            body@ == concat_all(parts),
        decreases cs.len() - i,
    {
        match chunk_exec(cs, i) {
            Step::Error => {
                assert(parts + Seq::<Seq<char>>::empty() == parts);
                return Step::Done(i, body);
            },
            Step::Incomplete => {
                return Step::Incomplete;
            },
            Step::Done(q, (a, b)) => {
                if !(i < q && q <= cs.len()) {
                    return Step::Error;
                }
                let ghost c = cs@.subrange(a as int, b as int);
                push_chars(&mut body, cs, a, b);
                proof {
                    lemma_prepend_prepend(parts, seq![c], more_chunks(cs@, q as int));
                    lemma_concat_all_push(parts, c);
                    assert(parts + seq![c] == parts.push(c));
                    parts = parts.push(c);
                }
                i = q;
            },
        }
    }
}

fn insert_all_exec(headers: &mut Headers, pairs: Vec<(String, String)>)
    ensures
        header_entries(*final(headers)) == entries_insert_all(header_entries(*old(headers)), pairs_view(pairs@)),
{
    let ghost start = header_entries(*headers);
    let ghost all = pairs_view(pairs@);
    let mut i: usize = 0;
    assert(all.take(0) == Seq::<(Seq<char>, Seq<char>)>::empty());
    while i < pairs.len()
        invariant
            i <= pairs@.len(),
            all == pairs_view(pairs@),
            header_entries(*headers) == entries_insert_all(start, all.take(i as int)),
        decreases pairs.len() - i,
    {
        proof {
            assert(all.take(i + 1).drop_last() == all.take(i as int));
            assert(all.take(i + 1).last() == all[i as int]);
        }
        headers_insert(headers, pairs[i].0.clone(), pairs[i].1.clone());
        i = i + 1;
    }
    assert(all.take(i as int) == all);
}

/// Parses an HTTP/1.1 response.  Gives the input left where parsing stopped
/// (see `spec_http_response`) and the response.
pub fn http_response(input: &str) -> (r: Result<(String, Response), HttpError>)
    ensures
        match spec_http_response(input@) {
            Some((q, resp)) => r matches Ok((rest, response)) && rest@ == input@.subrange(
                q,
                input@.len() as int,
            ) && response@ == resp,
            None => r == Err::<(String, Response), HttpError>(HttpError::MalformedResponse),
        },
{
    let chars = chars_of(input);
    let cs = chars.as_slice();
    let (p1, code, message) = match status_line_exec(cs) {
        Some(line) => line,
        None => {
            return Err(HttpError::MalformedResponse);
        },
    };
    let (p2, raw) = match header_lines_exec(cs, p1) {
        Step::Done(p2, raw) => (p2, raw),
        _ => {
            return Err(HttpError::MalformedResponse);
        },
    };
    let p3 = match line_ending_exec(cs, p2) {
        Some(p3) => p3,
        None => {
            return Err(HttpError::MalformedResponse);
        },
    };
    let (mut headers, set_cookies) = split_headers_exec(&raw);
    let rest_start;
    let body;
    if header_has(&headers, "Transfer-Encoding", "chunked") {
        let (p4, text) = match chunks_exec(cs, p3) {
            Step::Done(p4, text) => (p4, text),
            _ => {
                return Err(HttpError::MalformedResponse);
            },
        };
        if p4 < cs.len() {
            let p5 = match line_ending_exec(cs, p4) {
                Some(p5) => p5,
                None => {
                    return Err(HttpError::MalformedResponse);
                },
            };
            let footers = match header_lines_exec(cs, p5) {
                Step::Done(_, footers) => footers,
                _ => {
                    return Err(HttpError::MalformedResponse);
                },
            };
            insert_all_exec(&mut headers, footers);
        }
        rest_start = p4;
        body = text;
    } else {
        rest_start = p3;
        body = string_from(cs, p3, cs.len());
    }
    let body = if body.as_str().is_empty() {
        None
    } else {
        Some(body)
    };
    let rest = string_from(cs, rest_start, cs.len());
    Ok((rest, Response { code, message, headers, set_cookies, body }))
}

} // verus!
