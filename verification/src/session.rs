//! The login session: the requests that fetch the login page and submit the
//! login form, and the form token the login page carries.

use crate::html::{opt_strings_view, select_attrs, selected_attrs, HtmlPage};
use crate::http::{with_form_item, with_header, Method, RequestBuilder, RequestView};
use crate::text::{decimal_text, push_decimal, push_str};
use vstd::prelude::*;

verus! {

broadcast use vstd::string::group_string_axioms;

/// Why a login could not go ahead.
#[derive(Debug, Clone, Copy, PartialEq, Eq, Structural)]
pub enum SessionError {
    /// A CSS selector did not parse.
    InvalidSelector,
    /// The login page has no form token.
    MissingCsrfToken,
}

/// The `host:port` address of a server.
pub open spec fn address_text(server: Seq<char>, port: u32) -> Seq<char> {
    server + ":"@ + decimal_text(port as nat)
}

/// The address to connect to: the server name, a colon, and the port in decimal.
pub fn host_and_port(server: &str, port: u32) -> (s: String)
    ensures
        s@ == address_text(server@, port),
{
    let mut s = String::new();
    push_str(&mut s, server);
    push_str(&mut s, ":");
    push_decimal(&mut s, port as usize);
    s
}

/// Whether connections to `port` go over TLS.
pub fn uses_tls(port: u32) -> (b: bool)
    ensures
        b == (port == 443),
{
    port == 443
}

/// The request for the login page: a GET of `/accounts/login/` with the server as `Host`.
pub open spec fn login_page_request_spec(server: Seq<char>) -> RequestView {
    with_header(
        RequestView {
            method: Method::Get,
            path: "/accounts/login/"@,
            headers: Seq::empty(),
            form_items: Seq::empty(),
        },
        "Host"@,
        server,
    )
}

/// The request for the login page.
pub fn login_page_request(server: &str) -> (r: RequestBuilder)
    ensures
        r@ == login_page_request_spec(server@),
{
    RequestBuilder::new(Method::Get, "/accounts/login/".to_owned()).header("Host", server)
}

/// The page the login form is posted from.
pub open spec fn referer_text(server: Seq<char>) -> Seq<char> {
    "https://"@ + server + "/accounts/login/"@
}

/// The login form submission: a POST to `/accounts/login` with `Host`,
/// `Referer` and `Cookie` headers, and the form fields `username`,
/// `password`, `csrfmiddlewaretoken` and an empty `next`.
pub open spec fn login_request_spec(
    server: Seq<char>,
    cookies: Seq<char>,
    username: Seq<char>,
    password: Seq<char>,
    token: Seq<char>,
) -> RequestView {
    let base = RequestView {
        method: Method::Post,
        path: "/accounts/login"@,
        headers: Seq::empty(),
        form_items: Seq::empty(),
    };
    let with_headers = with_header(
        with_header(with_header(base, "Host"@, server), "Referer"@, referer_text(server)),
        "Cookie"@,
        cookies,
    );
    with_form_item(
        with_form_item(
            with_form_item(with_form_item(with_headers, "username"@, username), "password"@, password),
            "csrfmiddlewaretoken"@,
            token,
        ),
        "next"@,
        Seq::empty(),
    )
}

/// The login form submission.
pub fn login_request(server: &str, cookies: &str, username: &str, password: &str, token: &str) -> (r:
    RequestBuilder)
    ensures
        r@ == login_request_spec(server@, cookies@, username@, password@, token@),
{
    let mut referer = "https://".to_owned();
    push_str(&mut referer, server);
    push_str(&mut referer, "/accounts/login/");
    proof {
        reveal_strlit("");
    }
    RequestBuilder::new(Method::Post, "/accounts/login".to_owned())
        .header("Host", server)
        .header("Referer", referer.as_str())
        .header("Cookie", cookies)
        .form_item("username", username)
        .form_item("password", password)
        .form_item("csrfmiddlewaretoken", token)
        .form_item("next", "")
}

/// The form token among the `value` attributes of the token fields: that of
/// the first field, when there is one and it has a value.
pub open spec fn token_of(values: Seq<Option<Seq<char>>>) -> Option<Seq<char>> {
    if values.len() > 0 {
        values[0]
    } else {
        None
    }
}

/// The form token from the `value` attributes of the login page's token fields.
pub fn first_token(values: &Vec<Option<String>>) -> (r: Result<String, SessionError>)
    ensures
        match token_of(opt_strings_view(values@)) {
            Some(t) => r matches Ok(s) && s@ == t,
            None => r == Err::<String, SessionError>(SessionError::MissingCsrfToken),
        },
{
    if values.len() > 0 {
        match &values[0] {
            Some(v) => Ok(v.clone()),
            None => Err(SessionError::MissingCsrfToken),
        }
    } else {
        Err(SessionError::MissingCsrfToken)
    }
}

/// The form token of the login page: the `value` of the first
/// `input[name="csrfmiddlewaretoken"]` element.
pub fn csrf_token(page: &HtmlPage) -> (r: Result<String, SessionError>)
    ensures
        match selected_attrs(page@, "input[name=\"csrfmiddlewaretoken\"]"@, "value"@) {
            None => r == Err::<String, SessionError>(SessionError::InvalidSelector),
            Some(values) => match token_of(values) {
                Some(t) => r matches Ok(s) && s@ == t,
                None => r == Err::<String, SessionError>(SessionError::MissingCsrfToken),
            },
        },
{
    match select_attrs(page.source(), "input[name=\"csrfmiddlewaretoken\"]", "value") {
        None => Err(SessionError::InvalidSelector),
        Some(values) => first_token(&values),
    }
}

} // verus!
