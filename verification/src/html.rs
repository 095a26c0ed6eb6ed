//! HTML pages, and the questions the crawler asks of them.  Pages are parsed
//! and searched with `scraper`, through the trusted items of this module.

use scraper::{Html, Selector};
use vstd::prelude::*;

verus! {

/// The source text of an HTML document.
pub struct HtmlPage {
    document: String,
}

impl View for HtmlPage {
    type V = Seq<char>;

    closed spec fn view(&self) -> Seq<char> {
        self.document@
    }
}

impl HtmlPage {
    /// The page whose source is `document`.
    pub fn new(document: String) -> (p: Self)
        ensures
            p@ == document@,
    {
        HtmlPage { document }
    }

    /// The source text of the page.
    pub fn source(&self) -> (s: &str)
        ensures
            s@ == self@,
    {
        self.document.as_str()
    }
}

/// Nested strings, as nested character sequences.
pub open spec fn texts_view(v: Seq<Vec<String>>) -> Seq<Seq<Seq<char>>> {
    v.map_values(|inner: Vec<String>| inner@.map_values(|s: String| s@))
}

/// Optional strings, as optional character sequences.
pub open spec fn opt_strings_view(v: Seq<Option<String>>) -> Seq<Option<Seq<char>>> {
    v.map_values(
        |o: Option<String>|
            match o {
                Some(s) => Some(s@),
                None => None,
            },
    )
}

/// The name for what `scraper` finds when `document` is parsed as an HTML
/// document and searched with the CSS selector `selector`: for each matching
/// element, in the order of the search, the texts of its descendant text
/// nodes; nothing when `selector` is not a valid selector.
pub uninterp spec fn selected_texts(document: Seq<char>, selector: Seq<char>) -> Option<Seq<Seq<Seq<char>>>>;

/// The name for what `scraper` finds when `document` is parsed as an HTML
/// document and searched with the CSS selector `selector`: for each matching
/// element, in the order of the search, the value of its attribute `attr` if
/// it has one; nothing when `selector` is not a valid selector.
pub uninterp spec fn selected_attrs(document: Seq<char>, selector: Seq<char>, attr: Seq<char>) -> Option<Seq<Option<Seq<char>>>>;

/// `Selector::parse`, `Html::parse_document`, `Html::select` and
/// `ElementRef::text`: the text nodes under each element that `selector`
/// matches in `document`, or `None` when the selector does not parse.
#[verifier::external_body]
pub(crate) fn select_texts(document: &str, selector: &str) -> (r: Option<Vec<Vec<String>>>)
    ensures
        match r {
            Some(v) => selected_texts(document@, selector@) == Some(texts_view(v@)),
            None => selected_texts(document@, selector@) is None,
        },
{
    let selector = Selector::parse(selector).ok()?;
    let doc = Html::parse_document(document);
    Some(doc.select(&selector).map(|e| e.text().map(|t| t.to_string()).collect()).collect())
}

/// `Selector::parse`, `Html::parse_document`, `Html::select` and
/// `ElementRef::attr`: the attribute `attr` of each element that `selector`
/// matches in `document`, or `None` when the selector does not parse.
#[verifier::external_body]
pub(crate) fn select_attrs(document: &str, selector: &str, attr: &str) -> (r: Option<Vec<Option<String>>>)
    ensures
        match r {
            Some(v) => selected_attrs(document@, selector@, attr@) == Some(opt_strings_view(v@)),
            None => selected_attrs(document@, selector@, attr@) is None,
        },
{
    let selector = Selector::parse(selector).ok()?;
    let doc = Html::parse_document(document);
    Some(doc.select(&selector).map(|e| e.attr(attr).map(|a| a.to_string())).collect())
}

} // verus!
