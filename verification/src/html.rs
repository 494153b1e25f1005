//! HTML documents read through `scraper`, with their elements named by
//! plain numbers: the index of an element's node in the document tree that
//! `scraper` builds from the text. The tree, and so every index, depends on
//! the text alone.
use vstd::prelude::*;

verus! {

#[verifier::external_type_specification]
#[verifier::external_body]
pub struct ExHtml(scraper::Html);

#[verifier::external_type_specification]
#[verifier::external_body]
pub struct ExSelector(scraper::Selector);

/// A parsed HTML document together with the text it was parsed from. It is
/// made only by [`parse_html`], so the tree is always that of the text.
pub struct HtmlDoc {
    source: String,
    tree: scraper::Html,
}

impl View for HtmlDoc {
    type V = Seq<char>;

    closed spec fn view(&self) -> Seq<char> {
        self.source@
    }
}

/// A parsed CSS selector together with its text. It is made only by
/// [`compile_selector`].
pub struct Css {
    text: String,
    selector: scraper::Selector,
}

impl View for Css {
    type V = Seq<char>;

    closed spec fn view(&self) -> Seq<char> {
        self.text@
    }
}

/// Whether `scraper` accepts a text as a CSS selector list.
pub uninterp spec fn selector_accepts(s: Seq<char>) -> bool;

/// The elements of the document of `html` that match the selector `sel`,
/// in document order (`Html::select`).
pub uninterp spec fn html_matches(html: Seq<char>, sel: Seq<char>) -> Seq<usize>;

/// The descendants of element `node` of the document of `html` that match
/// `sel`, in document order (`ElementRef::select`); none when `node` is no
/// element.
pub uninterp spec fn html_matches_under(html: Seq<char>, node: usize, sel: Seq<char>) -> Seq<usize>;

/// The attribute `name` of element `node` of the document of `html`
/// (`ElementRef::attr`); none when `node` is no element.
pub uninterp spec fn html_attr(html: Seq<char>, node: usize, name: Seq<char>) -> Option<Seq<char>>;

/// The text of element `node` of the document of `html`, its pieces joined
/// (`ElementRef::text`); empty when `node` is no element.
pub uninterp spec fn html_text(html: Seq<char>, node: usize) -> Seq<char>;

/// `scraper::Html::parse_document`, kept with its text.
///
/// Trusted: the document is stated to be that of the text; the tree itself
/// is read only through the names of this module.
#[verifier::external_body]
pub fn parse_html(text: &str) -> (r: HtmlDoc)
    ensures
        r@ == text@,
{
    HtmlDoc { source: text.to_string(), tree: scraper::Html::parse_document(text) }
}

/// `scraper::Selector::parse`, kept with its text; none for a selector it
/// rejects.
///
/// Trusted: which selectors parse is stated through [`selector_accepts`].
#[verifier::external_body]
pub fn compile_selector(text: &str) -> (r: Option<Css>)
    ensures
        r is Some <==> selector_accepts(text@),
        r matches Some(c) ==> c@ == text@,
{
    scraper::Selector::parse(text).ok().map(|selector| Css { text: text.to_string(), selector })
}

/// `Html::select`, each element given by the index of its node.
///
/// Trusted: the result is stated through the name [`html_matches`].
#[verifier::external_body]
pub fn select_nodes(doc: &HtmlDoc, css: &Css) -> (r: Vec<usize>)
    ensures
        r@ == html_matches(doc@, css@),
{
    let ids: Vec<_> = doc.tree.tree.nodes().map(|n| n.id()).collect();
    doc.tree.select(&css.selector).map(|e| ids.iter().position(|i| *i == e.id()).unwrap_or(0)).collect()
}

/// `ElementRef::select` on the element at `node`, each match given by the
/// index of its node.
///
/// Trusted: the result is stated through the name [`html_matches_under`].
#[verifier::external_body]
pub fn select_nodes_under(doc: &HtmlDoc, node: usize, css: &Css) -> (r: Vec<usize>)
    ensures
        r@ == html_matches_under(doc@, node, css@),
{
    let ids: Vec<_> = doc.tree.tree.nodes().map(|n| n.id()).collect();
    match doc.tree.tree.nodes().nth(node).and_then(scraper::ElementRef::wrap) {
        Some(el) => el.select(&css.selector).map(|e| ids.iter().position(|i| *i == e.id()).unwrap_or(0)).collect(),
        None => Vec::new(),
    }
}

/// `ElementRef::attr` of the element at `node`, copied.
///
/// Trusted: the result is stated through the name [`html_attr`].
#[verifier::external_body]
pub fn node_attr(doc: &HtmlDoc, node: usize, name: &str) -> (r: Option<String>)
    ensures
        match r {
            Some(v) => html_attr(doc@, node, name@) == Some(v@),
            None => html_attr(doc@, node, name@) is None,
        },
{
    doc.tree.tree.nodes().nth(node).and_then(scraper::ElementRef::wrap).and_then(|el| el.attr(name)).map(|v| v.to_string())
}

/// `ElementRef::text` of the element at `node`, its pieces joined.
///
/// Trusted: the result is stated through the name [`html_text`].
#[verifier::external_body]
pub fn node_text(doc: &HtmlDoc, node: usize) -> (r: String)
    ensures
        r@ == html_text(doc@, node),
{
    doc.tree.tree.nodes().nth(node).and_then(scraper::ElementRef::wrap).map(|el| el.text().collect::<String>()).unwrap_or_default()
}

} // verus!
