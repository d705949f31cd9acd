use vstd::prelude::*;
use crate::page::{rendered, PageUrl, UrlView};

verus! {

/// What `url::Url::parse` yields on one string: the parts of an absolute
/// URL that has a host, `None` otherwise.  A function of the string alone.
pub uninterp spec fn parsed_url(href: Seq<char>) -> Option<UrlView>;

/// What resolving `href` against the rendered base URL yields, through
/// `url::Url::parse` on the base and `url::Url::join`: again `None` when
/// no absolute URL with a host comes out.  A function of the two strings
/// alone.
pub uninterp spec fn joined_url(base: Seq<char>, href: Seq<char>) -> Option<UrlView>;

/// A raw href that resolves to no fetchable URL.
#[derive(Debug)]
pub struct ParseError;

/// Relies on url::Url::parse: parses an absolute URL and hands out its
/// scheme, host, path, query and fragment; a relative reference, or an
/// absolute URL without a host, yields `None`.
#[verifier::external_body]
fn parse_absolute(href: &str) -> (r: Option<PageUrl>)
    ensures
        match r {
            Some(u) => parsed_url(href@) == Some(u@),
            None => parsed_url(href@) is None,
        },
{
    let u = url::Url::parse(href).ok()?;
    let host = u.host_str()?.to_string();
    Some(PageUrl {
        scheme: u.scheme().to_string(),
        host,
        path: u.path().to_string(),
        query: u.query().map(|s| s.to_string()),
        fragment: u.fragment().map(|s| s.to_string()),
    })
}

/// Relies on url::Url::join (after url::Url::parse on the base): resolves
/// a possibly relative href against a base URL as the URL standard says;
/// `None` when the base does not parse, the join fails, or the joined URL
/// has no host.
#[verifier::external_body]
fn join_against(base: &str, href: &str) -> (r: Option<PageUrl>)
    ensures
        match r {
            Some(u) => joined_url(base@, href@) == Some(u@),
            None => joined_url(base@, href@) is None,
        },
{
    let u = url::Url::parse(base).ok()?.join(href).ok()?;
    let host = u.host_str()?.to_string();
    Some(PageUrl {
        scheme: u.scheme().to_string(),
        host,
        path: u.path().to_string(),
        query: u.query().map(|s| s.to_string()),
        fragment: u.fragment().map(|s| s.to_string()),
    })
}

/// Where a raw href lands: at itself if it is absolute, else joined
/// against the base; nowhere if neither way yields an absolute URL with a
/// host.
pub open spec fn resolve_spec(href: Seq<char>, base: Seq<char>) -> Option<UrlView> {
    match parsed_url(href) {
        Some(u) => Some(u),
        None => joined_url(base, href),
    }
}

/// Resolves a raw href against the page it stood on: an absolute href
/// stands as it is, a relative one is joined against the page's URL, and
/// one that is neither is a `ParseError` - exactly when `resolve_spec`
/// yields nothing.
pub fn resolve(href: &str, base: &PageUrl) -> (r: Result<PageUrl, ParseError>)
    ensures
        match r {
            Ok(u) => resolve_spec(href@, rendered(base@)) == Some(u@),
            Err(_) => resolve_spec(href@, rendered(base@)) is None,
        },
{
    match parse_absolute(href) {
        Some(u) => Ok(u),
        None => {
            let base_text = base.render();
            match join_against(base_text.as_str(), href) {
                Some(u) => Ok(u),
                None => Err(ParseError),
            }
        },
    }
}

} // verus!
