use vstd::prelude::*;
use vstd::string::StrSliceExecFns;
use vstd::string::StringExecFns;

verus! {

/// The mathematical shape of an absolute URL: scheme, host and path, with
/// the optional query and fragment parts, each a sequence of characters.
pub struct UrlView {
    pub scheme: Seq<char>,
    pub host: Seq<char>,
    pub path: Seq<char>,
    pub query: Option<Seq<char>>,
    pub fragment: Option<Seq<char>>,
}

/// An absolute URL held as plain parts, so that normalization and dedup
/// decisions can be stated and checked field by field.
#[derive(Debug)]
pub struct PageUrl {
    pub scheme: String,
    pub host: String,
    pub path: String,
    pub query: Option<String>,
    pub fragment: Option<String>,
}

pub open spec fn opt_view(o: Option<String>) -> Option<Seq<char>> {
    match o {
        Some(s) => Some(s@),
        None => None,
    }
}

impl View for PageUrl {
    type V = UrlView;

    open spec fn view(&self) -> UrlView {
        UrlView {
            scheme: self.scheme@,
            host: self.host@,
            path: self.path@,
            query: opt_view(self.query),
            fragment: opt_view(self.fragment),
        }
    }
}

/// The identity key of a URL: the same URL with query and fragment cleared.
/// All dedup decisions and all graph keys go by this form.
pub open spec fn key_of(u: UrlView) -> UrlView {
    UrlView { query: None, fragment: None, ..u }
}

/// Whether a URL already is an identity key, that is, carries no query and
/// no fragment.
pub open spec fn is_key(u: UrlView) -> bool {
    u.query is None && u.fragment is None
}

/// The views of a sequence of URLs.
pub open spec fn views_of(s: Seq<PageUrl>) -> Seq<UrlView> {
    s.map_values(|p: PageUrl| p@)
}

/// The character sequence a URL renders to: scheme, "://", host, path, and
/// the query and fragment parts with their markers when present.
pub open spec fn rendered(u: UrlView) -> Seq<char> {
    u.scheme + "://"@ + u.host + u.path + (match u.query {
        Some(q) => "?"@ + q,
        None => Seq::<char>::empty(),
    }) + (match u.fragment {
        Some(f) => "#"@ + f,
        None => Seq::<char>::empty(),
    })
}

/// Whether `s` ends with `suffix`.
pub open spec fn seq_ends_with(s: Seq<char>, suffix: Seq<char>) -> bool {
    suffix.len() <= s.len() && s.subrange(s.len() - suffix.len(), s.len() as int) == suffix
}

/// Whether a path ends with one of the denylisted extensions.
pub open spec fn path_disallowed(path: Seq<char>, deny: Seq<Seq<char>>) -> bool {
    exists|i: int| 0 <= i < deny.len() && #[trigger] seq_ends_with(path, deny[i])
}

/// Whether `s` ends with `suffix`, checked character by character.
pub fn str_ends_with(s: &str, suffix: &str) -> (r: bool)
    ensures
        r == seq_ends_with(s@, suffix@),
{
    let n = s.unicode_len();
    let m = suffix.unicode_len();
    if m > n {
        return false;
    }
    let mut i: usize = 0;
    while i < m
        invariant
            i <= m,
            m <= n,
            n == s@.len(),
            m == suffix@.len(),
            forall|j: int| 0 <= j < i ==> s@[n - m + j] == suffix@[j],
        decreases m - i,
    {
        if s.get_char(n - m + i) != suffix.get_char(i) {
            assert(s@.subrange(n - m, n as int)[i as int] != suffix@[i as int]);
            return false;
        }
        i += 1;
    }
    assert(s@.subrange(n - m, n as int) =~= suffix@);
    true
}

impl PageUrl {
    /// A copy of this URL; the copy has the same view.
    pub fn dup(&self) -> (r: PageUrl)
        ensures
            r@ == self@,
    {
        PageUrl {
            scheme: self.scheme.clone(),
            host: self.host.clone(),
            path: self.path.clone(),
            query: match &self.query {
                Some(q) => Some(q.clone()),
                None => None,
            },
            fragment: match &self.fragment {
                Some(f) => Some(f.clone()),
                None => None,
            },
        }
    }

    /// The identity key of this URL: the same URL with query and fragment
    /// cleared.
    pub fn identity_key(&self) -> (r: PageUrl)
        ensures
            r@ == key_of(self@),
            is_key(r@),
    {
        PageUrl {
            scheme: self.scheme.clone(),
            host: self.host.clone(),
            path: self.path.clone(),
            query: None,
            fragment: None,
        }
    }

    /// Whether this URL lives on the given host.
    pub fn same_host(&self, host: &String) -> (r: bool)
        ensures
            r == (self@.host == host@),
    {
        self.host == *host
    }

    /// Whether this URL's path ends with one of the denylisted extensions.
    pub fn is_disallowed(&self, deny: &Vec<String>) -> (r: bool)
        ensures
            r == path_disallowed(self@.path, deny.deep_view()),
    {
        let mut i: usize = 0;
        while i < deny.len()
            invariant
                i <= deny.len(),
                deny.deep_view().len() == deny.len(),
                forall|j: int| 0 <= j < deny.len() ==> deny.deep_view()[j] == deny@[j]@,
                forall|j: int| 0 <= j < i ==> !seq_ends_with(self@.path, deny.deep_view()[j]),
            decreases deny.len() - i,
        {
            if str_ends_with(self.path.as_str(), deny[i].as_str()) {
                assert(seq_ends_with(self@.path, deny.deep_view()[i as int]));
                return true;
            }
            i += 1;
        }
        false
    }

    /// This URL as one string.
    pub fn render(&self) -> (r: String)
        ensures
            r@ == rendered(self@),
    {
        let mut out = self.scheme.clone();
        out.append("://");
        out.append(self.host.as_str());
        out.append(self.path.as_str());
        match &self.query {
            Some(q) => {
                out.append("?");
                out.append(q.as_str());
            },
            None => {},
        }
        match &self.fragment {
            Some(f) => {
                out.append("#");
                out.append(f.as_str());
            },
            None => {},
        }
        proof {
            assert(out@ =~= rendered(self@));
        }
        out
    }
}

/// Taking views commutes with appending one URL.
pub proof fn lemma_views_push(s: Seq<PageUrl>, p: PageUrl)
    ensures
        views_of(s.push(p)) == views_of(s).push(p@),
{
    assert(views_of(s.push(p)) =~= views_of(s).push(p@));
}

/// Whether two URLs are equal part for part.
pub fn url_eq(a: &PageUrl, b: &PageUrl) -> (r: bool)
    ensures
        r == (a@ == b@),
{
    let scheme_eq = a.scheme == b.scheme;
    let host_eq = a.host == b.host;
    let path_eq = a.path == b.path;
    let query_eq = match (&a.query, &b.query) {
        (None, None) => true,
        (Some(x), Some(y)) => *x == *y,
        _ => false,
    };
    let fragment_eq = match (&a.fragment, &b.fragment) {
        (None, None) => true,
        (Some(x), Some(y)) => *x == *y,
        _ => false,
    };
    scheme_eq && host_eq && path_eq && query_eq && fragment_eq
}

/// Whether some URL in `v` has the view `u@`.
pub fn contains_url(v: &Vec<PageUrl>, u: &PageUrl) -> (r: bool)
    ensures
        r == views_of(v@).contains(u@),
{
    let mut i: usize = 0;
    while i < v.len()
        invariant
            i <= v.len(),
            forall|j: int| 0 <= j < i ==> views_of(v@)[j] != u@,
        decreases v.len() - i,
    {
        if url_eq(&v[i], u) {
            assert(views_of(v@)[i as int] == u@);
            return true;
        }
        i += 1;
    }
    false
}

/// Copies of the URLs in `v`; the copies have the same views.
pub fn dup_urls(v: &Vec<PageUrl>) -> (r: Vec<PageUrl>)
    ensures
        views_of(r@) == views_of(v@),
{
    let mut out: Vec<PageUrl> = Vec::new();
    let mut i: usize = 0;
    while i < v.len()
        invariant
            i <= v.len(),
            out@.len() == i,
            forall|j: int| 0 <= j < i ==> views_of(out@)[j] == views_of(v@)[j],
        decreases v.len() - i,
    {
        out.push(v[i].dup());
        i += 1;
    }
    proof {
        assert(views_of(out@) =~= views_of(v@));
    }
    out
}

/// The default extension denylist: links whose path ends in one of these
/// are never turned into fetch requests.
pub fn default_denylist() -> (r: Vec<String>)
    ensures
        r.deep_view() =~= seq![".png"@, ".jpg"@, ".jpeg"@, ".pdf"@, ".htm"@],
{
    let mut v: Vec<String> = Vec::new();
    v.push(String::from_str(".png"));
    v.push(String::from_str(".jpg"));
    v.push(String::from_str(".jpeg"));
    v.push(String::from_str(".pdf"));
    v.push(String::from_str(".htm"));
    v
}

} // verus!
