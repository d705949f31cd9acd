use vstd::prelude::*;
use crate::page::{contains_url, lemma_views_push, rendered, views_of, PageUrl, UrlView};
use crate::resolve::{resolve, resolve_spec, ParseError};

verus! {

/// The href attribute of each anchor element of an HTML document, in
/// document order: a function of the bytes alone.
pub uninterp spec fn hrefs_of(html: Seq<u8>) -> Seq<Seq<char>>;

/// Relies on select::document::Document::from_read (fed through
/// encoding_rs_io::DecodeReaderBytes), Document::find with the anchor name
/// predicate, and Node::attr: the raw href of every anchor element, in
/// document order.
#[verifier::external_body]
pub fn get_links_html(html_doc: &Vec<u8>) -> (r: Vec<String>)
    ensures
        r.deep_view() == hrefs_of(html_doc@),
{
    let doc = match select::document::Document::from_read(encoding_rs_io::DecodeReaderBytes::new(
        html_doc.as_slice(),
    )) {
        Ok(d) => d,
        Err(_) => return Vec::new(),
    };
    doc.find(select::predicate::Name("a"))
        .filter_map(|element| element.attr("href").map(|s| s.to_string()))
        .collect()
}

/// The links a page's HTML names: every href resolved against the page's
/// URL, with the unresolvable ones dropped.
pub open spec fn link_set(html: Seq<u8>, base: UrlView) -> Set<UrlView> {
    Set::new(
        |u: UrlView|
            exists|i: int|
                0 <= i < hrefs_of(html).len() && resolve_spec(
                    hrefs_of(html)[i],
                    rendered(base),
                ) == Some(u),
    )
}

/// The links on a page: every href of its HTML resolved against the page's
/// URL, duplicates removed, in the order the document first names them.
/// An href that resolves to no fetchable URL is a `ParseError` - exactly
/// when some href resolves to nothing - so that the caller can record the
/// page as a dead end and carry on.
#[verifier::loop_isolation(false)]
pub fn get_links_from_string(html: &Vec<u8>, page_url: &PageUrl) -> (r: Result<
    Vec<PageUrl>,
    ParseError,
>)
    ensures
        match r {
            Ok(links) => {
                &&& forall|j: int|
                    0 <= j < hrefs_of(html@).len() ==> resolve_spec(
                        #[trigger] hrefs_of(html@)[j],
                        rendered(page_url@),
                    ) is Some
                &&& views_of(links@).no_duplicates()
                &&& views_of(links@).to_set() == link_set(html@, page_url@)
            },
            Err(_) => exists|j: int|
                0 <= j < hrefs_of(html@).len() && resolve_spec(
                    #[trigger] hrefs_of(html@)[j],
                    rendered(page_url@),
                ) is None,
        },
{
    let hrefs = get_links_html(html);
    let ghost hs = hrefs.deep_view();
    let mut out: Vec<PageUrl> = Vec::new();
    let mut i: usize = 0;
    while i < hrefs.len()
        invariant
            i <= hrefs.len(),
            views_of(out@).no_duplicates(),
            forall|k: int|
                0 <= k < out@.len() ==> exists|j: int|
                    0 <= j < i && resolve_spec(hs[j], rendered(page_url@)) == Some(
                        #[trigger] views_of(out@)[k],
                    ),
            forall|j: int|
                0 <= j < i ==> resolve_spec(#[trigger] hs[j], rendered(page_url@)) is Some,
            forall|j: int|
                0 <= j < i ==> (match resolve_spec(#[trigger] hs[j], rendered(page_url@)) {
                    Some(u) => views_of(out@).contains(u),
                    None => true,
                }),
        decreases hrefs.len() - i,
    {
        let ghost out_pre = views_of(out@);
        proof {
            assert(hs[i as int] == hrefs@[i as int]@);
        }
        match resolve(hrefs[i].as_str(), page_url) {
            Ok(u) => {
                if !contains_url(&out, &u) {
                    let ghost vec_pre = out@;
                    out.push(u);
                    proof {
                        lemma_views_push(vec_pre, out@.last());
                        assert forall|x: UrlView| out_pre.contains(x) implies views_of(
                            out@,
                        ).contains(x) by {
                            let k = choose|k: int| 0 <= k < out_pre.len() && out_pre[k] == x;
                            assert(views_of(out@)[k] == x);
                        }
                        assert(views_of(out@)[out@.len() - 1] == out@.last()@);
                        assert forall|k: int| 0 <= k < out@.len() implies exists|j: int|
                            0 <= j < i + 1 && resolve_spec(hs[j], rendered(page_url@)) == Some(
                                #[trigger] views_of(out@)[k],
                            ) by {
                            if k < out@.len() - 1 {
                                assert(views_of(out@)[k] == out_pre[k]);
                            } else {
                                assert(resolve_spec(hs[i as int], rendered(page_url@)) == Some(
                                    views_of(out@)[k],
                                ));
                            }
                        }
                    }
                }
            },
            Err(_) => {
                assert(resolve_spec(hs[i as int], rendered(page_url@)) is None);
                return Err(ParseError);
            },
        }
        i += 1;
    }
    proof {
        let ls = link_set(html@, page_url@);
        let ov = views_of(out@);
        assert forall|u: UrlView| ov.to_set().contains(u) implies ls.contains(u) by {
            let k = choose|k: int| 0 <= k < ov.len() && ov[k] == u;
        }
        assert forall|u: UrlView| ls.contains(u) implies ov.to_set().contains(u) by {
            let j = choose|j: int|
                0 <= j < hs.len() && resolve_spec(hs[j], rendered(page_url@)) == Some(u);
        }
        assert(ov.to_set() =~= ls);
    }
    Ok(out)
}

} // verus!
