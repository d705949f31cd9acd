use vstd::prelude::*;
use crate::page::{lemma_views_push, views_of, PageUrl, UrlView};
use crate::protocol::{opt_trail_view, FetchResult, ResView};

verus! {

/// Filtering one element distributes as expected.
proof fn lemma_filter_singleton<A>(x: A, pred: spec_fn(A) -> bool)
    ensures
        seq![x].filter(pred) == if pred(x) {
            seq![x]
        } else {
            Seq::<A>::empty()
        },
{
    reveal_with_fuel(Seq::filter, 2);
    assert(seq![x].drop_last() =~= Seq::<A>::empty());
    assert(seq![x].last() == x);
}

/// The links of a page that live on the crawl's host, in order.  This is
/// the fetcher's same-host filter.
#[verifier::loop_isolation(false)]
pub fn filter_same_host(links: &Vec<PageUrl>, host: &String) -> (r: Vec<PageUrl>)
    ensures
        views_of(r@) == views_of(links@).filter(|u: UrlView| u.host == host@),
{
    broadcast use vstd::seq_lib::group_filter_ensures;

    let ghost lks = views_of(links@);
    let ghost pred = |u: UrlView| u.host == host@;
    let mut out: Vec<PageUrl> = Vec::new();
    let mut i: usize = 0;
    proof {
        assert(lks.take(0) =~= Seq::<UrlView>::empty());
        assert(views_of(out@) =~= lks.take(0).filter(pred));
    }
    while i < links.len()
        invariant
            i <= links.len(),
            views_of(out@) == lks.take(i as int).filter(pred),
        decreases links.len() - i,
    {
        let ghost out_pre = out@;
        if links[i].same_host(host) {
            out.push(links[i].dup());
            proof {
                lemma_views_push(out_pre, out@.last());
            }
        }
        proof {
            assert(lks.take(i + 1) =~= lks.take(i as int) + seq![lks[i as int]]);
            Seq::filter_distributes_over_add(lks.take(i as int), seq![lks[i as int]], pred);
            lemma_filter_singleton(lks[i as int], pred);
            assert(views_of(out@) =~= lks.take(i + 1).filter(pred));
        }
        i += 1;
    }
    proof {
        assert(lks.take(links@.len() as int) =~= lks);
    }
    out
}

/// The compute half of one fetch: with the page's status and its same-host
/// links in hand, the result the fetcher emits.  A 2xx status succeeds with
/// the links; anything else is a dead link.  The trail rides along
/// unchanged.
pub fn page_result(
    url: PageUrl,
    status: u16,
    links: Vec<PageUrl>,
    trail: Option<Vec<PageUrl>>,
) -> (r: FetchResult)
    ensures
        200 <= status < 300 ==> r@ == (ResView::Success {
            url: url@,
            links: views_of(links@),
            trail: opt_trail_view(trail),
        }),
        !(200 <= status < 300) ==> r@ == (ResView::Failure {
            url: url@,
            trail: opt_trail_view(trail),
        }),
{
    if 200 <= status && status < 300 {
        FetchResult::Success { url, links, trail }
    } else {
        FetchResult::Failure { url, trail }
    }
}

} // verus!
