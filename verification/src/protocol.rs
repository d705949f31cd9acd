use vstd::prelude::*;
use crate::page::{dup_urls, views_of, PageUrl, UrlView};

verus! {

/// A request to fetch one page.  `url` is the target as it will be fetched;
/// in path mode `trail` is the ordered sequence of identity keys leading
/// from the start page to this target, the target's own key last.  In graph
/// mode requests carry no trail.
pub struct FetchRequest {
    pub url: PageUrl,
    pub trail: Option<Vec<PageUrl>>,
}

/// The view of a fetch request.
pub struct ReqView {
    pub url: UrlView,
    pub trail: Option<Seq<UrlView>>,
}

pub open spec fn opt_trail_view(t: Option<Vec<PageUrl>>) -> Option<Seq<UrlView>> {
    match t {
        Some(v) => Some(views_of(v@)),
        None => None,
    }
}

impl View for FetchRequest {
    type V = ReqView;

    open spec fn view(&self) -> ReqView {
        ReqView { url: self.url@, trail: opt_trail_view(self.trail) }
    }
}

/// The views of a sequence of fetch requests.
pub open spec fn reqs_view(s: Seq<FetchRequest>) -> Seq<ReqView> {
    s.map_values(|r: FetchRequest| r@)
}

/// The outcome of one fetch: the page's same-host links when the fetch
/// succeeded, or a failure mark for a dead link.  Either way the result
/// carries the fetched URL and the request's trail unchanged.
pub enum FetchResult {
    Success { url: PageUrl, links: Vec<PageUrl>, trail: Option<Vec<PageUrl>> },
    Failure { url: PageUrl, trail: Option<Vec<PageUrl>> },
}

/// The view of a fetch result.
pub enum ResView {
    Success { url: UrlView, links: Seq<UrlView>, trail: Option<Seq<UrlView>> },
    Failure { url: UrlView, trail: Option<Seq<UrlView>> },
}

impl View for FetchResult {
    type V = ResView;

    open spec fn view(&self) -> ResView {
        match self {
            FetchResult::Success { url, links, trail } => ResView::Success {
                url: url@,
                links: views_of(links@),
                trail: opt_trail_view(*trail),
            },
            FetchResult::Failure { url, trail } => ResView::Failure {
                url: url@,
                trail: opt_trail_view(*trail),
            },
        }
    }
}

impl ResView {
    /// The URL the result is about.
    pub open spec fn url(self) -> UrlView {
        match self {
            ResView::Success { url, .. } => url,
            ResView::Failure { url, .. } => url,
        }
    }

    /// The trail the result carries.
    pub open spec fn trail(self) -> Option<Seq<UrlView>> {
        match self {
            ResView::Success { trail, .. } => trail,
            ResView::Failure { trail, .. } => trail,
        }
    }
}

/// One page of the final graph: an identity key and the set of links
/// observed on that page.
pub struct GraphEntry {
    pub key: PageUrl,
    pub links: Vec<PageUrl>,
}

/// The views of a sequence of graph entries.
pub open spec fn entries_view(s: Seq<GraphEntry>) -> Seq<(UrlView, Seq<UrlView>)> {
    s.map_values(|e: GraphEntry| (e.key@, views_of(e.links@)))
}

/// What a finished crawl hands back: the link graph in graph mode; in path
/// mode the route from start to target with the count of pages visited, or
/// the mark that the target cannot be reached.
pub enum Output {
    Graph { pages: Vec<GraphEntry> },
    Path { route: Vec<PageUrl>, visits: usize },
    Unreachable { visits: usize },
}

/// The view of an output.
pub enum OutView {
    Graph { pages: Seq<(UrlView, Seq<UrlView>)> },
    Path { route: Seq<UrlView>, visits: int },
    Unreachable { visits: int },
}

impl View for Output {
    type V = OutView;

    open spec fn view(&self) -> OutView {
        match self {
            Output::Graph { pages } => OutView::Graph { pages: entries_view(pages@) },
            Output::Path { route, visits } => OutView::Path {
                route: views_of(route@),
                visits: *visits as int,
            },
            Output::Unreachable { visits } => OutView::Unreachable { visits: *visits as int },
        }
    }
}

/// Taking views commutes with appending one request.
pub proof fn lemma_reqs_push(s: Seq<FetchRequest>, r: FetchRequest)
    ensures
        reqs_view(s.push(r)) == reqs_view(s).push(r@),
{
    assert(reqs_view(s.push(r)) =~= reqs_view(s).push(r@));
}

/// Taking views commutes with appending one graph entry.
pub proof fn lemma_entries_push(s: Seq<GraphEntry>, e: GraphEntry)
    ensures
        entries_view(s.push(e)) == entries_view(s).push((e.key@, views_of(e.links@))),
{
    assert(entries_view(s.push(e)) =~= entries_view(s).push((e.key@, views_of(e.links@))));
}

/// Copies of the graph entries in `v`; the copies have the same views.
pub fn dup_entries(v: &Vec<GraphEntry>) -> (r: Vec<GraphEntry>)
    ensures
        entries_view(r@) == entries_view(v@),
{
    let mut out: Vec<GraphEntry> = Vec::new();
    let mut i: usize = 0;
    while i < v.len()
        invariant
            i <= v.len(),
            out@.len() == i,
            forall|j: int| 0 <= j < i ==> entries_view(out@)[j] == entries_view(v@)[j],
        decreases v.len() - i,
    {
        out.push(GraphEntry { key: v[i].key.dup(), links: dup_urls(&v[i].links) });
        i += 1;
    }
    proof {
        assert(entries_view(out@) =~= entries_view(v@));
    }
    out
}

/// All link views recorded in a graph, page after page.
pub open spec fn flat_links(g: Seq<(UrlView, Seq<UrlView>)>) -> Seq<UrlView>
    decreases g.len(),
{
    if g.len() == 0 {
        Seq::empty()
    } else {
        flat_links(g.drop_last()) + g.last().1
    }
}

/// The summary of a finished graph: how many pages were crawled, how many
/// distinct URLs their links name, and how many links were seen in all.
#[verifier::loop_isolation(false)]
pub fn graph_summary(g: &Vec<GraphEntry>) -> (r: (usize, usize, usize))
    ensures
        r.0 == g@.len(),
        r.1 == flat_links(entries_view(g@)).to_set().len(),
        r.2 == flat_links(entries_view(g@)).len(),
{
    broadcast use vstd::seq::Seq::lemma_to_set_insert_commutes;
    broadcast use vstd::seq_lib::group_seq_properties;

    let ghost gv = entries_view(g@);
    let mut flat: Vec<PageUrl> = Vec::new();
    let mut i: usize = 0;
    proof {
        assert(gv.take(0) =~= Seq::<(UrlView, Seq<UrlView>)>::empty());
        assert(views_of(flat@) =~= flat_links(gv.take(0)));
    }
    while i < g.len()
        invariant
            i <= g.len(),
            views_of(flat@) == flat_links(gv.take(i as int)),
        decreases g.len() - i,
    {
        let ghost flat_pre = flat@;
        let mut part = dup_urls(&g[i].links);
        let ghost part_v = views_of(part@);
        flat.append(&mut part);
        proof {
            assert(views_of(flat@) =~= views_of(flat_pre) + part_v);
            assert(gv.take(i + 1).drop_last() =~= gv.take(i as int));
            assert(gv.take(i + 1).last() == gv[i as int]);
            assert(views_of(flat@) =~= flat_links(gv.take(i + 1)));
        }
        i += 1;
    }
    proof {
        assert(gv.take(g@.len() as int) =~= gv);
    }
    let total = flat.len();
    let mut seen: Vec<PageUrl> = Vec::new();
    let mut j: usize = 0;
    proof {
        assert(views_of(flat@).take(0) =~= Seq::<UrlView>::empty());
        assert(views_of(seen@).to_set() =~= views_of(flat@).take(0).to_set());
    }
    while j < flat.len()
        invariant
            j <= flat.len(),
            views_of(seen@).no_duplicates(),
            views_of(seen@).to_set() == views_of(flat@).take(j as int).to_set(),
        decreases flat.len() - j,
    {
        let ghost seen_pre = views_of(seen@);
        if !crate::page::contains_url(&seen, &flat[j]) {
            seen.push(flat[j].dup());
            proof {
                crate::page::lemma_views_push(seen@.drop_last(), seen@.last());
                assert(views_of(seen@) == seen_pre.push(views_of(flat@)[j as int]));
            }
        }
        proof {
            let x = views_of(flat@)[j as int];
            assert(views_of(flat@).take(j + 1) =~= views_of(flat@).take(j as int).push(x));
            assert(views_of(flat@).take(j + 1).to_set() =~= views_of(flat@).take(
                j as int,
            ).to_set().insert(x));
            if seen_pre.contains(x) {
                assert(views_of(seen@).to_set() =~= seen_pre.to_set().insert(x));
            }
            assert(views_of(seen@).to_set() =~= views_of(flat@).take(j + 1).to_set());
        }
        j += 1;
    }
    proof {
        assert(views_of(flat@).take(flat@.len() as int) =~= views_of(flat@));
        views_of(seen@).unique_seq_to_set();
    }
    let uniq = seen.len();
    (g.len(), uniq, total)
}

} // verus!
