use vstd::prelude::*;
use crate::coordinator::{
    fresh_links, keys_of, lemma_contains_concat, lemma_fresh_links, result_wf, step_echo_spec,
    trail_of,
    step_result_spec, wf, CoordView, Coordinator, Mode, ModeView, Phase, StepOutput,
};
use crate::page::{is_key, key_of, views_of, PageUrl, UrlView};
use crate::protocol::{reqs_view, FetchRequest, FetchResult, OutView, Output, ReqView, ResView};

verus! {

/// One page of a static link structure: an identity key, whether its fetch
/// succeeds, and the links the fetcher reports for it.  The links stand for
/// the fetcher's output: extracted, resolved and host-filtered.
pub struct FixturePage {
    pub key: PageUrl,
    pub ok: bool,
    pub links: Vec<PageUrl>,
}

/// A static link structure, standing in for the network: the crawl of a
/// fixture is a plain computation.
pub struct Fixture {
    pub pages: Vec<FixturePage>,
}

/// The view of a fixture page.
pub type PageView = (UrlView, bool, Seq<UrlView>);

/// The views of a fixture's pages.
pub open spec fn pages_view(s: Seq<FixturePage>) -> Seq<PageView> {
    s.map_values(|p: FixturePage| (p.key@, p.ok, views_of(p.links@)))
}

impl View for Fixture {
    type V = Seq<PageView>;

    open spec fn view(&self) -> Seq<PageView> {
        pages_view(self.pages@)
    }
}

/// The first fixture page whose key is `k`, if any.
pub open spec fn lookup(pages: Seq<PageView>, k: UrlView) -> Option<(bool, Seq<UrlView>)>
    decreases pages.len(),
{
    if pages.len() == 0 {
        None
    } else if pages.first().0 == k {
        Some((pages.first().1, pages.first().2))
    } else {
        lookup(pages.drop_first(), k)
    }
}

/// What the fetcher hands back for a request against a fixture: the page's
/// links when its key is listed and live, a failure otherwise; the trail is
/// carried through unchanged.
pub open spec fn fixture_res_spec(pages: Seq<PageView>, req: ReqView) -> ResView {
    let k = key_of(req.url);
    match lookup(pages, k) {
        Some((ok, links)) => if ok {
            ResView::Success { url: req.url, links, trail: req.trail }
        } else {
            ResView::Failure { url: req.url, trail: req.trail }
        },
        None => ResView::Failure { url: req.url, trail: req.trail },
    }
}

/// Resolves one request against a fixture, as `fixture_res_spec` says.
pub fn fixture_result(fx: &Fixture, req: FetchRequest) -> (r: FetchResult)
    ensures
        r@ == fixture_res_spec(fx@, req@),
{
    let k = req.url.identity_key();
    let ghost fxp = fx@;
    let mut i: usize = 0;
    proof {
        assert(fxp.skip(0) =~= fxp);
    }
    while i < fx.pages.len()
        invariant
            i <= fx.pages.len(),
            fxp == fx@,
            k@ == key_of(req@.url),
            lookup(fxp.skip(i as int), k@) == lookup(fxp, k@),
        decreases fx.pages.len() - i,
    {
        let p = &fx.pages[i];
        proof {
            assert(fxp.skip(i as int).first() == fxp[i as int]);
            assert(fxp.skip(i as int).drop_first() =~= fxp.skip(i + 1));
        }
        if crate::page::url_eq(&p.key, &k) {
            if p.ok {
                return FetchResult::Success {
                    url: req.url,
                    links: crate::page::dup_urls(&p.links),
                    trail: req.trail,
                };
            } else {
                return FetchResult::Failure { url: req.url, trail: req.trail };
            }
        }
        i += 1;
    }
    proof {
        assert(fxp.skip(fx.pages@.len() as int) =~= Seq::<PageView>::empty());
    }
    FetchResult::Failure { url: req.url, trail: req.trail }
}

/// The identity keys of a queue of requests, in order.
pub open spec fn req_keys(qs: Seq<ReqView>) -> Seq<UrlView> {
    qs.map_values(|r: ReqView| key_of(r.url))
}

/// Whether the structure lets one hop from the page keyed `a` to the key
/// `b`: the page is listed, its fetch succeeds, and one of its links has
/// identity key `b`.
pub open spec fn fixture_linked(pages: Seq<PageView>, a: UrlView, b: UrlView) -> bool {
    match lookup(pages, a) {
        Some((ok, links)) => ok && exists|i: int|
            0 <= i < links.len() && key_of(#[trigger] links[i]) == b,
        None => false,
    }
}

/// Whether each step of a trail follows a link of the structure.
pub open spec fn trail_connected(pages: Seq<PageView>, t: Seq<UrlView>) -> bool {
    forall|i: int| 0 <= i < t.len() - 1 ==> #[trigger] fixture_linked(pages, t[i], t[i + 1])
}

/// The identity keys a page contributes: its own, and its links'.
pub open spec fn page_keys(p: PageView) -> Seq<UrlView> {
    seq![p.0] + p.2.map_values(|l: UrlView| key_of(l))
}

/// Every identity key a fixture can ever put in play.
pub open spec fn all_keys(pages: Seq<PageView>) -> Seq<UrlView>
    decreases pages.len(),
{
    if pages.len() == 0 {
        Seq::empty()
    } else {
        page_keys(pages.first()) + all_keys(pages.drop_first())
    }
}

/// The finite universe of keys a crawl of `pages` from `seed_key` can
/// touch.
pub open spec fn universe(pages: Seq<PageView>, seed_key: UrlView) -> Set<UrlView> {
    all_keys(pages).to_set().insert(seed_key)
}

/// The key universe of a fixture is finite.
pub proof fn lemma_universe_finite(pages: Seq<PageView>, seed_key: UrlView)
    ensures
        universe(pages, seed_key).finite(),
{
    broadcast use vstd::seq_lib::seq_to_set_is_finite;

}

/// Every link of a page a lookup can find has its key in the fixture's
/// keys.
pub proof fn lemma_lookup_keys(pages: Seq<PageView>, k: UrlView)
    ensures
        match lookup(pages, k) {
            Some((ok, links)) => forall|i: int|
                0 <= i < links.len() ==> all_keys(pages).to_set().contains(
                    key_of(#[trigger] links[i]),
                ),
            None => true,
        },
    decreases pages.len(),
{
    if pages.len() == 0 {
    } else {
        let first = pages.first();
        let rest = pages.drop_first();
        if first.0 == k {
            let links = first.2;
            assert forall|i: int| 0 <= i < links.len() implies all_keys(pages).to_set().contains(
                key_of(#[trigger] links[i]),
            ) by {
                assert(page_keys(first)[1 + i] == key_of(links[i]));
                assert(all_keys(pages)[1 + i] == key_of(links[i]));
            }
        } else {
            lemma_lookup_keys(rest, k);
            match lookup(rest, k) {
                Some((ok, links)) => {
                    assert forall|i: int|
                        0 <= i < links.len() implies all_keys(pages).to_set().contains(
                        key_of(#[trigger] links[i]),
                    ) by {
                        assert(all_keys(rest).to_set().contains(key_of(links[i])));
                        lemma_contains_concat(
                            page_keys(first),
                            all_keys(rest),
                            key_of(links[i]),
                        );
                    }
                },
                None => {},
            }
        }
    }
}

/// A step keeps pending and visited inside any universe that contains the
/// state's keys and the keys of the result's links.
pub proof fn lemma_step_universe(c: CoordView, r: ResView, u: Set<UrlView>)
    requires
        wf(c),
        result_wf(r, c.mode),
        forall|i: int| 0 <= i < c.pending.len() ==> u.contains(#[trigger] c.pending[i]),
        forall|i: int| 0 <= i < c.visited.len() ==> u.contains(#[trigger] c.visited[i]),
        match r {
            ResView::Success { links, .. } => forall|i: int|
                0 <= i < links.len() ==> u.contains(key_of(#[trigger] links[i])),
            ResView::Failure { .. } => true,
        },
    ensures
        forall|i: int|
            0 <= i < step_result_spec(c, r).0.pending.len() ==> u.contains(
                #[trigger] step_result_spec(c, r).0.pending[i],
            ),
        forall|i: int|
            0 <= i < step_result_spec(c, r).0.visited.len() ==> u.contains(
                #[trigger] step_result_spec(c, r).0.visited[i],
            ),
{
    let (c1, st) = step_result_spec(c, r);
    if c.phase is Terminated {
    } else {
        let k = key_of(r.url());
        if c.pending.contains(k) {
            let pending1 = c.pending.remove_value(k);
            let visited1 = c.visited.push(k);
            c.pending.index_of_first_ensures(k);
            let pi = c.pending.index_of_first(k).unwrap();
            assert(forall|j: int|
                0 <= j < pending1.len() ==> pending1[j] == (if j < pi {
                    c.pending[j]
                } else {
                    c.pending[j + 1]
                }));
            let j0 = choose|j0: int| 0 <= j0 < c.pending.len() && c.pending[j0] == k;
            assert(u.contains(k));
            assert(forall|i: int| 0 <= i < visited1.len() ==> u.contains(#[trigger] visited1[i]));
            match r {
                ResView::Success { url, links, trail } => {
                    let is_goal = match c.mode {
                        ModeView::Path { target_key } => crate::coordinator::goal_hit(
                            links,
                            target_key,
                        ),
                        ModeView::Graph => false,
                    };
                    if !is_goal {
                        let known = pending1 + visited1;
                        let fresh = fresh_links(links, known, c.deny);
                        lemma_fresh_links(links, known, c.deny);
                        assert(c1.pending == pending1 + keys_of(fresh));
                        assert forall|i: int| 0 <= i < c1.pending.len() implies u.contains(
                            #[trigger] c1.pending[i],
                        ) by {
                            if i < pending1.len() {
                                assert(c1.pending[i] == pending1[i]);
                            } else {
                                let f = fresh[i - pending1.len()];
                                assert(c1.pending[i] == key_of(f));
                                let j = choose|j: int| 0 <= j < links.len() && f == links[j];
                                assert(u.contains(key_of(links[j])));
                            }
                        }
                    }
                },
                ResView::Failure { .. } => {},
            }
        }
    }
}

/// The engine's run over a fixture, described once and for all: resolve the
/// head of the queue, apply the coordinator's step, append the new
/// requests; with the queue drained, two probe echoes close the crawl.  The
/// fuel only bounds the recursion; any large enough fuel gives the crawl's
/// one answer.
pub open spec fn crawl_steps(
    c: CoordView,
    queue: Seq<ReqView>,
    pages: Seq<PageView>,
    fuel: nat,
) -> Option<OutView>
    decreases fuel,
{
    if fuel == 0 {
        None
    } else if queue.len() == 0 {
        let (c1, s1) = step_echo_spec(c);
        let (c2, s2) = step_echo_spec(c1);
        match s1.output {
            Some(o) => Some(o),
            None => s2.output,
        }
    } else {
        let r = fixture_res_spec(pages, queue.first());
        let (c1, st) = step_result_spec(c, r);
        match st.output {
            Some(o) => Some(o),
            None => crawl_steps(c1, queue.drop_first() + st.requests, pages, (fuel - 1) as nat),
        }
    }
}

/// A state whose visited keys all lie in a finite universe, without
/// duplicates, has no more of them than the universe has keys.
pub proof fn lemma_visited_bound(c: CoordView, u: Set<UrlView>)
    requires
        wf(c),
        u.finite(),
        forall|i: int| 0 <= i < c.visited.len() ==> u.contains(#[trigger] c.visited[i]),
    ensures
        c.visited.len() <= u.len(),
{
    c.visited.unique_seq_to_set();
    assert forall|x: UrlView| c.visited.to_set().contains(x) implies u.contains(x) by {
        let i = choose|i: int| 0 <= i < c.visited.len() && c.visited[i] == x;
    }
    vstd::set_lib::lemma_len_subset(c.visited.to_set(), u);
}

/// What a whole crawl of a fixture yields: a function of the mode, seed,
/// denylist and fixture alone.  Running the engine twice over an identical
/// fixture yields identical output.
pub open spec fn crawl_of(
    mode: ModeView,
    seed: UrlView,
    deny: Seq<Seq<char>>,
    pages: Seq<PageView>,
) -> Option<OutView> {
    let c0 = CoordView {
        mode,
        phase: Phase::Running,
        pending: seq![key_of(seed)],
        visited: Seq::empty(),
        graph: Seq::empty(),
        deny,
    };
    let req0 = ReqView {
        url: seed,
        trail: match mode {
            ModeView::Graph => None,
            ModeView::Path { .. } => Some(seq![key_of(seed)]),
        },
    };
    crawl_steps(c0, seq![req0], pages, (universe(pages, key_of(seed)).len() + 1) as nat)
}

/// Runs a whole crawl against a fixture.  That this function verifies is
/// the termination half of the engine's soundness: the loop's `decreases`
/// measure rests on the finite key universe of the fixture.  The output is
/// exactly `crawl_of` on the inputs - a function of the fixture alone, so
/// re-running an identical fixture yields an identical output - and by the
/// probe protocol it is only emitted once nothing is outstanding.  A path
/// output is a real route: it starts at the seed's key, ends at the
/// target's, and each hop follows a link the structure shows.
#[verifier::loop_isolation(false)]
pub fn run_crawl(mode: Mode, seed: &PageUrl, deny: Vec<String>, fx: &Fixture) -> (out: Output)
    requires
        match mode@ {
            ModeView::Path { target_key } => is_key(target_key),
            ModeView::Graph => true,
        },
    ensures
        Some(out@) == crawl_of(mode@, seed@, deny.deep_view(), fx@),
        out@ matches OutView::Path { route, visits } ==> route.len() >= 2 && route[0] == key_of(
            seed@,
        ) && (mode@ matches ModeView::Path { target_key } && route[route.len() - 1] == target_key)
            && trail_connected(fx@, route),
{
    let ghost md = mode@;
    let ghost dv = deny.deep_view();
    let ghost pages = fx@;
    let ghost seed_key = key_of(seed@);
    let ghost u = universe(pages, seed_key);
    let ghost fuel0 = (u.len() + 1) as nat;

    let (cc, req0) = Coordinator::new(mode, seed, deny);
    let mut c = cc;
    let ghost c0 = c@;
    let ghost q0 = seq![req0@];
    let mut queue: Vec<FetchRequest> = Vec::new();
    queue.push(req0);
    let mut found: Option<Output> = None;
    let ghost mut fuel: nat = fuel0;
    proof {
        lemma_universe_finite(pages, seed_key);
        assert(reqs_view(queue@) =~= q0);
        assert(req_keys(q0) =~= c0.pending);
        assert(crawl_of(md, seed@, dv, pages) == crawl_steps(c0, q0, pages, fuel0));
    }

    while 0 < queue.len() && found.is_none()
        invariant
            wf(c@),
            c@.mode == md,
            c@.deny == dv,
            found is None ==> req_keys(reqs_view(queue@)) == c@.pending,
            found is None ==> forall|i: int|
                0 <= i < queue@.len() ==> (match md {
                    ModeView::Graph => (#[trigger] queue@[i])@.trail is None,
                    ModeView::Path { .. } => (queue@[i]@.trail matches Some(t) && t.len() >= 1
                        && t[0] == seed_key && t[t.len() - 1] == key_of(queue@[i]@.url)
                        && trail_connected(pages, t)),
                }),
            forall|i: int| 0 <= i < c@.pending.len() ==> u.contains(#[trigger] c@.pending[i]),
            forall|i: int| 0 <= i < c@.visited.len() ==> u.contains(#[trigger] c@.visited[i]),
            fuel + c@.visited.len() == fuel0,
            found is None ==> crawl_steps(c@, reqs_view(queue@), pages, fuel) == crawl_steps(
                c0,
                q0,
                pages,
                fuel0,
            ),
            found matches Some(o) ==> Some(o@) == crawl_steps(c0, q0, pages, fuel0),
            found matches Some(o) ==> (o@ matches OutView::Path { route, visits } ==> route.len()
                >= 2 && route[0] == seed_key && (md matches ModeView::Path { target_key }
                && route[route.len() - 1] == target_key) && trail_connected(pages, route)),
            found is None ==> (c@.phase == Phase::Running || c@.phase == (Phase::ProbeSent {
                confirmed: false,
            })),
            found is None && queue@.len() == 0 ==> c@.phase == (Phase::ProbeSent {
                confirmed: false,
            }),
        decreases fuel,
    {
        let ghost c_pre = c@;
        let ghost qv_pre = reqs_view(queue@);
        let ghost fuel_pre = fuel;
        proof {
            lemma_visited_bound(c_pre, u);
            assert(fuel_pre >= 1);
        }
        let req = queue.remove(0);
        let ghost rq = req@;
        proof {
            assert(reqs_view(queue@) =~= qv_pre.drop_first());
            assert(rq == qv_pre.first());
        }
        let res = fixture_result(fx, req);
        let ghost rv = res@;
        proof {
            assert(rv == fixture_res_spec(pages, rq));
            assert(rv.trail() == rq.trail);
            assert(result_wf(rv, c_pre.mode));
            assert(req_keys(qv_pre)[0] == key_of(rq.url));
            assert(c_pre.pending[0] == key_of(rq.url));
            assert(c_pre.pending.contains(key_of(rv.url())));
        }
        let step = c.on_result(res);
        let ghost sv = step@;
        proof {
            assert((c@, sv) == step_result_spec(c_pre, rv));
            lemma_lookup_keys(pages, key_of(rq.url));
            assert(match rv {
                ResView::Success { links, .. } => forall|i: int|
                    0 <= i < links.len() ==> u.contains(key_of(#[trigger] links[i])),
                ResView::Failure { .. } => true,
            });
            lemma_step_universe(c_pre, rv, u);
            // the result's key was pending, so one more page is visited
            assert(c@.visited == c_pre.visited.push(key_of(rv.url())));
            fuel = (fuel - 1) as nat;
        }
        let StepOutput { requests: mut reqs, probe: _, output } = step;
        let ghost rqs = sv.requests;
        let ghost qv_mid = reqs_view(queue@);
        let ghost mut pushed: int = 0;
        proof {
            assert(reqs_view(reqs@) == rqs);
            assert(rqs.skip(0) =~= rqs);
            assert(qv_mid + rqs.take(0) =~= qv_mid);
        }
        while 0 < reqs.len()
            invariant
                0 <= pushed,
                pushed + reqs@.len() == rqs.len(),
                reqs_view(reqs@) =~= rqs.skip(pushed),
                reqs_view(queue@) == qv_mid + rqs.take(pushed),
            decreases reqs.len(),
        {
            let ghost q_exec_pre = queue@;
            let r = reqs.remove(0);
            proof {
                assert(r@ == rqs.skip(pushed).first());
                assert(r@ == rqs[pushed]);
                assert(reqs_view(reqs@) =~= rqs.skip(pushed).drop_first());
                assert(rqs.skip(pushed).drop_first() =~= rqs.skip(pushed + 1));
            }
            queue.push(r);
            proof {
                crate::protocol::lemma_reqs_push(q_exec_pre, queue@.last());
                assert(reqs_view(queue@) =~= qv_mid + rqs.take(pushed + 1));
                pushed = pushed + 1;
            }
        }
        proof {
            assert(rqs.take(rqs.len() as int) =~= rqs);
            assert(reqs_view(queue@) == qv_mid + rqs);
            assert(reqs_view(queue@) == qv_pre.drop_first() + rqs);
        }
        match output {
            Some(o) => {
                found = Some(o);
                proof {
                    assert(sv.output == Some(o@));
                    assert(crawl_steps(c_pre, qv_pre, pages, fuel_pre) == Some(o@));
                    // only the goal step of a path crawl can end here, and its
                    // route is the popped request's trail plus the target key
                    match md {
                        ModeView::Graph => {
                            assert(sv.output is None);
                        },
                        ModeView::Path { target_key } => {
                            match rv {
                                ResView::Success { links, trail, .. } => {
                                    let t0 = trail_of(rq.trail);
                                    assert(rq.trail matches Some(t) && t == t0 && t0.len() >= 1
                                        && t0[0] == seed_key && t0[t0.len() - 1] == key_of(rq.url)
                                        && trail_connected(pages, t0));
                                    assert(lookup(pages, key_of(rq.url)) == Some((true, links)));
                                    assert(crate::coordinator::goal_hit(links, target_key));
                                    let gi = choose|gi: int|
                                        0 <= gi < links.len() && key_of(links[gi]) == target_key;
                                    assert(fixture_linked(pages, key_of(rq.url), target_key));
                                    let route = t0.push(target_key);
                                    assert(o@ == (OutView::Path {
                                        route,
                                        visits: c@.visited.len() as int,
                                    }));
                                    assert forall|ii: int|
                                        0 <= ii < route.len() - 1 implies #[trigger] fixture_linked(
                                        pages,
                                        route[ii],
                                        route[ii + 1],
                                    ) by {
                                        if ii < t0.len() - 1 {
                                            assert(route[ii] == t0[ii]);
                                            assert(route[ii + 1] == t0[ii + 1]);
                                            assert(fixture_linked(pages, t0[ii], t0[ii + 1]));
                                        } else {
                                            assert(route[ii] == t0[t0.len() - 1]);
                                            assert(route[ii + 1] == target_key);
                                        }
                                    }
                                    assert(trail_connected(pages, route));
                                },
                                ResView::Failure { .. } => {
                                    assert(sv.output is None);
                                },
                            }
                        },
                    }
                }
            },
            None => {
                proof {
                    assert(sv.output is None);
                    assert(crawl_steps(c_pre, qv_pre, pages, fuel_pre) == crawl_steps(
                        c@,
                        qv_pre.drop_first() + rqs,
                        pages,
                        fuel,
                    ));
                    // the result's key was the queue's head, hence pending's head
                    let k = key_of(rv.url());
                    c_pre.pending.index_of_first_ensures(k);
                    let idx = c_pre.pending.index_of_first(k).unwrap();
                    assert(c_pre.pending[0] == k);
                    if idx > 0 {
                        assert(c_pre.pending[0] != k);
                    }
                    let pending1 = c_pre.pending.remove_value(k);
                    assert(pending1 =~= c_pre.pending.drop_first());
                    // the emitted requests carry the fresh raw links, whose
                    // keys are exactly what was appended to pending
                    match rv {
                        ResView::Success { links, trail, .. } => {
                            let known = pending1 + c_pre.visited.push(k);
                            let fresh = fresh_links(links, known, c_pre.deny);
                            lemma_fresh_links(links, known, c_pre.deny);
                            assert forall|j: int| 0 <= j < rqs.len() implies key_of(
                                (#[trigger] rqs[j]).url,
                            ) == keys_of(fresh)[j] by {
                                assert(rqs[j].url == fresh[j]);
                                assert(keys_of(fresh)[j] == key_of(fresh[j]));
                            }
                            assert(c@.pending == pending1 + keys_of(fresh));
                        },
                        ResView::Failure { .. } => {
                            assert(c@.pending == pending1);
                            assert(rqs.len() == 0);
                        },
                    }
                    // queue keys still mirror pending
                    assert forall|j: int|
                        0 <= j < req_keys(reqs_view(queue@)).len() implies req_keys(
                        reqs_view(queue@),
                    )[j] == c@.pending[j] by {
                        if j < qv_pre.len() - 1 {
                            assert(reqs_view(queue@)[j] == qv_pre[j + 1]);
                            assert(req_keys(qv_pre)[j + 1] == c_pre.pending[j + 1]);
                        } else {
                            assert(reqs_view(queue@)[j] == rqs[j - (qv_pre.len() - 1)]);
                        }
                    }
                    assert(req_keys(reqs_view(queue@)) =~= c@.pending);
                    // trails in the queue still match the mode, stay rooted at
                    // the seed, end in their own key and follow observed links
                    assert forall|i: int| 0 <= i < queue@.len() implies (match md {
                        ModeView::Graph => (#[trigger] queue@[i])@.trail is None,
                        ModeView::Path { .. } => (queue@[i]@.trail matches Some(t) && t.len() >= 1
                            && t[0] == seed_key && t[t.len() - 1] == key_of(queue@[i]@.url)
                            && trail_connected(pages, t)),
                    }) by {
                        assert(reqs_view(queue@)[i] == queue@[i]@);
                        if i < qv_pre.len() - 1 {
                            assert(queue@[i]@ == qv_pre[i + 1]);
                        } else {
                            assert(queue@[i]@ == rqs[i - (qv_pre.len() - 1)]);
                            match md {
                                ModeView::Graph => {},
                                ModeView::Path { .. } => {
                                    match rv {
                                        ResView::Success { links, trail, .. } => {
                                            let j = i - (qv_pre.len() - 1);
                                            let known = pending1 + c_pre.visited.push(k);
                                            let fresh = fresh_links(links, known, c_pre.deny);
                                            lemma_fresh_links(links, known, c_pre.deny);
                                            let t0 = trail_of(rq.trail);
                                            assert(rq.trail matches Some(t) && t == t0
                                                && t0.len() >= 1 && t0[0] == seed_key
                                                && t0[t0.len() - 1] == key_of(rq.url)
                                                && trail_connected(pages, t0));
                                            assert(rqs[j] == (ReqView {
                                                url: fresh[j],
                                                trail: Some(t0.push(key_of(fresh[j]))),
                                            }));
                                            let tn = t0.push(key_of(fresh[j]));
                                            assert(lookup(pages, key_of(rq.url)) == Some(
                                                (true, links),
                                            ));
                                            let lj = choose|lj: int|
                                                0 <= lj < links.len() && fresh[j] == links[lj];
                                            assert(key_of(links[lj]) == key_of(fresh[j]));
                                            assert(fixture_linked(
                                                pages,
                                                key_of(rq.url),
                                                key_of(fresh[j]),
                                            ));
                                            assert forall|ii: int|
                                                0 <= ii < tn.len()
                                                    - 1 implies #[trigger] fixture_linked(
                                                pages,
                                                tn[ii],
                                                tn[ii + 1],
                                            ) by {
                                                if ii < t0.len() - 1 {
                                                    assert(tn[ii] == t0[ii]);
                                                    assert(tn[ii + 1] == t0[ii + 1]);
                                                    assert(fixture_linked(
                                                        pages,
                                                        t0[ii],
                                                        t0[ii + 1],
                                                    ));
                                                } else {
                                                    assert(tn[ii] == t0[t0.len() - 1]);
                                                    assert(tn[ii + 1] == key_of(fresh[j]));
                                                }
                                            }
                                            assert(trail_connected(pages, tn));
                                        },
                                        ResView::Failure { .. } => {
                                            assert(rqs.len() == 0);
                                        },
                                    }
                                },
                            }
                        }
                    }
                    assert(queue@.len() == 0 ==> c@.phase == (Phase::ProbeSent {
                        confirmed: false,
                    }));
                }
            },
        }
    }

    match found {
        Some(o) => o,
        None => {
            proof {
                lemma_visited_bound(c@, u);
                assert(fuel >= 1);
                assert(reqs_view(queue@) =~= Seq::<ReqView>::empty());
                assert(req_keys(Seq::<ReqView>::empty()) =~= Seq::<UrlView>::empty());
                assert(c@.pending.len() == 0);
            }
            let ghost c_end = c@;
            let s1 = c.on_probe_echo();
            let s2 = c.on_probe_echo();
            proof {
                assert(crawl_steps(c_end, Seq::<ReqView>::empty(), pages, fuel) == s2@.output);
            }
            match s2.output {
                Some(o) => o,
                None => {
                    proof {
                        assert(false);
                    }
                    Output::Unreachable { visits: 0 }
                },
            }
        },
    }
}

} // verus!
