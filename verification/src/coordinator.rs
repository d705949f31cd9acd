use vstd::prelude::*;
use crate::page::{
    contains_url, dup_urls, is_key, key_of, path_disallowed, url_eq, views_of, PageUrl, UrlView,
};
use crate::protocol::{
    dup_entries, entries_view, opt_trail_view, reqs_view, FetchRequest, FetchResult, GraphEntry,
    OutView, Output, ReqView, ResView,
};

verus! {

/// Which visit policy drives the crawl: accumulate a link graph, or search
/// for the page with the given identity key.
pub enum Mode {
    Graph,
    Path { target_key: PageUrl },
}

/// The view of a mode.
pub enum ModeView {
    Graph,
    Path { target_key: UrlView },
}

impl View for Mode {
    type V = ModeView;

    open spec fn view(&self) -> ModeView {
        match self {
            Mode::Graph => ModeView::Graph,
            Mode::Path { target_key } => ModeView::Path { target_key: target_key@ },
        }
    }
}

/// The termination-detection state.  A probe is sent when a step yields no
/// new work; only two consecutive echoes with no new-request-producing
/// result in between prove quiescence.
#[derive(Clone, Copy, Debug, PartialEq, Eq, Structural)]
pub enum Phase {
    Running,
    ProbeSent { confirmed: bool },
    Terminated,
}

/// The crawl state, owned by the coordinator alone.  `pending` holds the
/// identity keys that were requested and not yet resolved, `visited` those
/// that resolved (with success or failure), in resolution order.  In graph
/// mode `graph` holds one entry per visited key, in the same order.
pub struct Coordinator {
    pub mode: Mode,
    pub phase: Phase,
    pub pending: Vec<PageUrl>,
    pub visited: Vec<PageUrl>,
    pub graph: Vec<GraphEntry>,
    pub deny: Vec<String>,
}

/// The view of the crawl state.
pub struct CoordView {
    pub mode: ModeView,
    pub phase: Phase,
    pub pending: Seq<UrlView>,
    pub visited: Seq<UrlView>,
    pub graph: Seq<(UrlView, Seq<UrlView>)>,
    pub deny: Seq<Seq<char>>,
}

impl View for Coordinator {
    type V = CoordView;

    open spec fn view(&self) -> CoordView {
        CoordView {
            mode: self.mode@,
            phase: self.phase,
            pending: views_of(self.pending@),
            visited: views_of(self.visited@),
            graph: entries_view(self.graph@),
            deny: self.deny.deep_view(),
        }
    }
}

/// What one step hands back: fetch requests to submit, whether to send the
/// probe signal, and the final output once the crawl is over.
pub struct StepOutput {
    pub requests: Vec<FetchRequest>,
    pub probe: bool,
    pub output: Option<Output>,
}

/// The view of a step's output.
pub struct StepView {
    pub requests: Seq<ReqView>,
    pub probe: bool,
    pub output: Option<OutView>,
}

impl View for StepOutput {
    type V = StepView;

    open spec fn view(&self) -> StepView {
        StepView {
            requests: reqs_view(self.requests@),
            probe: self.probe,
            output: match self.output {
                Some(o) => Some(o@),
                None => None,
            },
        }
    }
}

/// A step with nothing to do: no requests, no probe, no output.
pub open spec fn quiet_step() -> StepView {
    StepView { requests: Seq::empty(), probe: false, output: None }
}

/// Well-formedness of the crawl state: pending and visited hold identity
/// keys, without duplicates and disjoint from one another; in graph mode
/// the graph has exactly one entry per visited key, in visit order; in path
/// mode the graph is unused and the target is an identity key.
pub open spec fn wf(c: CoordView) -> bool {
    &&& c.pending.no_duplicates()
    &&& c.visited.no_duplicates()
    &&& c.pending.disjoint(c.visited)
    &&& forall|i: int| 0 <= i < c.pending.len() ==> is_key(#[trigger] c.pending[i])
    &&& forall|i: int| 0 <= i < c.visited.len() ==> is_key(#[trigger] c.visited[i])
    &&& match c.mode {
        ModeView::Graph => c.graph.map_values(|e: (UrlView, Seq<UrlView>)| e.0) == c.visited,
        ModeView::Path { target_key } => c.graph.len() == 0 && is_key(target_key),
    }
}

/// What the coordinator asks of every fetch result: the trail is carried in
/// path mode and absent in graph mode.
pub open spec fn result_wf(r: ResView, mode: ModeView) -> bool {
    match mode {
        ModeView::Graph => r.trail() is None,
        ModeView::Path { .. } => r.trail() is Some,
    }
}

/// The identity keys of a sequence of URLs, in order.
pub open spec fn keys_of(s: Seq<UrlView>) -> Seq<UrlView> {
    s.map_values(|u: UrlView| key_of(u))
}

/// The links of a page that are new work, in their raw form: not
/// denylisted, their key not in `known`, and their key not already picked
/// further left in `links`.  Order and the first-seen raw form are kept;
/// dedup goes by the identity key throughout.
pub open spec fn fresh_links(links: Seq<UrlView>, known: Seq<UrlView>, deny: Seq<Seq<char>>) -> Seq<
    UrlView,
>
    decreases links.len(),
{
    if links.len() == 0 {
        Seq::empty()
    } else {
        let rest = fresh_links(links.drop_last(), known, deny);
        let l = links.last();
        let k = key_of(l);
        if !path_disallowed(l.path, deny) && !known.contains(k) && !keys_of(rest).contains(k) {
            rest.push(l)
        } else {
            rest
        }
    }
}

/// The requests for a sequence of fresh links: each is fetched in its raw
/// form, query and fragment preserved; in path mode each request's trail
/// is the incoming trail extended by the link's identity key.
pub open spec fn reqs_of(fresh: Seq<UrlView>, trail: Option<Seq<UrlView>>) -> Seq<ReqView> {
    fresh.map_values(
        |l: UrlView|
            ReqView {
                url: l,
                trail: match trail {
                    Some(t) => Some(t.push(key_of(l))),
                    None => None,
                },
            },
    )
}

/// Whether some link's identity key is the target's.
pub open spec fn goal_hit(links: Seq<UrlView>, target_key: UrlView) -> bool {
    exists|i: int| 0 <= i < links.len() && key_of(#[trigger] links[i]) == target_key
}

/// The trail a result carries, empty when it carries none.
pub open spec fn trail_of(t: Option<Seq<UrlView>>) -> Seq<UrlView> {
    match t {
        Some(s) => s,
        None => Seq::empty(),
    }
}

/// The phase after a step that produced no new requests: a running
/// coordinator sends a probe; one that already probed keeps its count.
pub open spec fn quiet_phase(p: Phase) -> Phase {
    match p {
        Phase::Running => Phase::ProbeSent { confirmed: false },
        _ => p,
    }
}

/// What the crawl hands back when quiescence is proven: the graph, or the
/// mark that the target was never found.
pub open spec fn quiescent_output(c: CoordView) -> OutView {
    match c.mode {
        ModeView::Graph => OutView::Graph { pages: c.graph },
        ModeView::Path { .. } => OutView::Unreachable { visits: c.visited.len() as int },
    }
}

/// The coordinator's transition on one fetch result.
///
/// A result is dropped when the crawl is over or when its key is not
/// outstanding.  Otherwise its key moves from pending to visited; in graph
/// mode the observed links are recorded (all of them, a failure as an empty
/// set); in path mode a link whose key is the target ends the crawl with
/// the extended trail.  Fresh links are handed out as requests in their
/// raw form while their identity keys become pending; a step with no
/// fresh links starts the probe round.
pub open spec fn step_result_spec(c: CoordView, r: ResView) -> (CoordView, StepView) {
    if c.phase is Terminated {
        (c, quiet_step())
    } else {
        let k = key_of(r.url());
        if !c.pending.contains(k) {
            (c, quiet_step())
        } else {
            let pending1 = c.pending.remove_value(k);
            let visited1 = c.visited.push(k);
            match r {
                ResView::Success { url, links, trail } => {
                    match c.mode {
                        ModeView::Graph => {
                            let fresh = fresh_links(links, pending1 + visited1, c.deny);
                            let quiet = fresh.len() == 0;
                            let c1 = CoordView {
                                phase: if quiet {
                                    quiet_phase(c.phase)
                                } else {
                                    Phase::Running
                                },
                                pending: pending1 + keys_of(fresh),
                                visited: visited1,
                                graph: c.graph.push((k, links)),
                                ..c
                            };
                            let out = StepView {
                                requests: reqs_of(fresh, None),
                                probe: quiet && c.phase is Running,
                                output: None,
                            };
                            (c1, out)
                        },
                        ModeView::Path { target_key } => {
                            if goal_hit(links, target_key) {
                                let c1 = CoordView {
                                    phase: Phase::Terminated,
                                    pending: pending1,
                                    visited: visited1,
                                    ..c
                                };
                                let out = StepView {
                                    requests: Seq::empty(),
                                    probe: false,
                                    output: Some(
                                        OutView::Path {
                                            route: trail_of(trail).push(target_key),
                                            visits: visited1.len() as int,
                                        },
                                    ),
                                };
                                (c1, out)
                            } else {
                                let fresh = fresh_links(links, pending1 + visited1, c.deny);
                                let quiet = fresh.len() == 0;
                                let c1 = CoordView {
                                    phase: if quiet {
                                        quiet_phase(c.phase)
                                    } else {
                                        Phase::Running
                                    },
                                    pending: pending1 + keys_of(fresh),
                                    visited: visited1,
                                    ..c
                                };
                                let out = StepView {
                                    requests: reqs_of(fresh, trail),
                                    probe: quiet && c.phase is Running,
                                    output: None,
                                };
                                (c1, out)
                            }
                        },
                    }
                },
                ResView::Failure { url, trail } => {
                    let c1 = CoordView {
                        phase: quiet_phase(c.phase),
                        pending: pending1,
                        visited: visited1,
                        graph: match c.mode {
                            ModeView::Graph => c.graph.push((k, Seq::empty())),
                            ModeView::Path { .. } => c.graph,
                        },
                        ..c
                    };
                    let out = StepView {
                        requests: Seq::empty(),
                        probe: c.phase is Running,
                        output: None,
                    };
                    (c1, out)
                },
            }
        }
    }
}

/// The coordinator's transition on a probe echo.  A first echo is answered
/// with one more probe; a second consecutive echo, with no request left
/// outstanding, proves quiescence and ends the crawl.  Echoes in any other
/// state are stale and dropped.
pub open spec fn step_echo_spec(c: CoordView) -> (CoordView, StepView) {
    match c.phase {
        Phase::ProbeSent { confirmed } => {
            if !confirmed {
                let c1 = CoordView { phase: Phase::ProbeSent { confirmed: true }, ..c };
                let out = StepView { requests: Seq::empty(), probe: true, output: None };
                (c1, out)
            } else if c.pending.len() == 0 {
                let c1 = CoordView { phase: Phase::Terminated, ..c };
                let out = StepView {
                    requests: Seq::empty(),
                    probe: false,
                    output: Some(quiescent_output(c)),
                };
                (c1, out)
            } else {
                (c, quiet_step())
            }
        },
        _ => (c, quiet_step()),
    }
}

/// An element is in a concatenation exactly when it is in one of the parts.
pub proof fn lemma_contains_concat<A>(a: Seq<A>, b: Seq<A>, x: A)
    ensures
        (a + b).contains(x) <==> a.contains(x) || b.contains(x),
{
    if a.contains(x) {
        let i = choose|i: int| 0 <= i < a.len() && a[i] == x;
        assert((a + b)[i] == x);
    }
    if b.contains(x) {
        let i = choose|i: int| 0 <= i < b.len() && b[i] == x;
        assert((a + b)[a.len() + i] == x);
    }
    if (a + b).contains(x) {
        let i = choose|i: int| 0 <= i < (a + b).len() && (a + b)[i] == x;
        if i < a.len() {
            assert(a[i] == x);
        } else {
            assert(b[i - a.len()] == x);
        }
    }
}

/// What holds of a step's fresh links: their keys are free of
/// duplicates, none was previously known, none is denylisted; each fresh
/// link is one of the page's links, and every link that is neither
/// denylisted nor known gets its key picked.
pub proof fn lemma_fresh_links(links: Seq<UrlView>, known: Seq<UrlView>, deny: Seq<Seq<char>>)
    ensures
        keys_of(fresh_links(links, known, deny)).no_duplicates(),
        forall|i: int|
            0 <= i < fresh_links(links, known, deny).len() ==> !known.contains(
                key_of(#[trigger] fresh_links(links, known, deny)[i]),
            ),
        forall|i: int|
            0 <= i < fresh_links(links, known, deny).len() ==> !path_disallowed(
                (#[trigger] fresh_links(links, known, deny)[i]).path,
                deny,
            ),
        forall|i: int|
            0 <= i < fresh_links(links, known, deny).len() ==> exists|j: int|
                0 <= j < links.len() && #[trigger] fresh_links(links, known, deny)[i] == links[j],
        forall|j: int|
            0 <= j < links.len() && !path_disallowed((#[trigger] links[j]).path, deny)
                && !known.contains(key_of(links[j])) ==> keys_of(
                fresh_links(links, known, deny),
            ).contains(key_of(links[j])),
    decreases links.len(),
{
    if links.len() == 0 {
    } else {
        let prefix = links.drop_last();
        lemma_fresh_links(prefix, known, deny);
        let rest = fresh_links(prefix, known, deny);
        let l = links.last();
        let k = key_of(l);
        let fresh = fresh_links(links, known, deny);
        assert(forall|j: int| 0 <= j < prefix.len() ==> prefix[j] == links[j]);
        if !path_disallowed(l.path, deny) && !known.contains(k) && !keys_of(rest).contains(k) {
            assert(fresh == rest.push(l));
            assert(keys_of(fresh) =~= keys_of(rest).push(k));
            assert(fresh[fresh.len() - 1] == links[links.len() - 1]);
            assert(forall|i: int| 0 <= i < rest.len() ==> fresh[i] == rest[i]);
            assert(forall|i: int|
                0 <= i < keys_of(rest).len() ==> keys_of(fresh)[i] == keys_of(rest)[i]);
            assert forall|j: int|
                0 <= j < links.len() && !path_disallowed((#[trigger] links[j]).path, deny)
                    && !known.contains(key_of(links[j])) implies keys_of(fresh).contains(
                key_of(links[j]),
            ) by {
                if j < prefix.len() {
                    if keys_of(rest).contains(key_of(links[j])) {
                        let i = choose|i: int|
                            0 <= i < keys_of(rest).len() && keys_of(rest)[i] == key_of(links[j]);
                        assert(keys_of(fresh)[i] == key_of(links[j]));
                    }
                } else {
                    assert(keys_of(fresh)[keys_of(fresh).len() - 1] == key_of(links[j]));
                }
            }
        } else {
            assert(fresh == rest);
            assert forall|j: int|
                0 <= j < links.len() && !path_disallowed((#[trigger] links[j]).path, deny)
                    && !known.contains(key_of(links[j])) implies keys_of(fresh).contains(
                key_of(links[j]),
            ) by {
                if j < prefix.len() {
                } else {
                    assert(links[j] == l);
                    assert(keys_of(rest).contains(k));
                }
            }
        }
    }
}

/// Appending a batch of fresh keys, none previously known and mutually
/// distinct, keeps pending duplicate-free, disjoint from visited, and made
/// of identity keys.
proof fn lemma_pending_extension(pending1: Seq<UrlView>, visited1: Seq<UrlView>, fresh: Seq<UrlView>)
    requires
        pending1.no_duplicates(),
        visited1.no_duplicates(),
        pending1.disjoint(visited1),
        keys_of(fresh).no_duplicates(),
        forall|i: int|
            0 <= i < fresh.len() ==> !(pending1 + visited1).contains(
                key_of(#[trigger] fresh[i]),
            ),
        forall|i: int| 0 <= i < pending1.len() ==> is_key(#[trigger] pending1[i]),
    ensures
        (pending1 + keys_of(fresh)).no_duplicates(),
        (pending1 + keys_of(fresh)).disjoint(visited1),
        forall|i: int|
            0 <= i < (pending1 + keys_of(fresh)).len() ==> is_key(
                #[trigger] (pending1 + keys_of(fresh))[i],
            ),
{
    let pending2 = pending1 + keys_of(fresh);
    assert forall|i: int, j: int|
        0 <= i < pending2.len() && 0 <= j < pending2.len() && i != j implies pending2[i]
        != pending2[j] by {
        if i >= pending1.len() && j < pending1.len() {
            lemma_contains_concat(pending1, visited1, keys_of(fresh)[i - pending1.len()]);
            assert(keys_of(fresh)[i - pending1.len()] == key_of(fresh[i - pending1.len()]));
            assert(pending1.contains(pending2[j]));
        } else if j >= pending1.len() && i < pending1.len() {
            lemma_contains_concat(pending1, visited1, keys_of(fresh)[j - pending1.len()]);
            assert(keys_of(fresh)[j - pending1.len()] == key_of(fresh[j - pending1.len()]));
            assert(pending1.contains(pending2[i]));
        }
    }
    assert forall|i: int, j: int|
        0 <= i < pending2.len() && 0 <= j < visited1.len() implies pending2[i]
        != visited1[j] by {
        if i >= pending1.len() {
            lemma_contains_concat(pending1, visited1, keys_of(fresh)[i - pending1.len()]);
            assert(keys_of(fresh)[i - pending1.len()] == key_of(fresh[i - pending1.len()]));
            if pending2[i] == visited1[j] {
                assert(visited1.contains(keys_of(fresh)[i - pending1.len()]));
            }
        }
    }
    assert forall|i: int| 0 <= i < pending2.len() implies is_key(#[trigger] pending2[i]) by {
        if i >= pending1.len() {
            assert(pending2[i] == key_of(fresh[i - pending1.len()]));
        }
    }
}

/// A well-formed state stays well formed under any result step.
pub proof fn lemma_step_result_wf(c: CoordView, r: ResView)
    requires
        wf(c),
        result_wf(r, c.mode),
    ensures
        wf(step_result_spec(c, r).0),
{
    if c.phase is Terminated {
    } else {
        let k = key_of(r.url());
        if c.pending.contains(k) {
            let pending1 = c.pending.remove_value(k);
            let visited1 = c.visited.push(k);
            c.pending.index_of_first_ensures(k);
            let pi = c.pending.index_of_first(k).unwrap();
            assert(pending1 == c.pending.remove(pi));
            assert(forall|j: int|
                0 <= j < pending1.len() ==> pending1[j] == (if j < pi {
                    c.pending[j]
                } else {
                    c.pending[j + 1]
                }));
            assert(pending1.no_duplicates());
            assert(pending1.disjoint(c.visited));
            assert(is_key(k));
            assert(visited1.no_duplicates());
            assert(pending1.disjoint(visited1));
            let known = pending1 + visited1;
            match r {
                ResView::Success { url, links, trail } => {
                    match c.mode {
                        ModeView::Graph => {
                            let fresh = fresh_links(links, known, c.deny);
                            lemma_fresh_links(links, known, c.deny);
                            lemma_pending_extension(pending1, visited1, fresh);
                            let c1 = step_result_spec(c, r).0;
                            assert(c1.graph.map_values(|e: (UrlView, Seq<UrlView>)| e.0) =~= (
                            c.graph.push((k, links))).map_values(
                                |e: (UrlView, Seq<UrlView>)| e.0,
                            ));
                            assert(c1.graph.map_values(|e: (UrlView, Seq<UrlView>)| e.0)
                                =~= visited1);
                        },
                        ModeView::Path { target_key } => {
                            if goal_hit(links, target_key) {
                            } else {
                                let fresh = fresh_links(links, known, c.deny);
                                lemma_fresh_links(links, known, c.deny);
                                lemma_pending_extension(pending1, visited1, fresh);
                            }
                        },
                    }
                },
                ResView::Failure { url, trail } => {
                    match c.mode {
                        ModeView::Graph => {
                            let c1 = step_result_spec(c, r).0;
                            assert(c1.graph.map_values(|e: (UrlView, Seq<UrlView>)| e.0)
                                =~= visited1);
                        },
                        ModeView::Path { .. } => {},
                    }
                },
            }
        }
    }
}

/// A well-formed state stays well formed under a probe echo.
pub proof fn lemma_step_echo_wf(c: CoordView)
    requires
        wf(c),
    ensures
        wf(step_echo_spec(c).0),
{
}

/// Dedup law: a step never hands out a request whose identity key was
/// already requested.  Every emitted request's key was neither pending nor
/// visited before the step, is pending after it, and no two requests of
/// one step share a key; and the set of keys ever requested only grows.
/// Over any run this means no identity key is submitted to the fetcher
/// twice.
pub proof fn lemma_dedup(c: CoordView, r: ResView)
    requires
        wf(c),
        result_wf(r, c.mode),
    ensures
        forall|i: int|
            0 <= i < step_result_spec(c, r).1.requests.len() ==> !c.pending.contains(
                key_of((#[trigger] step_result_spec(c, r).1.requests[i]).url),
            ) && !c.visited.contains(key_of(step_result_spec(c, r).1.requests[i].url)),
        forall|i: int|
            0 <= i < step_result_spec(c, r).1.requests.len() ==> step_result_spec(
                c,
                r,
            ).0.pending.contains(key_of((#[trigger] step_result_spec(c, r).1.requests[i]).url)),
        forall|i: int, j: int|
            0 <= i < step_result_spec(c, r).1.requests.len() && 0 <= j < step_result_spec(
                c,
                r,
            ).1.requests.len() && i != j ==> key_of(
                (#[trigger] step_result_spec(c, r).1.requests[i]).url,
            ) != key_of((#[trigger] step_result_spec(c, r).1.requests[j]).url),
        forall|x: UrlView|
            (c.pending + c.visited).contains(x) ==> (step_result_spec(c, r).0.pending
                + step_result_spec(c, r).0.visited).contains(x),
{
    let (c1, out) = step_result_spec(c, r);
    if c.phase is Terminated {
        assert forall|x: UrlView| (c.pending + c.visited).contains(x) implies (c1.pending
            + c1.visited).contains(x) by {}
    } else {
        let k = key_of(r.url());
        if !c.pending.contains(k) {
        } else {
            let pending1 = c.pending.remove_value(k);
            let visited1 = c.visited.push(k);
            c.pending.index_of_first_ensures(k);
            let known = pending1 + visited1;
            assert forall|x: UrlView| (c.pending + c.visited).contains(x) implies (c1.pending
                + c1.visited).contains(x) by {
                lemma_contains_concat(c.pending, c.visited, x);
                lemma_contains_concat(c1.pending, c1.visited, x);
                if x == k {
                    assert(visited1[c.visited.len() as int] == k);
                    assert(visited1.contains(x));
                } else if c.pending.contains(x) {
                    let i = choose|i: int| 0 <= i < c.pending.len() && c.pending[i] == x;
                    let pi = c.pending.index_of_first(k).unwrap();
                    if i < pi {
                        assert(pending1[i] == x);
                    } else {
                        assert(pending1[i - 1] == x);
                    }
                    assert(pending1.contains(x));
                    if c1.pending == pending1 {
                    } else {
                        lemma_contains_concat(
                            pending1,
                            c1.pending.subrange(pending1.len() as int, c1.pending.len() as int),
                            x,
                        );
                        assert(c1.pending =~= pending1 + c1.pending.subrange(
                            pending1.len() as int,
                            c1.pending.len() as int,
                        ));
                    }
                } else {
                    assert(c.visited.contains(x));
                    let i = choose|i: int| 0 <= i < c.visited.len() && c.visited[i] == x;
                    assert(visited1[i] == x);
                    assert(visited1.contains(x));
                }
            }
            match r {
                ResView::Success { url, links, trail } => {
                    let is_goal = match c.mode {
                        ModeView::Path { target_key } => goal_hit(links, target_key),
                        ModeView::Graph => false,
                    };
                    if !is_goal {
                        let fresh = fresh_links(links, known, c.deny);
                        lemma_fresh_links(links, known, c.deny);
                        assert(out.requests =~= reqs_of(
                            fresh,
                            match c.mode {
                                ModeView::Graph => None,
                                ModeView::Path { .. } => trail,
                            },
                        ));
                        assert forall|i: int|
                            0 <= i < out.requests.len() implies !c.pending.contains(
                            key_of((#[trigger] out.requests[i]).url),
                        ) && !c.visited.contains(key_of(out.requests[i].url)) by {
                            assert(out.requests[i].url == fresh[i]);
                            let fk = key_of(fresh[i]);
                            assert(!known.contains(fk));
                            lemma_contains_concat(pending1, visited1, fk);
                            if c.pending.contains(fk) {
                                let pi = c.pending.index_of_first(k).unwrap();
                                let j = choose|j: int|
                                    0 <= j < c.pending.len() && c.pending[j] == fk;
                                if fk == k {
                                    assert(visited1[c.visited.len() as int] == k);
                                    assert(visited1.contains(fk));
                                } else {
                                    if j < pi {
                                        assert(pending1[j] == fk);
                                    } else {
                                        assert(pending1[j - 1] == fk);
                                    }
                                }
                            }
                            if c.visited.contains(fk) {
                                let j = choose|j: int|
                                    0 <= j < c.visited.len() && c.visited[j] == fk;
                                assert(visited1[j] == fk);
                            }
                        }
                        assert forall|i: int|
                            0 <= i < out.requests.len() implies c1.pending.contains(
                            key_of((#[trigger] out.requests[i]).url),
                        ) by {
                            assert(c1.pending == pending1 + keys_of(fresh));
                            assert(c1.pending[pending1.len() + i] == keys_of(fresh)[i]);
                            assert(keys_of(fresh)[i] == key_of(fresh[i]));
                        }
                        assert forall|i: int, j: int|
                            0 <= i < out.requests.len() && 0 <= j < out.requests.len() && i
                                != j implies key_of((#[trigger] out.requests[i]).url) != key_of(
                            (#[trigger] out.requests[j]).url,
                        ) by {
                            assert(keys_of(fresh)[i] == key_of(fresh[i]));
                            assert(keys_of(fresh)[j] == key_of(fresh[j]));
                        }
                    }
                },
                ResView::Failure { .. } => {},
            }
        }
    }
}

/// Filter law: no request emitted by a step names a URL whose path ends in
/// one of the denylisted extensions.
pub proof fn lemma_filter(c: CoordView, r: ResView)
    requires
        wf(c),
        result_wf(r, c.mode),
    ensures
        forall|i: int|
            0 <= i < step_result_spec(c, r).1.requests.len() ==> !path_disallowed(
                (#[trigger] step_result_spec(c, r).1.requests[i]).url.path,
                c.deny,
            ),
{
    let (c1, out) = step_result_spec(c, r);
    if c.phase is Terminated {
    } else {
        let k = key_of(r.url());
        if c.pending.contains(k) {
            let pending1 = c.pending.remove_value(k);
            let visited1 = c.visited.push(k);
            let known = pending1 + visited1;
            match r {
                ResView::Success { url, links, trail } => {
                    lemma_fresh_links(links, known, c.deny);
                },
                ResView::Failure { .. } => {},
            }
        }
    }
}

/// Termination soundness (the safety half): the quiescence protocol only
/// ever emits the final output when no request is outstanding, and a
/// finished coordinator ignores everything.
pub proof fn lemma_no_early_termination(c: CoordView, r: ResView)
    requires
        wf(c),
    ensures
        step_echo_spec(c).1.output is Some ==> step_echo_spec(c).0.pending.len() == 0,
        c.phase is Terminated ==> step_echo_spec(c).0 == c && step_result_spec(c, r).0 == c,
        c.phase is Terminated ==> step_echo_spec(c).1 == quiet_step() && step_result_spec(c, r).1
            == quiet_step(),
{
}

/// Whether some URL in `v` has the identity key `k@`.
fn contains_key(v: &Vec<PageUrl>, k: &PageUrl) -> (r: bool)
    ensures
        r == keys_of(views_of(v@)).contains(k@),
{
    let mut i: usize = 0;
    while i < v.len()
        invariant
            i <= v.len(),
            forall|j: int| 0 <= j < i ==> keys_of(views_of(v@))[j] != k@,
        decreases v.len() - i,
    {
        let ki = v[i].identity_key();
        if url_eq(&ki, k) {
            assert(keys_of(views_of(v@))[i as int] == k@);
            return true;
        }
        i += 1;
    }
    false
}

/// Collects the fresh links of a page, left to right and in raw form: a
/// link is kept when it is not denylisted and its identity key is neither
/// pending, visited, nor already picked.
fn compute_fresh(
    links: &Vec<PageUrl>,
    pending: &Vec<PageUrl>,
    visited: &Vec<PageUrl>,
    deny: &Vec<String>,
) -> (fresh: Vec<PageUrl>)
    ensures
        views_of(fresh@) == fresh_links(
            views_of(links@),
            views_of(pending@) + views_of(visited@),
            deny.deep_view(),
        ),
{
    let ghost lks = views_of(links@);
    let ghost known = views_of(pending@) + views_of(visited@);
    let ghost dv = deny.deep_view();
    let mut fresh: Vec<PageUrl> = Vec::new();
    let mut i: usize = 0;
    proof {
        assert(views_of(fresh@) =~= fresh_links(lks.take(0), known, dv));
    }
    while i < links.len()
        invariant
            i <= links.len(),
            lks == views_of(links@),
            known == views_of(pending@) + views_of(visited@),
            dv == deny.deep_view(),
            views_of(fresh@) == fresh_links(lks.take(i as int), known, dv),
        decreases links.len() - i,
    {
        let l = &links[i];
        let k = l.identity_key();
        let denied = l.is_disallowed(deny);
        let ghost fresh_pre = views_of(fresh@);
        if !denied && !contains_url(pending, &k) && !contains_url(visited, &k) && !contains_key(
            &fresh,
            &k,
        ) {
            proof {
                lemma_contains_concat(views_of(pending@), views_of(visited@), k@);
            }
            fresh.push(l.dup());
            proof {
                assert(views_of(fresh@) =~= fresh_pre.push(lks[i as int]));
            }
        } else {
            proof {
                lemma_contains_concat(views_of(pending@), views_of(visited@), k@);
            }
        }
        proof {
            assert(lks.take(i + 1).drop_last() =~= lks.take(i as int));
            assert(lks.take(i + 1).last() == lks[i as int]);
            assert(views_of(fresh@) =~= fresh_links(lks.take(i + 1), known, dv));
        }
        i += 1;
    }
    proof {
        assert(lks.take(links@.len() as int) =~= lks);
    }
    fresh
}

/// Removes the first URL in `v` whose view is `k@`.
#[verifier::loop_isolation(false)]
fn remove_key(v: &mut Vec<PageUrl>, k: &PageUrl)
    requires
        views_of(old(v)@).contains(k@),
    ensures
        views_of(final(v)@) == views_of(old(v)@).remove_value(k@),
{
    let ghost s = views_of(old(v)@);
    let mut i: usize = 0;
    while i < v.len()
        invariant
            i <= v.len(),
            v@ == old(v)@,
            forall|j: int| 0 <= j < i ==> views_of(v@)[j] != k@,
        decreases v.len() - i,
    {
        if url_eq(&v[i], k) {
            proof {
                assert(views_of(v@)[i as int] == v@[i as int]@);
                assert(s == views_of(v@));
                s.index_of_first_ensures(k@);
                let idx = s.index_of_first(k@).unwrap();
                assert(s[i as int] == k@);
                if idx < i {
                    assert(s[idx] != k@);
                }
                assert(idx == i as int);
            }
            v.remove(i);
            proof {
                assert(views_of(v@) =~= s.remove(i as int));
                assert(s.remove_value(k@) == s.remove(i as int));
            }
            return ;
        }
        i += 1;
    }
    proof {
        assert(s == views_of(v@));
        let j = choose|j: int| 0 <= j < s.len() && s[j] == k@;
        assert(false);
    }
}

/// Whether some link's identity key equals the target's.
fn find_goal(links: &Vec<PageUrl>, target: &PageUrl) -> (r: bool)
    ensures
        r == goal_hit(views_of(links@), target@),
{
    let mut i: usize = 0;
    while i < links.len()
        invariant
            i <= links.len(),
            forall|j: int| 0 <= j < i ==> key_of(views_of(links@)[j]) != target@,
        decreases links.len() - i,
    {
        let k = links[i].identity_key();
        if url_eq(&k, target) {
            assert(key_of(views_of(links@)[i as int]) == target@);
            return true;
        }
        i += 1;
    }
    false
}

impl Coordinator {
    /// A coordinator seeded with the start URL, together with the seed
    /// request.  Like every request, the seed is fetched in its raw,
    /// unstripped form, while its identity key is what becomes pending; in
    /// path mode the seed request opens the trail with that key.
    pub fn new(mode: Mode, seed: &PageUrl, deny: Vec<String>) -> (r: (Coordinator, FetchRequest))
        requires
            match mode@ {
                ModeView::Path { target_key } => is_key(target_key),
                ModeView::Graph => true,
            },
        ensures
            wf(r.0@),
            r.0@.mode == mode@,
            r.0@.phase == Phase::Running,
            r.0@.pending == seq![key_of(seed@)],
            r.0@.visited == Seq::<UrlView>::empty(),
            r.0@.graph == Seq::<(UrlView, Seq<UrlView>)>::empty(),
            r.0@.deny == deny.deep_view(),
            r.1@.url == seed@,
            r.1@.trail == match mode@ {
                ModeView::Graph => None::<Seq<UrlView>>,
                ModeView::Path { .. } => Some(seq![key_of(seed@)]),
            },
            result_wf(ResView::Failure { url: seed@, trail: r.1@.trail }, mode@),
    {
        let key = seed.identity_key();
        let is_path = matches!(mode, Mode::Path { .. });
        let trail: Option<Vec<PageUrl>> = if is_path {
            let mut t: Vec<PageUrl> = Vec::new();
            t.push(key.dup());
            proof {
                assert(views_of(t@) =~= seq![key_of(seed@)]);
            }
            Some(t)
        } else {
            None
        };
        let mut pending: Vec<PageUrl> = Vec::new();
        pending.push(key);
        let c = Coordinator {
            mode,
            phase: Phase::Running,
            pending,
            visited: Vec::new(),
            graph: Vec::new(),
            deny,
        };
        let req = FetchRequest { url: seed.dup(), trail };
        proof {
            assert(views_of(c.pending@) =~= seq![key_of(seed@)]);
            assert(views_of(c.visited@) =~= Seq::<UrlView>::empty());
            assert(entries_view(c.graph@) =~= Seq::<(UrlView, Seq<UrlView>)>::empty());
            assert(c@.graph.map_values(|e: (UrlView, Seq<UrlView>)| e.0) =~= c@.visited);
        }
        (c, req)
    }

    /// Applies one fetch result, as `step_result_spec` says.
    #[verifier::loop_isolation(false)]
    pub fn on_result(&mut self, result: FetchResult) -> (out: StepOutput)
        requires
            wf(old(self)@),
            result_wf(result@, old(self)@.mode),
        ensures
            final(self)@ == step_result_spec(old(self)@, result@).0,
            out@ == step_result_spec(old(self)@, result@).1,
            wf(final(self)@),
    {
        proof {
            lemma_step_result_wf(old(self)@, result@);
        }
        let ghost pre = self@;
        let ghost rv = result@;
        if matches!(self.phase, Phase::Terminated) {
            let out = StepOutput { requests: Vec::new(), probe: false, output: None };
            proof {
                assert(reqs_view(out.requests@) =~= Seq::<ReqView>::empty());
            }
            return out;
        }
        let k = match &result {
            FetchResult::Success { url, .. } => url.identity_key(),
            FetchResult::Failure { url, .. } => url.identity_key(),
        };
        proof {
            assert(k@ == key_of(rv.url()));
        }
        if !contains_url(&self.pending, &k) {
            let out = StepOutput { requests: Vec::new(), probe: false, output: None };
            proof {
                assert(reqs_view(out.requests@) =~= Seq::<ReqView>::empty());
            }
            return out;
        }
        let was_running = matches!(self.phase, Phase::Running);
        remove_key(&mut self.pending, &k);
        self.visited.push(k.dup());
        proof {
            assert(views_of(self.visited@) =~= pre.visited.push(k@));
        }
        let target: Option<PageUrl> = match &self.mode {
            Mode::Path { target_key } => Some(target_key.dup()),
            Mode::Graph => None,
        };
        match result {
            FetchResult::Success { url, links, trail } => {
                let goal = match &target {
                    Some(t) => find_goal(&links, t),
                    None => false,
                };
                if goal {
                    let mut route: Vec<PageUrl> = match trail {
                        Some(t) => t,
                        None => Vec::new(),
                    };
                    let ghost troute = views_of(route@);
                    match target {
                        Some(t) => route.push(t),
                        None => {},
                    }
                    proof {
                        assert(views_of(route@) =~= troute.push(
                            match pre.mode {
                                ModeView::Path { target_key } => target_key,
                                ModeView::Graph => key_of(rv.url()),
                            },
                        ));
                    }
                    self.phase = Phase::Terminated;
                    let visits = self.visited.len();
                    let out = StepOutput {
                        requests: Vec::new(),
                        probe: false,
                        output: Some(Output::Path { route, visits }),
                    };
                    proof {
                        assert(reqs_view(out.requests@) =~= Seq::<ReqView>::empty());
                    }
                    return out;
                }
                let fresh = compute_fresh(&links, &self.pending, &self.visited, &self.deny);
                let ghost fresh_v = views_of(fresh@);
                let ghost pending1 = views_of(self.pending@);
                let mut requests: Vec<FetchRequest> = Vec::new();
                let mut i: usize = 0;
                while i < fresh.len()
                    invariant
                        i <= fresh.len(),
                        fresh_v == views_of(fresh@),
                        pending1 == pre.pending.remove_value(key_of(rv.url())),
                        views_of(self.pending@) == pending1 + keys_of(fresh_v.take(i as int)),
                        self@.mode == pre.mode,
                        self@.deny == pre.deny,
                        self.phase == pre.phase,
                        views_of(self.visited@) == pre.visited.push(key_of(rv.url())),
                        entries_view(self.graph@) == pre.graph,
                        reqs_view(requests@) == reqs_of(
                            fresh_v.take(i as int),
                            match target {
                                Some(_) => opt_trail_view(trail),
                                None => None,
                            },
                        ),
                        target is Some <==> trail is Some,
                    decreases fresh.len() - i,
                {
                    let ghost pend_pre = self.pending@;
                    let ghost reqs_pre = requests@;
                    self.pending.push(fresh[i].identity_key());
                    let req_trail: Option<Vec<PageUrl>> = match &trail {
                        Some(t) => {
                            let mut t2 = dup_urls(t);
                            let ghost t2_pre = t2@;
                            t2.push(fresh[i].identity_key());
                            proof {
                                crate::page::lemma_views_push(t2_pre, t2@.last());
                                assert(views_of(t2@) == views_of(t@).push(
                                    key_of(fresh_v[i as int]),
                                ));
                            }
                            Some(t2)
                        },
                        None => None,
                    };
                    requests.push(FetchRequest { url: fresh[i].dup(), trail: req_trail });
                    proof {
                        assert(fresh_v[i as int] == fresh@[i as int]@);
                        crate::page::lemma_views_push(pend_pre, self.pending@.last());
                        assert(views_of(self.pending@) == views_of(pend_pre).push(
                            key_of(fresh_v[i as int]),
                        ));
                        assert(fresh_v.take(i + 1) =~= fresh_v.take(i as int).push(
                            fresh_v[i as int],
                        ));
                        assert(keys_of(fresh_v.take(i + 1)) =~= keys_of(
                            fresh_v.take(i as int),
                        ).push(key_of(fresh_v[i as int])));
                        assert(views_of(self.pending@) =~= pending1 + keys_of(
                            fresh_v.take(i + 1),
                        ));
                        crate::protocol::lemma_reqs_push(reqs_pre, requests@.last());
                        assert(requests@.last()@ == ReqView {
                            url: fresh_v[i as int],
                            trail: match (match target {
                                Some(_) => opt_trail_view(trail),
                                None => None,
                            }) {
                                Some(t) => Some(t.push(key_of(fresh_v[i as int]))),
                                None => None,
                            },
                        });
                        assert(reqs_view(requests@) =~= reqs_of(
                            fresh_v.take(i + 1),
                            match target {
                                Some(_) => opt_trail_view(trail),
                                None => None,
                            },
                        ));
                    }
                    i += 1;
                }
                proof {
                    assert(fresh_v.take(fresh@.len() as int) =~= fresh_v);
                    assert(keys_of(fresh_v.take(fresh@.len() as int)) =~= keys_of(fresh_v));
                }
                if let None = &target {
                    let ghost graph_pre = self.graph@;
                    self.graph.push(GraphEntry { key: k.dup(), links });
                    proof {
                        crate::protocol::lemma_entries_push(graph_pre, self.graph@.last());
                        assert(k@ == key_of(rv.url()));
                        assert(entries_view(graph_pre) == pre.graph);
                        assert(self.graph@.last().key@ == k@);
                        assert(views_of(self.graph@.last().links@) == match rv {
                            ResView::Success { links, .. } => links,
                            _ => Seq::empty(),
                        });
                        assert(entries_view(self.graph@) =~= pre.graph.push(
                            (
                                key_of(rv.url()),
                                match rv {
                                    ResView::Success { links, .. } => links,
                                    _ => Seq::empty(),
                                },
                            ),
                        ));
                    }
                }
                let quiet = requests.len() == 0;
                let probe = quiet && was_running;
                if quiet {
                    if was_running {
                        self.phase = Phase::ProbeSent { confirmed: false };
                    }
                } else {
                    self.phase = Phase::Running;
                }
                let out = StepOutput { requests, probe, output: None };
                out
            },
            FetchResult::Failure { url, trail } => {
                if matches!(self.mode, Mode::Graph) {
                    let ghost graph_pre = self.graph@;
                    self.graph.push(GraphEntry { key: k.dup(), links: Vec::new() });
                    proof {
                        crate::protocol::lemma_entries_push(graph_pre, self.graph@.last());
                        assert(views_of(Seq::<PageUrl>::empty()) =~= Seq::<UrlView>::empty());
                        assert(entries_view(self.graph@) =~= pre.graph.push(
                            (key_of(rv.url()), Seq::<UrlView>::empty()),
                        ));
                    }
                }
                if was_running {
                    self.phase = Phase::ProbeSent { confirmed: false };
                }
                let out = StepOutput { requests: Vec::new(), probe: was_running, output: None };
                proof {
                    assert(reqs_view(out.requests@) =~= Seq::<ReqView>::empty());
                }
                out
            },
        }
    }

    /// Applies one probe echo, as `step_echo_spec` says.  The final output
    /// at quiescence is the graph, or the unreachable mark in path mode.
    pub fn on_probe_echo(&mut self) -> (out: StepOutput)
        requires
            wf(old(self)@),
        ensures
            final(self)@ == step_echo_spec(old(self)@).0,
            out@ == step_echo_spec(old(self)@).1,
            wf(final(self)@),
    {
        let ghost pre = self@;
        match self.phase {
            Phase::ProbeSent { confirmed } => {
                if !confirmed {
                    self.phase = Phase::ProbeSent { confirmed: true };
                    let out = StepOutput { requests: Vec::new(), probe: true, output: None };
                    proof {
                        assert(reqs_view(out.requests@) =~= Seq::<ReqView>::empty());
                    }
                    out
                } else if self.pending.len() == 0 {
                    self.phase = Phase::Terminated;
                    let output = if matches!(self.mode, Mode::Graph) {
                        Output::Graph { pages: dup_entries(&self.graph) }
                    } else {
                        Output::Unreachable { visits: self.visited.len() }
                    };
                    let out = StepOutput { requests: Vec::new(), probe: false, output: Some(output) };
                    proof {
                        assert(reqs_view(out.requests@) =~= Seq::<ReqView>::empty());
                    }
                    out
                } else {
                    let out = StepOutput { requests: Vec::new(), probe: false, output: None };
                    proof {
                        assert(reqs_view(out.requests@) =~= Seq::<ReqView>::empty());
                    }
                    out
                }
            },
            _ => {
                let out = StepOutput { requests: Vec::new(), probe: false, output: None };
                proof {
                    assert(reqs_view(out.requests@) =~= Seq::<ReqView>::empty());
                }
                out
            },
        }
    }
}

} // verus!
