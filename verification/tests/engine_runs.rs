use web_crawler::coordinator::{Coordinator, Mode, Phase};
use web_crawler::engine::{run_crawl, Fixture, FixturePage};
use web_crawler::page::{default_denylist, url_eq, PageUrl};
use web_crawler::protocol::{graph_summary, FetchResult, GraphEntry, Output};

fn url(path: &str) -> PageUrl {
    PageUrl {
        scheme: "http".to_string(),
        host: "x".to_string(),
        path: path.to_string(),
        query: None,
        fragment: None,
    }
}

fn url_frag(path: &str, fragment: &str) -> PageUrl {
    PageUrl {
        scheme: "http".to_string(),
        host: "x".to_string(),
        path: path.to_string(),
        query: None,
        fragment: Some(fragment.to_string()),
    }
}

fn page(key: &str, ok: bool, links: Vec<PageUrl>) -> FixturePage {
    FixturePage { key: url(key), ok, links }
}

fn entry_for<'a>(pages: &'a [GraphEntry], key: &PageUrl) -> &'a GraphEntry {
    pages
        .iter()
        .find(|e| url_eq(&e.key, key))
        .expect("graph should hold an entry for this key")
}

#[test]
fn scenario_graph_mode() {
    // seed A links to itself under a fragment, to B, and to a png asset;
    // B links back to A
    let fx = Fixture {
        pages: vec![
            page("/a", true, vec![url_frag("/a", "s"), url("/b"), url("/c.png")]),
            page("/b", true, vec![url("/a")]),
        ],
    };
    let out = run_crawl(Mode::Graph, &url("/a"), default_denylist(), &fx);
    match out {
        Output::Graph { pages } => {
            assert_eq!(pages.len(), 2);
            let a = entry_for(&pages, &url("/a"));
            assert_eq!(a.links.len(), 3);
            assert!(a.links.iter().any(|l| url_eq(l, &url_frag("/a", "s"))));
            assert!(a.links.iter().any(|l| url_eq(l, &url("/b"))));
            assert!(a.links.iter().any(|l| url_eq(l, &url("/c.png"))));
            let b = entry_for(&pages, &url("/b"));
            assert_eq!(b.links.len(), 1);
            assert!(url_eq(&b.links[0], &url("/a")));
            // the asset was never fetched, so it got no entry of its own
            assert!(!pages.iter().any(|e| url_eq(&e.key, &url("/c.png"))));
        },
        _ => panic!("graph mode must yield a graph"),
    }
}

#[test]
fn scenario_path_mode() {
    // A -> B -> target, with a decoy branch A -> D -> deadEnd
    let fx = Fixture {
        pages: vec![
            page("/a", true, vec![url("/b"), url("/d")]),
            page("/b", true, vec![url("/target")]),
            page("/d", true, vec![url("/dead_end")]),
        ],
    };
    let out = run_crawl(
        Mode::Path { target_key: url("/target") },
        &url("/a"),
        default_denylist(),
        &fx,
    );
    match out {
        Output::Path { route, visits } => {
            let rendered: Vec<String> = route.iter().map(|u| u.render()).collect();
            assert_eq!(rendered, vec!["http://x/a", "http://x/b", "http://x/target"]);
            assert_eq!(route.len() - 1, 2, "two hops from start to target");
            assert_eq!(visits, 2);
        },
        _ => panic!("the target is reachable, so a path must come back"),
    }
}

#[test]
fn scenario_failure_tolerance() {
    // B answers with a server error; it is recorded as a dead end and the
    // crawl still terminates
    let fx = Fixture {
        pages: vec![page("/a", true, vec![url("/b")]), page("/b", false, vec![url("/c")])],
    };
    let out = run_crawl(Mode::Graph, &url("/a"), default_denylist(), &fx);
    match out {
        Output::Graph { pages } => {
            assert_eq!(pages.len(), 2);
            let b = entry_for(&pages, &url("/b"));
            assert_eq!(b.links.len(), 0);
        },
        _ => panic!("graph mode must yield a graph"),
    }
}

#[test]
fn unreachable_target_is_reported() {
    let fx = Fixture { pages: vec![page("/a", true, vec![url("/b")]), page("/b", true, vec![])] };
    let out = run_crawl(
        Mode::Path { target_key: url("/nowhere") },
        &url("/a"),
        default_denylist(),
        &fx,
    );
    match out {
        Output::Unreachable { visits } => assert_eq!(visits, 2),
        _ => panic!("an absent target must be reported unreachable"),
    }
}

fn graphs_equal(a: &Output, b: &Output) -> bool {
    match (a, b) {
        (Output::Graph { pages: pa }, Output::Graph { pages: pb }) => {
            pa.len() == pb.len()
                && pa.iter().zip(pb.iter()).all(|(x, y)| {
                    url_eq(&x.key, &y.key)
                        && x.links.len() == y.links.len()
                        && x.links.iter().zip(y.links.iter()).all(|(l, m)| url_eq(l, m))
                })
        },
        _ => false,
    }
}

fn diamond_fixture() -> Fixture {
    Fixture {
        pages: vec![
            page("/a", true, vec![url("/b"), url("/c")]),
            page("/b", true, vec![url("/d")]),
            page("/c", true, vec![url("/d")]),
            page("/d", true, vec![]),
        ],
    }
}

#[test]
fn rerun_yields_identical_graph() {
    let first = run_crawl(Mode::Graph, &url("/a"), default_denylist(), &diamond_fixture());
    let second = run_crawl(Mode::Graph, &url("/a"), default_denylist(), &diamond_fixture());
    assert!(graphs_equal(&first, &second));
}

#[test]
fn denylisted_links_never_become_requests() {
    let fx = Fixture {
        pages: vec![page(
            "/a",
            true,
            vec![url("/b.png"), url("/c.jpg"), url("/d.jpeg"), url("/e.pdf"), url("/f.htm")],
        )],
    };
    let out = run_crawl(Mode::Graph, &url("/a"), default_denylist(), &fx);
    match out {
        Output::Graph { pages } => {
            // only the seed was ever fetched; the five assets were recorded
            // as edges but never requested
            assert_eq!(pages.len(), 1);
            assert_eq!(pages[0].links.len(), 5);
        },
        _ => panic!("graph mode must yield a graph"),
    }
}

#[test]
fn summary_counts_pages_links_and_distinct_urls() {
    let fx = Fixture {
        pages: vec![
            page("/a", true, vec![url_frag("/a", "s"), url("/b"), url("/c.png")]),
            page("/b", true, vec![url("/a")]),
        ],
    };
    let out = run_crawl(Mode::Graph, &url("/a"), default_denylist(), &fx);
    match out {
        Output::Graph { pages } => {
            let (page_count, distinct_urls, total_links) = graph_summary(&pages);
            assert_eq!(page_count, 2);
            assert_eq!(distinct_urls, 4);
            assert_eq!(total_links, 4);
        },
        _ => panic!("graph mode must yield a graph"),
    }
}

#[test]
fn late_results_are_discarded_after_termination() {
    // drive the coordinator by hand to its quiescent end, then hand it one
    // more result: nothing may change
    let (mut c, req) = Coordinator::new(Mode::Graph, &url("/a"), default_denylist());
    let first = c.on_result(FetchResult::Success {
        url: req.url,
        links: vec![],
        trail: None,
    });
    assert!(first.requests.is_empty());
    assert!(first.probe, "a step with no new work must send the probe");
    let echo1 = c.on_probe_echo();
    assert!(echo1.probe, "the first echo asks for one more confirmation");
    assert!(echo1.output.is_none());
    let echo2 = c.on_probe_echo();
    match echo2.output {
        Some(Output::Graph { pages }) => assert_eq!(pages.len(), 1),
        _ => panic!("two uninterrupted echoes must close the crawl"),
    }
    assert!(matches!(c.phase, Phase::Terminated));
    let late = c.on_result(FetchResult::Failure { url: url("/zzz"), trail: None });
    assert!(late.requests.is_empty());
    assert!(late.output.is_none());
    assert!(!late.probe);
    assert!(matches!(c.phase, Phase::Terminated));
    assert_eq!(c.graph.len(), 1);
}
