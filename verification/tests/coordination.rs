use web_crawler::coordinator::{Coordinator, Mode, Phase};
use web_crawler::fetch::{filter_same_host, page_result};
use web_crawler::page::{default_denylist, url_eq, PageUrl};
use web_crawler::protocol::FetchResult;
use web_crawler::Message;

fn url_on(host: &str, path: &str) -> PageUrl {
    PageUrl {
        scheme: "http".to_string(),
        host: host.to_string(),
        path: path.to_string(),
        query: None,
        fragment: None,
    }
}

fn url(path: &str) -> PageUrl {
    url_on("x", path)
}

#[test]
fn msg_wraps_a_payload() {
    let m = web_crawler::msg(7u32);
    assert!(matches!(m, Message::Msg(7)));
}

#[test]
fn no_key_is_requested_twice() {
    // two pages both link to C; only the first sighting becomes a request
    let (mut c, _req) = Coordinator::new(Mode::Graph, &url("/a"), default_denylist());
    let step_a = c.on_result(FetchResult::Success {
        url: url("/a"),
        links: vec![url("/b"), url("/c")],
        trail: None,
    });
    let keys: Vec<String> = step_a.requests.iter().map(|r| r.url.render()).collect();
    assert_eq!(keys, vec!["http://x/b", "http://x/c"]);
    let step_b = c.on_result(FetchResult::Success {
        url: url("/b"),
        links: vec![url("/c"), url("/a")],
        trail: None,
    });
    assert!(step_b.requests.is_empty(), "C is pending and A is visited: nothing fresh");
}

#[test]
fn self_link_under_fragment_is_not_refetched() {
    let (mut c, _req) = Coordinator::new(Mode::Graph, &url("/a"), default_denylist());
    let step = c.on_result(FetchResult::Success {
        url: url("/a"),
        links: vec![PageUrl {
            scheme: "http".to_string(),
            host: "x".to_string(),
            path: "/a".to_string(),
            query: None,
            fragment: Some("s".to_string()),
        }],
        trail: None,
    });
    assert!(step.requests.is_empty());
    assert!(step.probe);
}

#[test]
fn duplicate_result_for_one_key_is_dropped() {
    let (mut c, _req) = Coordinator::new(Mode::Graph, &url("/a"), default_denylist());
    let first = c.on_result(FetchResult::Success {
        url: url("/a"),
        links: vec![url("/b")],
        trail: None,
    });
    assert_eq!(first.requests.len(), 1);
    let again = c.on_result(FetchResult::Success {
        url: url("/a"),
        links: vec![url("/z")],
        trail: None,
    });
    assert!(again.requests.is_empty(), "a key leaves pending only once");
    assert!(again.output.is_none());
    assert_eq!(c.graph.len(), 1, "the duplicate result is not recorded");
}

#[test]
fn new_work_invalidates_a_pending_probe() {
    let (mut c, _req) = Coordinator::new(Mode::Graph, &url("/a"), default_denylist());
    let step_a = c.on_result(FetchResult::Success {
        url: url("/a"),
        links: vec![url("/b"), url("/c")],
        trail: None,
    });
    assert_eq!(step_a.requests.len(), 2);
    // B comes back empty: probe goes out
    let step_b = c.on_result(FetchResult::Failure { url: url("/b"), trail: None });
    assert!(step_b.probe);
    assert!(matches!(c.phase, Phase::ProbeSent { confirmed: false }));
    // one echo arrives, then C comes back with new work: back to running
    let echo1 = c.on_probe_echo();
    assert!(echo1.probe);
    let step_c = c.on_result(FetchResult::Success {
        url: url("/c"),
        links: vec![url("/d")],
        trail: None,
    });
    assert_eq!(step_c.requests.len(), 1);
    assert!(matches!(c.phase, Phase::Running));
    // a stale echo while running is ignored
    let stale = c.on_probe_echo();
    assert!(stale.output.is_none());
    assert!(!stale.probe);
    assert!(matches!(c.phase, Phase::Running));
}

#[test]
fn failure_is_non_fatal_and_recorded_empty() {
    let (mut c, _req) = Coordinator::new(Mode::Graph, &url("/a"), default_denylist());
    let step = c.on_result(FetchResult::Failure { url: url("/a"), trail: None });
    assert!(step.requests.is_empty());
    assert!(step.output.is_none());
    assert_eq!(c.graph.len(), 1);
    assert!(url_eq(&c.graph[0].key, &url("/a")));
    assert!(c.graph[0].links.is_empty());
}

#[test]
fn path_mode_extends_the_trail() {
    let (mut c, req) = Coordinator::new(
        Mode::Path { target_key: url("/t") },
        &url("/a"),
        default_denylist(),
    );
    let trail = req.trail.expect("path mode requests carry a trail");
    assert_eq!(trail.len(), 1);
    assert!(url_eq(&trail[0], &url("/a")));
    let step = c.on_result(FetchResult::Success {
        url: url("/a"),
        links: vec![url("/b")],
        trail: Some(trail),
    });
    assert_eq!(step.requests.len(), 1);
    let t = step.requests[0].trail.as_ref().expect("trail rides along");
    let rendered: Vec<String> = t.iter().map(|u| u.render()).collect();
    assert_eq!(rendered, vec!["http://x/a", "http://x/b"]);
}

#[test]
fn goal_link_ends_the_crawl_at_once() {
    let (mut c, req) = Coordinator::new(
        Mode::Path { target_key: url("/t") },
        &url("/a"),
        default_denylist(),
    );
    let step = c.on_result(FetchResult::Success {
        url: url("/a"),
        links: vec![url("/t")],
        trail: req.trail,
    });
    assert!(step.requests.is_empty());
    match step.output {
        Some(web_crawler::protocol::Output::Path { route, visits }) => {
            let rendered: Vec<String> = route.iter().map(|u| u.render()).collect();
            assert_eq!(rendered, vec!["http://x/a", "http://x/t"]);
            assert_eq!(visits, 1);
        },
        _ => panic!("a link to the target must end the crawl"),
    }
    assert!(matches!(c.phase, Phase::Terminated));
}

#[test]
fn host_filter_keeps_only_the_crawl_host() {
    let links = vec![url_on("x", "/a"), url_on("y", "/b"), url_on("x", "/c")];
    let kept = filter_same_host(&links, &"x".to_string());
    assert_eq!(kept.len(), 2);
    assert!(url_eq(&kept[0], &url_on("x", "/a")));
    assert!(url_eq(&kept[1], &url_on("x", "/c")));
}

#[test]
fn page_result_classifies_statuses() {
    let ok = page_result(url("/a"), 200, vec![url("/b")], None);
    assert!(matches!(ok, FetchResult::Success { .. }));
    let redirected = page_result(url("/a"), 301, vec![], None);
    assert!(matches!(redirected, FetchResult::Failure { .. }));
    let server_error = page_result(url("/a"), 500, vec![], None);
    assert!(matches!(server_error, FetchResult::Failure { .. }));
    let also_ok = page_result(url("/a"), 299, vec![], None);
    assert!(matches!(also_ok, FetchResult::Success { .. }));
}

#[test]
fn discovered_links_are_fetched_raw() {
    let (mut c, _req) = Coordinator::new(Mode::Graph, &url("/a"), default_denylist());
    let with_query = PageUrl {
        scheme: "http".to_string(),
        host: "x".to_string(),
        path: "/p".to_string(),
        query: Some("q=1".to_string()),
        fragment: None,
    };
    let with_fragment = PageUrl {
        scheme: "http".to_string(),
        host: "x".to_string(),
        path: "/p".to_string(),
        query: None,
        fragment: Some("z".to_string()),
    };
    let step = c.on_result(FetchResult::Success {
        url: url("/a"),
        links: vec![with_query, with_fragment],
        trail: None,
    });
    // one key, so one request; it targets the first-seen raw form
    assert_eq!(step.requests.len(), 1);
    assert_eq!(step.requests[0].url.render(), "http://x/p?q=1");
    // the pending key is the stripped form: a later result answers under it
    let raw_result_url = PageUrl {
        scheme: "http".to_string(),
        host: "x".to_string(),
        path: "/p".to_string(),
        query: Some("q=1".to_string()),
        fragment: None,
    };
    let step2 = c.on_result(FetchResult::Success {
        url: raw_result_url,
        links: vec![],
        trail: None,
    });
    assert!(step2.requests.is_empty());
    assert_eq!(c.graph.len(), 2);
    assert!(url_eq(&c.graph[1].key, &url("/p")), "the graph is keyed by the identity key");
}
