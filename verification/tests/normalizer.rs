use web_crawler::coordinator::{Coordinator, Mode};
use web_crawler::page::{default_denylist, str_ends_with, url_eq, PageUrl};

fn url(path: &str, query: Option<&str>, fragment: Option<&str>) -> PageUrl {
    PageUrl {
        scheme: "http".to_string(),
        host: "x".to_string(),
        path: path.to_string(),
        query: query.map(|s| s.to_string()),
        fragment: fragment.map(|s| s.to_string()),
    }
}

#[test]
fn identity_key_strips_fragment() {
    let a = url("/a", None, Some("frag"));
    let key = a.identity_key();
    assert_eq!(key.render(), "http://x/a");
}

#[test]
fn identity_key_strips_query() {
    let a = url("/a", Some("q=1"), None);
    let key = a.identity_key();
    assert_eq!(key.render(), "http://x/a");
}

#[test]
fn fragment_and_query_share_one_key() {
    let a = url("/a", None, Some("frag"));
    let b = url("/a", Some("q=1"), None);
    assert!(url_eq(&a.identity_key(), &b.identity_key()));
    assert!(!url_eq(&a, &b));
}

#[test]
fn raw_fetch_uses_unstripped_seed() {
    let seed = url("/a", Some("q=1"), None);
    let (_c, req) = Coordinator::new(Mode::Graph, &seed, default_denylist());
    assert_eq!(req.url.render(), "http://x/a?q=1");
}

#[test]
fn render_shows_all_parts() {
    let a = url("/p/q", Some("k=v"), Some("top"));
    assert_eq!(a.render(), "http://x/p/q?k=v#top");
    let b = url("/p", None, None);
    assert_eq!(b.render(), "http://x/p");
}

#[test]
fn ends_with_checks_suffix() {
    assert!(str_ends_with("image.png", ".png"));
    assert!(!str_ends_with("page.html", ".htm"));
    assert!(!str_ends_with(".pn", ".png"));
    assert!(str_ends_with("a.jpeg", ".jpeg"));
}

#[test]
fn denylist_blocks_asset_extensions() {
    let deny = default_denylist();
    assert!(url("/pic.png", None, None).is_disallowed(&deny));
    assert!(url("/pic.jpg", None, None).is_disallowed(&deny));
    assert!(url("/pic.jpeg", None, None).is_disallowed(&deny));
    assert!(url("/doc.pdf", None, None).is_disallowed(&deny));
    assert!(url("/old.htm", None, None).is_disallowed(&deny));
    assert!(!url("/page.html", None, None).is_disallowed(&deny));
    assert!(!url("/plain", None, None).is_disallowed(&deny));
}

#[test]
fn same_host_compares_hosts() {
    let a = url("/a", None, None);
    assert!(a.same_host(&"x".to_string()));
    assert!(!a.same_host(&"y".to_string()));
}

#[test]
fn dup_copies_every_part() {
    let a = url("/a", Some("q"), Some("f"));
    let b = a.dup();
    assert!(url_eq(&a, &b));
    assert_eq!(b.render(), "http://x/a?q#f");
}
