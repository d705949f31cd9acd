use web_crawler::html::get_links_from_string;
use web_crawler::page::{url_eq, PageUrl};
use web_crawler::resolve::resolve;

fn url(path: &str) -> PageUrl {
    PageUrl {
        scheme: "http".to_string(),
        host: "x".to_string(),
        path: path.to_string(),
        query: None,
        fragment: None,
    }
}

#[test]
fn absolute_href_resolves_to_itself() {
    let base = url("/a");
    let r = resolve("http://x/b", &base).expect("an absolute URL resolves");
    assert_eq!(r.render(), "http://x/b");
}

#[test]
fn fragment_variant_maps_to_the_bare_key() {
    let base = url("/other");
    let with_fragment = resolve("http://x/a#frag", &base).expect("resolves");
    let with_query = resolve("http://x/a?q=1", &base).expect("resolves");
    // the raw forms stay distinct, so fetching them uses the full URL
    assert_eq!(with_fragment.render(), "http://x/a#frag");
    assert_eq!(with_query.render(), "http://x/a?q=1");
    // but both share the identity key
    assert_eq!(with_fragment.identity_key().render(), "http://x/a");
    assert_eq!(with_query.identity_key().render(), "http://x/a");
}

#[test]
fn relative_href_joins_against_the_page() {
    let base = url("/dir/page.html");
    let r = resolve("other.html", &base).expect("a relative href joins");
    assert_eq!(r.render(), "http://x/dir/other.html");
    let rooted = resolve("/top", &base).expect("a rooted href joins");
    assert_eq!(rooted.render(), "http://x/top");
}

#[test]
fn unresolvable_href_is_a_parse_error() {
    let base = url("/a");
    assert!(resolve("http://[half", &base).is_err());
}

#[test]
fn href_without_host_is_a_parse_error() {
    let base = url("/a");
    assert!(resolve("data:text/plain,hi", &base).is_err());
}

#[test]
fn page_links_are_extracted_resolved_and_deduplicated() {
    let html = "<html><body>\
         <a href=\"/b\">one</a>\
         <a href=\"http://x/c\">two</a>\
         <a href=\"/b\">again</a>\
         <a href=\"http://elsewhere.example/d\">foreign</a>\
         <p>no link here</p>\
         </body></html>"
        .as_bytes()
        .to_vec();
    let links = get_links_from_string(&html, &url("/a")).expect("every href resolves");
    assert_eq!(links.len(), 3, "duplicates collapse; foreign hosts stay for the filter");
    assert!(links.iter().any(|l| url_eq(l, &url("/b"))));
    assert!(links.iter().any(|l| url_eq(l, &url("/c"))));
    assert!(links.iter().any(|l| l.host == "elsewhere.example"));
}

#[test]
fn empty_page_yields_no_links() {
    let html = b"<html><body>nothing</body></html>".to_vec();
    let links = get_links_from_string(&html, &url("/a")).expect("no href, no error");
    assert!(links.is_empty());
}

#[test]
fn unresolvable_href_marks_the_page_dead() {
    let html = "<a href=\"/fine\">ok</a><a href=\"http://[half\">broken</a>"
        .as_bytes()
        .to_vec();
    assert!(get_links_from_string(&html, &url("/a")).is_err());
}
