use circular_list::crawler::CrawlState;
use circular_list::{CrawlResult, Crawler};
use std::collections::HashSet;

fn set_of(v: &[String]) -> HashSet<String> {
    v.iter().cloned().collect()
}

fn strings(v: &[&str]) -> Vec<String> {
    v.iter().map(|s| s.to_string()).collect()
}

#[test]
fn test_find_urls() {
    let s = r#"
        <html>
            <head>Welcome to foo.com</head>
            <body>
                <h1>www.bar.com is here</h1>Foo foo foo, com com .com
                <p>
                    http://example.com/v3
                </p>
                <p>
                    https://subdomain.example.com
                </p>
            </body>
            http://example.com
            https://aws.amazon.com/jora/valerich
            https://foo.bar/
            http://example.com/v2/jora
            Covid
        </html>"#;
    let expected: HashSet<&str> = [
        "http://example.com/v3",
        "https://subdomain.example.com",
        "http://example.com",
        "http://example.com/v2/jora",
    ]
    .iter()
    .cloned()
    .collect();
    let expected: HashSet<String> = expected.into_iter().map(String::from).collect();
    let crawler = Crawler::new();

    let found = crawler.find_urls(&s.to_string(), &"example.com".to_string());
    assert_eq!(expected, set_of(&found));
}

#[test]
fn find_urls_lists_each_link_once() {
    let s = "see http://a.example.org/x and http://a.example.org/x and https://other.net".to_string();
    let found = Crawler::new().find_urls(&s, &"example.org".to_string());
    assert_eq!(found, strings(&["http://a.example.org/x"]));
}

#[test]
fn scan_page_counts_word_and_links() {
    let html = "Virus news: virus http://news.site.com/a VIRUS http://elsewhere.org".to_string();
    let r = Crawler::new().scan_page(&html, &"site.com".to_string(), &" virus ".to_string());
    assert_eq!(r.word_count, 3);
    assert_eq!(r.urls, strings(&["http://news.site.com/a"]));
}

#[test]
fn add_assign_sums_counts_and_unites_pages() {
    let mut a = CrawlResult { word_count: 2, urls: strings(&["u1", "u2"]) };
    let b = CrawlResult { word_count: 5, urls: strings(&["u2", "u3"]) };
    a.add_assign(b);
    assert_eq!(a.word_count, 7);
    assert_eq!(set_of(&a.urls), set_of(&strings(&["u1", "u2", "u3"])));
    assert_eq!(a.urls.len(), 3);
}

#[test]
fn crawl_makes_two_rounds_and_skips_visited_pages() {
    let mut state = CrawlState::new("start".to_string());
    assert!(!state.done());
    assert_eq!(state.pending(), &strings(&["start"]));
    state = state.advance(CrawlResult { word_count: 4, urls: strings(&["start", "alpha", "beta"]) });
    assert_eq!(set_of(state.pending()), set_of(&strings(&["alpha", "beta"])));
    state = state.advance(CrawlResult { word_count: 1, urls: strings(&["gamma", "start"]) });
    assert!(state.done());
    let r = state.finish();
    assert_eq!(r.word_count, 5);
    assert_eq!(set_of(&r.urls), set_of(&strings(&["start", "alpha", "beta"])));
}
