use specmonkey::URLCrawler;

fn lines_of(input: &str) -> Vec<String> {
    input.lines().map(String::from).collect()
}

#[test]
fn test_extract_links_from_reader_empty() {
    let input = "";
    let result = URLCrawler::find_urls_in_stream(&lines_of(input));
    assert!(result.is_empty());
}

#[test]
fn test_extract_links_from_reader_single_url() {
    let input = "Visit https://example.com for more information.";
    let result = URLCrawler::find_urls_in_stream(&lines_of(input));
    assert_eq!(result.len(), 1);
    assert_eq!(result[0].0, "https://example.com");
    assert_eq!(result[0].1, 1);
}

#[test]
fn test_extract_links_from_reader_multiple_urls() {
    let input = "First URL: http://foo.specs.open.org/folder/#section-2.\nSecond URL: https://bugzilla.mozilla.org/show_bug.cgi?id=1234#foo.";
    let result = URLCrawler::find_urls_in_stream(&lines_of(input));
    assert_eq!(result.len(), 2);
    assert_eq!(result[0].0, "http://foo.specs.open.org/folder/#section-2");
    assert_eq!(result[0].1, 1);
    assert_eq!(
        result[1].0,
        "https://bugzilla.mozilla.org/show_bug.cgi?id=1234#foo"
    );
    assert_eq!(result[1].1, 2);
}

#[test]
fn test_extract_links_from_reader_no_urls() {
    let input = "This line has no links.\nNeither does this one.";
    let result = URLCrawler::find_urls_in_stream(&lines_of(input));
    assert!(result.is_empty());
}

#[test]
fn test_extract_links_from_reader_various_urls() {
    let input = "Check out https://example.com/#section-1 and some text.\nAnother link: http://foo.specs.open.org/folder/#section-2.\nEnd with URL https://bugzil.la/5678#:~:text=foo-,bar%20baz,-blah.";
    let result = URLCrawler::find_urls_in_stream(&lines_of(input));
    assert_eq!(result.len(), 3);
    assert_eq!(result[0].0, "https://example.com/#section-1");
    assert_eq!(result[0].1, 1);
    assert_eq!(result[1].0, "http://foo.specs.open.org/folder/#section-2");
    assert_eq!(result[1].1, 2);
    assert_eq!(
        result[2].0,
        "https://bugzil.la/5678#:~:text=foo-,bar%20baz,-blah"
    );
    assert_eq!(result[2].1, 3);
}

#[test]
fn test_two_urls_one_line_left_to_right() {
    let input = "See https://a.example.com/x and https://b.example.com/y here.";
    let result = URLCrawler::find_urls_in_stream(&lines_of(input));
    assert_eq!(result.len(), 2);
    assert_eq!(result[0].0, "https://a.example.com/x");
    assert_eq!(result[0].1, 1);
    assert_eq!(result[1].0, "https://b.example.com/y");
    assert_eq!(result[1].1, 1);
}

#[test]
fn test_filter_match() {
    let cases: Vec<(&str, bool)> = vec![
        ("https://example.com", true),
        ("https://no-example.com", false),
        ("https://subdomain.example.com", true),
        ("https://example.com/foo", true),
        ("http://example.com", true),
    ];
    for (url, should_match) in cases {
        let domains = vec![String::from("example.com")];
        let crawler = URLCrawler::new(domains);
        assert_eq!(
            crawler.filter_domains(String::from(url), 0).is_some(),
            should_match,
            "case: {}",
            url
        );
    }
}

#[test]
fn test_filter_empty_whitelist_accepts_host() {
    let crawler = URLCrawler::new(Vec::new());
    let r = crawler.filter_domains(String::from("https://example.com"), 7);
    let (url, domain, line) = r.expect("empty whitelist must accept a URL with a host");
    assert_eq!(url, "https://example.com");
    assert_eq!(domain, "example.com");
    assert_eq!(line, 7);
}

#[test]
fn test_filter_subdomain_returns_whitelist_entry() {
    let crawler = URLCrawler::new(vec![String::from("example.com")]);
    let r = crawler.filter_domains(String::from("https://sub.example.com"), 1);
    let (_, domain, _) = r.expect("a subdomain of a whitelisted domain must match");
    assert_eq!(domain, "example.com");
}

#[test]
fn test_filter_no_false_suffix_match() {
    let crawler = URLCrawler::new(vec![String::from("example.com")]);
    assert!(crawler
        .filter_domains(String::from("https://notexample.com"), 1)
        .is_none());
}

#[test]
fn test_filter_rejects_url_without_host() {
    let crawler = URLCrawler::new(Vec::new());
    assert!(crawler
        .filter_domains(String::from("mailto:someone@example.com"), 1)
        .is_none());
    assert!(crawler
        .filter_domains(String::from("not a url at all"), 1)
        .is_none());
}

#[test]
fn test_filter_whitelist_lowercased_once() {
    let crawler = URLCrawler::new(vec![String::from("EXAMPLE.COM")]);
    let r = crawler.filter_domains(String::from("https://Example.com"), 1);
    let (_, domain, _) = r.expect("matching is case-insensitive on both sides");
    assert_eq!(domain, "example.com");
}

#[test]
fn test_find_urls_across_files() {
    let files = vec![
        (
            String::from("a.txt"),
            vec![String::from("go to https://example.com/page now")],
        ),
        (
            String::from("b.txt"),
            vec![
                String::from("nothing here"),
                String::from("but https://sub.example.com/x here"),
            ],
        ),
    ];
    let links = URLCrawler::find_urls(files, vec![String::from("example.com")]);
    assert_eq!(links.len(), 2);
    assert_eq!(links[0].url, "https://example.com/page");
    assert_eq!(links[0].domain, "example.com");
    assert_eq!(links[0].filepath, "a.txt");
    assert_eq!(links[0].line_number, 1);
    assert_eq!(links[1].url, "https://sub.example.com/x");
    assert_eq!(links[1].domain, "example.com");
    assert_eq!(links[1].filepath, "b.txt");
    assert_eq!(links[1].line_number, 2);
}

#[test]
fn test_match_whitelist_returns_first_entry() {
    let wl = vec![String::from("a.org"), String::from("example.com")];
    let r = specmonkey::match_whitelist(&String::from("deep.sub.example.com"), &wl);
    assert_eq!(r.expect("suffix match expected"), "example.com");
    assert!(specmonkey::match_whitelist(&String::from("example.org"), &wl).is_none());
}

#[test]
fn test_str_ends_with() {
    assert!(specmonkey::str_ends_with("sub.example.com", ".example.com"));
    assert!(!specmonkey::str_ends_with("notexample.com", ".example.com"));
    assert!(specmonkey::str_ends_with("abc", ""));
    assert!(!specmonkey::str_ends_with("c", "abc"));
}
