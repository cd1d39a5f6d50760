use specmonkey::fragment_of;
use specmonkey::Index;
use specmonkey::Link;

fn link(url: &str, domain: &str, filepath: &str, line_number: usize) -> Link {
    Link::new(
        String::from(url),
        String::from(domain),
        String::from(filepath),
        line_number,
    )
}

#[test]
fn test_fragment_of_simple() {
    assert_eq!(fragment_of("https://example.com/a#sec2"), "sec2");
}

#[test]
fn test_fragment_of_no_hash() {
    assert_eq!(fragment_of("https://example.com/a"), "");
}

#[test]
fn test_fragment_of_multiple_hashes_takes_last() {
    assert_eq!(fragment_of("https://example.com/a#one#two"), "two");
}

#[test]
fn test_fragment_of_trailing_hash() {
    assert_eq!(fragment_of("https://example.com/#"), "");
}

#[test]
fn test_index_groups_by_domain_and_fragment() {
    let links = vec![
        link("https://example.com/a#sec2", "example.com", "f1", 1),
        link("https://example.com/b", "example.com", "f1", 2),
        link("https://other.org/c#sec2", "other.org", "f2", 3),
        link("https://example.com/d#sec2", "example.com", "f2", 4),
    ];
    let index = Index::from_raw_data(links);
    assert_eq!(index.domain_count(), 2);

    let sec2 = index
        .get_bucket(&String::from("example.com"), &String::from("sec2"))
        .expect("bucket (example.com, sec2) expected");
    assert_eq!(sec2.len(), 2);
    assert_eq!(sec2[0].url, "https://example.com/a#sec2");
    assert_eq!(sec2[1].url, "https://example.com/d#sec2");

    let empty_frag = index
        .get_bucket(&String::from("example.com"), &String::from(""))
        .expect("bucket (example.com, \"\") expected");
    assert_eq!(empty_frag.len(), 1);
    assert_eq!(empty_frag[0].url, "https://example.com/b");

    let other = index
        .get_bucket(&String::from("other.org"), &String::from("sec2"))
        .expect("bucket (other.org, sec2) expected");
    assert_eq!(other.len(), 1);
    assert_eq!(other[0].filepath, "f2");

    assert!(index
        .get_bucket(&String::from("example.com"), &String::from("missing"))
        .is_none());
    assert!(index
        .get_bucket(&String::from("absent.com"), &String::from("sec2"))
        .is_none());
}

#[test]
fn test_index_no_deduplication() {
    let links = vec![
        link("https://example.com/a", "example.com", "f1", 1),
        link("https://example.com/a", "example.com", "f1", 1),
    ];
    let index = Index::from_raw_data(links);
    let bucket = index
        .get_bucket(&String::from("example.com"), &String::from(""))
        .expect("bucket expected");
    assert_eq!(bucket.len(), 2);
}

#[test]
fn test_index_permutation_same_buckets() {
    let a = vec![
        link("https://example.com/a#s", "example.com", "f1", 1),
        link("https://example.com/b#s", "example.com", "f2", 2),
        link("https://other.org/c", "other.org", "f3", 3),
    ];
    let b = vec![
        link("https://other.org/c", "other.org", "f3", 3),
        link("https://example.com/b#s", "example.com", "f2", 2),
        link("https://example.com/a#s", "example.com", "f1", 1),
    ];
    let ia = Index::from_raw_data(a);
    let ib = Index::from_raw_data(b);
    assert_eq!(ia.domain_count(), ib.domain_count());
    for (domain, fragment) in [
        ("example.com", "s"),
        ("example.com", ""),
        ("other.org", ""),
        ("other.org", "s"),
    ] {
        let ba = ia.get_bucket(&String::from(domain), &String::from(fragment));
        let bb = ib.get_bucket(&String::from(domain), &String::from(fragment));
        match (ba, bb) {
            (None, None) => {}
            (Some(la), Some(lb)) => {
                assert_eq!(la.len(), lb.len());
                let mut ka: Vec<(String, String, usize)> = la
                    .iter()
                    .map(|l| (l.url.clone(), l.filepath.clone(), l.line_number))
                    .collect();
                let mut kb: Vec<(String, String, usize)> = lb
                    .iter()
                    .map(|l| (l.url.clone(), l.filepath.clone(), l.line_number))
                    .collect();
                ka.sort();
                kb.sort();
                assert_eq!(ka, kb);
            }
            _ => panic!("bucket ({}, {}) differs in presence", domain, fragment),
        }
    }
}

#[test]
fn test_end_to_end_two_files() {
    let files = vec![
        (
            String::from("doc/a.txt"),
            vec![String::from("ref https://example.com/#s1 here")],
        ),
        (
            String::from("doc/b.txt"),
            vec![String::from("see https://other.com/page too")],
        ),
    ];
    let whitelist = vec![String::from("example.com")];
    let links = specmonkey::URLCrawler::find_urls(files, whitelist);
    assert_eq!(links.len(), 1);
    let index = Index::from_raw_data(links);
    assert_eq!(index.domain_count(), 1);
    let bucket = index
        .get_bucket(&String::from("example.com"), &String::from("s1"))
        .expect("bucket (example.com, s1) expected");
    assert_eq!(bucket.len(), 1);
    assert_eq!(bucket[0].url, "https://example.com/#s1");
    assert_eq!(bucket[0].filepath, "doc/a.txt");
    assert_eq!(bucket[0].line_number, 1);
    assert!(index
        .get_bucket(&String::from("other.com"), &String::from(""))
        .is_none());
}

#[test]
fn test_link_new_keeps_fields() {
    let l = link("https://example.com/x#y", "example.com", "src/main.c", 12);
    assert_eq!(l.url, "https://example.com/x#y");
    assert_eq!(l.domain, "example.com");
    assert_eq!(l.filepath, "src/main.c");
    assert_eq!(l.line_number, 12);
    let d = l.duplicate();
    assert_eq!(d.url, l.url);
    assert_eq!(d.line_number, l.line_number);
}

#[test]
fn test_entries_lists_every_bucket() {
    let links = vec![
        link("https://example.com/a#s", "example.com", "f1", 1),
        link("https://example.com/b", "example.com", "f1", 2),
        link("https://other.org/c#s", "other.org", "f2", 3),
    ];
    let index = Index::from_raw_data(links);
    let entries = index.entries();
    assert_eq!(entries.len(), 3);
    let mut keys: Vec<(String, String, usize)> = entries
        .iter()
        .map(|(d, f, ls)| (d.clone(), f.clone(), ls.len()))
        .collect();
    keys.sort();
    assert_eq!(
        keys,
        vec![
            (String::from("example.com"), String::from(""), 1),
            (String::from("example.com"), String::from("s"), 1),
            (String::from("other.org"), String::from("s"), 1),
        ]
    );
}
