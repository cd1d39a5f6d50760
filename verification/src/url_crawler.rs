use vstd::prelude::*;

use crate::domain::lemma_first_match_sound;
use crate::domain::lower_all;
use crate::domain::lower_of;
use crate::domain::lowercase;
use crate::domain::match_whitelist;
use crate::domain::parse_url_host;
use crate::domain::spec_accept;
use crate::domain::url_host;
use crate::link::Link;
use crate::link::LinkModel;
use crate::scan::entries_view;
use crate::scan::find_line_urls;
use crate::scan::lemma_scan_line_numbers;
use crate::scan::line_entries;
use crate::scan::line_urls;
use crate::scan::scan_lines;

verus! {

/// Scans file contents for URL occurrences and keeps those whose host matches
/// a whitelist of domains. The whitelist is lowercased once, at construction.
pub struct URLCrawler {
    pub whitelist_domains: Vec<String>,
}

/// The link record built for one accepted scan entry of one file.
pub open spec fn entry_link(path: Seq<char>, entry: (Seq<char>, int), domain: Seq<char>) -> LinkModel {
    LinkModel { url: entry.0, domain: domain, filepath: path, line_number: entry.1 }
}

/// The links of one file: its scan entries in order, each put through the
/// domain filter; rejected entries leave no record.
pub open spec fn filtered_links(
    path: Seq<char>,
    entries: Seq<(Seq<char>, int)>,
    whitelist: Seq<Seq<char>>,
) -> Seq<LinkModel>
    decreases entries.len(),
{
    if entries.len() == 0 {
        Seq::empty()
    } else {
        let rest = filtered_links(path, entries.drop_last(), whitelist);
        match spec_accept(entries.last().0, whitelist) {
            None => rest,
            Some(d) => rest.push(entry_link(path, entries.last(), d)),
        }
    }
}

/// The links of one file, from its raw lines.
pub open spec fn file_links(
    path: Seq<char>,
    lines: Seq<Seq<char>>,
    whitelist: Seq<Seq<char>>,
) -> Seq<LinkModel> {
    filtered_links(path, scan_lines(lines), whitelist)
}

/// The links of a sequence of files, each given as its path and its lines,
/// concatenated in file order.
pub open spec fn crawl_links(
    files: Seq<(Seq<char>, Seq<Seq<char>>)>,
    whitelist: Seq<Seq<char>>,
) -> Seq<LinkModel>
    decreases files.len(),
{
    if files.len() == 0 {
        Seq::empty()
    } else {
        crawl_links(files.drop_last(), whitelist) + file_links(
            files.last().0,
            files.last().1,
            whitelist,
        )
    }
}

impl URLCrawler {
    /// The whitelist the crawler filters against: the given domains,
    /// lowercased, in their given order.
    pub fn new(whitelist_domains: Vec<String>) -> (r: URLCrawler)
        ensures
            r.whitelist_domains.deep_view() == lower_all(whitelist_domains.deep_view()),
    {
        let ghost input = whitelist_domains.deep_view();
        let mut lowered: Vec<String> = Vec::new();
        let mut i: usize = 0;
        while i < whitelist_domains.len()
            invariant
                0 <= i <= whitelist_domains.len(),
                input == whitelist_domains.deep_view(),
                lowered.deep_view() =~= lower_all(input.take(i as int)),
            decreases whitelist_domains.len() - i,
        {
            let ghost old_deep = lowered.deep_view();
            let ghost old_view = lowered@;
            let low = lowercase(whitelist_domains[i].as_str());
            lowered.push(low);
            proof {
                assert(input.take(i as int).len() == i);
                assert(old_deep.len() == i);
                assert(old_view.len() == i);
                assert(low@ == lower_of(input[i as int]));
                assert(lowered@ == old_view.push(low));
                assert forall|k: int| 0 <= k < i + 1 implies lowered.deep_view()[k] == lower_all(
                    input.take(i + 1),
                )[k] by {
                    assert(input.take(i + 1)[k] == input[k]);
                    assert(lower_all(input.take(i + 1))[k] == lower_of(input[k]));
                    if k < i {
                        assert(lowered@[k] == old_view[k]);
                        assert(lowered.deep_view()[k] == lowered@[k]@);
                        assert(old_deep[k] == old_view[k]@);
                        assert(input.take(i as int)[k] == input[k]);
                        assert(old_deep[k] == lower_all(input.take(i as int))[k]);
                    } else {
                        assert(lowered@[k] == low);
                        assert(lowered.deep_view()[k] == low@);
                    }
                }
                assert(lowered.deep_view() =~= lower_all(input.take(i + 1)));
            }
            i += 1;
        }
        proof {
            assert(input.take(input.len() as int) =~= input);
        }
        URLCrawler { whitelist_domains: lowered }
    }

    /// Scan lines of text for URL occurrences: for each line, in order, every
    /// URL-shaped substring the link detector reports, paired with the line's
    /// 1-based number.
    pub fn find_urls_in_stream(lines: &Vec<String>) -> (r: Vec<(String, usize)>)
        ensures
            entries_view(r@) == scan_lines(lines.deep_view()),
    {
        let ghost ls = lines.deep_view();
        let mut result: Vec<(String, usize)> = Vec::new();
        let mut i: usize = 0;
        while i < lines.len()
            invariant
                0 <= i <= lines.len(),
                ls == lines.deep_view(),
                entries_view(result@) =~= scan_lines(ls.take(i as int)),
            decreases lines.len() - i,
        {
            let urls = find_line_urls(lines[i].as_str());
            let number = i + 1;
            let ghost before = result@;
            let mut j: usize = 0;
            while j < urls.len()
                invariant
                    0 <= j <= urls.len(),
                    number == i + 1,
                    urls.deep_view() == line_urls(ls[i as int]),
                    0 <= i < ls.len(),
                    result@.len() == before.len() + j,
                    result@.take(before.len() as int) =~= before,
                    forall|m: int| 0 <= m < j ==> #[trigger] result@[before.len() + m]
                        == ((urls@[m], number)),
                decreases urls.len() - j,
            {
                let u = urls[j].clone();
                result.push((u, number));
                j += 1;
            }
            proof {
                let t = ls.take(i + 1);
                assert(t.drop_last() =~= ls.take(i as int));
                assert(t.last() == ls[i as int]);
                assert(entries_view(result@) =~= scan_lines(ls.take(i as int)) + line_entries(
                    ls[i as int],
                    i + 1,
                )) by {
                    assert forall|k: int| 0 <= k < result@.len() implies entries_view(result@)[k]
                        == (scan_lines(ls.take(i as int)) + line_entries(ls[i as int], i + 1))[k] by {
                        if k < before.len() {
                            assert(result@[k] == result@.take(before.len() as int)[k]);
                            assert(result@[k] == before[k]);
                        } else {
                            let m = k - before.len();
                            assert(result@[before.len() + m] == ((urls@[m], number)));
                            assert(urls@[m]@ == urls.deep_view()[m]);
                        }
                    }
                }
            }
            i += 1;
        }
        proof {
            assert(ls.take(ls.len() as int) =~= ls);
        }
        result
    }

    /// Put one scan entry through the domain filter: `None` when the URL has
    /// no host or its lowercased host matches no whitelist entry; otherwise
    /// the URL unchanged, the matched domain, and the entry's line number.
    pub fn filter_domains(&self, url_string: String, line_number: usize) -> (r: Option<
        (String, String, usize),
    >)
        ensures
            match r {
                None => spec_accept(url_string@, self.whitelist_domains.deep_view()) is None,
                Some(t) => spec_accept(url_string@, self.whitelist_domains.deep_view()) == Some(
                    t.1@,
                ) && t.0@ == url_string@ && t.2 == line_number,
            },
    {
        match parse_url_host(url_string.as_str()) {
            None => None,
            Some(host) => {
                let host_lower = lowercase(host.as_str());
                if self.whitelist_domains.len() == 0 {
                    Some((url_string, host_lower, line_number))
                } else {
                    match match_whitelist(&host_lower, &self.whitelist_domains) {
                        Some(domain) => Some((url_string, domain, line_number)),
                        None => None,
                    }
                }
            },
        }
    }

    /// The links of one file: scan its lines, filter each entry against the
    /// whitelist, and record each accepted entry under the file's path.
    pub fn find_urls_in_file(&self, filepath: &String, lines: &Vec<String>) -> (r: Vec<Link>)
        ensures
            r.deep_view() == file_links(
                filepath@,
                lines.deep_view(),
                self.whitelist_domains.deep_view(),
            ),
    {
        let ghost wl = self.whitelist_domains.deep_view();
        let entries = Self::find_urls_in_stream(lines);
        let ghost es = entries_view(entries@);
        let mut result: Vec<Link> = Vec::new();
        let mut j: usize = 0;
        while j < entries.len()
            invariant
                0 <= j <= entries.len(),
                wl == self.whitelist_domains.deep_view(),
                es == entries_view(entries@),
                es == scan_lines(lines.deep_view()),
                result.deep_view() =~= filtered_links(filepath@, es.take(j as int), wl),
            decreases entries.len() - j,
        {
            let url_string = entries[j].0.clone();
            let line_number = entries[j].1;
            proof {
                assert(es[j as int] == ((url_string@, line_number as int)));
                let t = es.take(j + 1);
                assert(t.drop_last() =~= es.take(j as int));
                assert(t.last() == es[j as int]);
            }
            match self.filter_domains(url_string, line_number) {
                None => {},
                Some(t) => {
                    let (url, dom, n) = t;
                    result.push(Link::new(url, dom, filepath.clone(), n));
                },
            }
            proof {
                assert(result.deep_view() =~= filtered_links(filepath@, es.take(j + 1), wl));
            }
            j += 1;
        }
        proof {
            assert(es.take(es.len() as int) =~= es);
        }
        result
    }

    /// The links of many files: each file, given as its path and its lines, is
    /// scanned and filtered on its own, and the per-file results are
    /// concatenated in file order. The whitelist is lowercased once, first.
    pub fn find_urls(files: Vec<(String, Vec<String>)>, whitelist_domains: Vec<String>) -> (r: Vec<
        Link,
    >)
        ensures
            r.deep_view() == crawl_links(
                files.deep_view(),
                lower_all(whitelist_domains.deep_view()),
            ),
    {
        let crawler = Self::new(whitelist_domains);
        let ghost wl = crawler.whitelist_domains.deep_view();
        let ghost fs = files.deep_view();
        let mut result: Vec<Link> = Vec::new();
        let mut i: usize = 0;
        while i < files.len()
            invariant
                0 <= i <= files.len(),
                wl == crawler.whitelist_domains.deep_view(),
                fs == files.deep_view(),
                result.deep_view() =~= crawl_links(fs.take(i as int), wl),
            decreases files.len() - i,
        {
            let mut file_result = crawler.find_urls_in_file(&files[i].0, &files[i].1);
            proof {
                assert(fs[i as int] == ((files@[i as int].0@, files@[i as int].1.deep_view())));
                let t = fs.take(i + 1);
                assert(t.drop_last() =~= fs.take(i as int));
                assert(t.last() == fs[i as int]);
            }
            result.append(&mut file_result);
            proof {
                assert(result.deep_view() =~= crawl_links(fs.take(i + 1), wl));
            }
            i += 1;
        }
        proof {
            assert(fs.take(fs.len() as int) =~= fs);
        }
        result
    }
}

/// Every link the filter lets through keeps the file's path, pairs a URL of
/// the scan with its own line number, and, when the whitelist is non-empty,
/// carries one of its entries as its domain.
proof fn lemma_filtered_links_fields(
    path: Seq<char>,
    entries: Seq<(Seq<char>, int)>,
    whitelist: Seq<Seq<char>>,
)
    ensures
        forall|k: int| 0 <= k < filtered_links(path, entries, whitelist).len() ==> {
            let l = #[trigger] filtered_links(path, entries, whitelist)[k];
            l.filepath == path && (whitelist.len() > 0 ==> whitelist.contains(l.domain)) && exists|
                m: int,
            |
                0 <= m < entries.len() && (#[trigger] entries[m]).0 == l.url && entries[m].1
                    == l.line_number
        },
    decreases entries.len(),
{
    if entries.len() > 0 {
        lemma_filtered_links_fields(path, entries.drop_last(), whitelist);
        let e = entries.last();
        let rest = filtered_links(path, entries.drop_last(), whitelist);
        assert forall|k: int| 0 <= k < filtered_links(path, entries, whitelist).len() implies {
            let l = #[trigger] filtered_links(path, entries, whitelist)[k];
            l.filepath == path && (whitelist.len() > 0 ==> whitelist.contains(l.domain)) && exists|
                m: int,
            |
                0 <= m < entries.len() && (#[trigger] entries[m]).0 == l.url && entries[m].1
                    == l.line_number
        } by {
            let l = filtered_links(path, entries, whitelist)[k];
            if k < rest.len() {
                assert(l == rest[k]);
                let m = choose|m: int|
                    0 <= m < entries.drop_last().len() && (#[trigger] entries.drop_last()[m]).0
                        == l.url && entries.drop_last()[m].1 == l.line_number;
                assert(entries[m] == entries.drop_last()[m]);
            } else {
                match spec_accept(e.0, whitelist) {
                    Some(d) => {
                        assert(l == entry_link(path, e, d));
                        assert(entries[entries.len() - 1] == e);
                        if whitelist.len() > 0 {
                            lemma_first_match_sound(
                                lower_of(url_host(e.0)->Some_0),
                                whitelist,
                            );
                        }
                    },
                    None => {},
                }
            }
        }
    }
}

/// Every link of a crawl names the path of one of the files, a line that file
/// has, a URL the scanner reported for that line, and, when the whitelist is
/// non-empty, one of its entries as its domain.
pub proof fn lemma_crawl_links_fields(
    files: Seq<(Seq<char>, Seq<Seq<char>>)>,
    whitelist: Seq<Seq<char>>,
)
    ensures
        forall|k: int| 0 <= k < crawl_links(files, whitelist).len() ==> {
            let l = #[trigger] crawl_links(files, whitelist)[k];
            (whitelist.len() > 0 ==> whitelist.contains(l.domain)) && exists|i: int|
                0 <= i < files.len() && (#[trigger] files[i]).0 == l.filepath && 1 <= l.line_number
                    <= files[i].1.len() && line_urls(files[i].1[l.line_number - 1]).contains(l.url)
        },
    decreases files.len(),
{
    if files.len() > 0 {
        lemma_crawl_links_fields(files.drop_last(), whitelist);
        let fe = files.last();
        let rest = crawl_links(files.drop_last(), whitelist);
        let entries = scan_lines(fe.1);
        lemma_scan_line_numbers(fe.1);
        lemma_filtered_links_fields(fe.0, entries, whitelist);
        assert forall|k: int| 0 <= k < crawl_links(files, whitelist).len() implies {
            let l = #[trigger] crawl_links(files, whitelist)[k];
            (whitelist.len() > 0 ==> whitelist.contains(l.domain)) && exists|i: int|
                0 <= i < files.len() && (#[trigger] files[i]).0 == l.filepath && 1 <= l.line_number
                    <= files[i].1.len() && line_urls(files[i].1[l.line_number - 1]).contains(l.url)
        } by {
            let l = crawl_links(files, whitelist)[k];
            if k < rest.len() {
                assert(l == rest[k]);
                let i = choose|i: int|
                    0 <= i < files.drop_last().len() && (#[trigger] files.drop_last()[i]).0
                        == l.filepath && 1 <= l.line_number <= files.drop_last()[i].1.len()
                        && line_urls(files.drop_last()[i].1[l.line_number - 1]).contains(l.url);
                assert(files[i] == files.drop_last()[i]);
            } else {
                assert(l == filtered_links(fe.0, entries, whitelist)[k - rest.len()]);
                let m = choose|m: int|
                    0 <= m < entries.len() && (#[trigger] entries[m]).0 == l.url && entries[m].1
                        == l.line_number;
                assert(1 <= entries[m].1 <= fe.1.len());
                assert(line_urls(fe.1[entries[m].1 - 1]).contains(entries[m].0));
                assert(files[files.len() - 1] == fe);
            }
        }
    }
}


} // verus!
