use vstd::prelude::*;

verus! {

/// The URL-shaped substrings that the link detector reports for one line of
/// text, in left-to-right order of appearance. The detector's notion of
/// "URL-shaped" is lenient (scheme, authority, optional path/query/fragment)
/// and depends on the line's characters alone, so its output is given a name
/// here rather than written out.
pub uninterp spec fn line_urls(line: Seq<char>) -> Seq<Seq<char>>;

/// Relies on linkify's `LinkFinder::links`, restricted to `LinkKind::Url`:
/// which substrings of a line it reports, and in what order, depend on the
/// line's characters alone.
#[verifier::external_body]
pub(crate) fn find_line_urls(line: &str) -> (r: Vec<String>)
    ensures
        r.deep_view() == line_urls(line@),
{
    let mut finder = linkify::LinkFinder::new();
    finder.kinds(&[linkify::LinkKind::Url]);
    finder.links(line).map(|l| String::from(l.as_str())).collect()
}

/// The scan entries contributed by one line: each URL of the line paired with
/// the line's 1-based number.
pub open spec fn line_entries(line: Seq<char>, number: int) -> Seq<(Seq<char>, int)> {
    line_urls(line).map_values(|u: Seq<char>| (u, number))
}

/// The scan of a sequence of lines: the entries of line 1, then of line 2, and
/// so on; within one line the URLs keep their left-to-right order.
pub open spec fn scan_lines(lines: Seq<Seq<char>>) -> Seq<(Seq<char>, int)>
    decreases lines.len(),
{
    if lines.len() == 0 {
        Seq::empty()
    } else {
        scan_lines(lines.drop_last()) + line_entries(lines.last(), lines.len() as int)
    }
}

/// The mathematical value of an executable scan result.
pub open spec fn entries_view(r: Seq<(String, usize)>) -> Seq<(Seq<char>, int)> {
    r.map_values(|p: (String, usize)| (p.0@, p.1 as int))
}

/// Scanning no lines at all yields no entries.
pub proof fn lemma_scan_empty()
    ensures
        scan_lines(Seq::<Seq<char>>::empty()) == Seq::<(Seq<char>, int)>::empty(),
{
}

/// A scan yields nothing when the link detector reports nothing for any of the
/// lines; in particular, lines with no URL-shaped substring contribute no
/// entries.
pub proof fn lemma_scan_no_urls(lines: Seq<Seq<char>>)
    requires
        forall|i: int| 0 <= i < lines.len() ==> (#[trigger] line_urls(lines[i])).len() == 0,
    ensures
        scan_lines(lines).len() == 0,
    decreases lines.len(),
{
    if lines.len() > 0 {
        lemma_scan_no_urls(lines.drop_last());
        assert(line_entries(lines.last(), lines.len() as int).len() == 0);
    }
}

/// Every scan entry carries the 1-based number of a line of the input, and its
/// URL is one that the link detector reports for exactly that line; entries
/// appear in order of ascending line number.
pub proof fn lemma_scan_line_numbers(lines: Seq<Seq<char>>)
    ensures
        forall|k: int| 0 <= k < scan_lines(lines).len() ==> {
            let e = #[trigger] scan_lines(lines)[k];
            1 <= e.1 <= lines.len() && line_urls(lines[e.1 - 1]).contains(e.0)
        },
        forall|k1: int, k2: int|
            0 <= k1 <= k2 < scan_lines(lines).len() ==> #[trigger] scan_lines(
                lines,
            )[k1].1 <= #[trigger] scan_lines(lines)[k2].1,
    decreases lines.len(),
{
    if lines.len() > 0 {
        lemma_scan_line_numbers(lines.drop_last());
        let prefix = scan_lines(lines.drop_last());
        let tail = line_entries(lines.last(), lines.len() as int);
        assert forall|k: int| 0 <= k < scan_lines(lines).len() implies {
            let e = #[trigger] scan_lines(lines)[k];
            1 <= e.1 <= lines.len() && line_urls(lines[e.1 - 1]).contains(e.0)
        } by {
            let e = scan_lines(lines)[k];
            if k < prefix.len() {
                assert(e == prefix[k]);
                assert(lines.drop_last()[e.1 - 1] == lines[e.1 - 1]);
            } else {
                assert(e == tail[k - prefix.len()]);
                assert(e.0 == line_urls(lines.last())[k - prefix.len()]);
                assert(line_urls(lines[e.1 - 1]).contains(e.0));
            }
        }
    }
}

} // verus!
