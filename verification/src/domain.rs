use vstd::prelude::*;

verus! {

/// The lowercase form of a string, as Unicode case folding produces it. The
/// folding rules depend on the characters alone, so the result is given a name
/// here rather than written out.
pub uninterp spec fn lower_of(s: Seq<char>) -> Seq<char>;

/// Relies on str::to_lowercase: the result depends on the characters alone.
#[verifier::external_body]
pub(crate) fn lowercase(s: &str) -> (r: String)
    ensures
        r@ == lower_of(s@),
{
    s.to_lowercase()
}

/// Each string of a sequence, lowercased.
pub open spec fn lower_all(ds: Seq<Seq<char>>) -> Seq<Seq<char>> {
    ds.map_values(|d: Seq<char>| lower_of(d))
}

/// The host component of a string read as an absolute URL: `None` when the
/// string does not parse as an absolute URL or its scheme carries no
/// authority, `Some` of the host text otherwise. Parsing follows the URL
/// standard and depends on the characters alone, so the result is given a
/// name here rather than written out.
pub uninterp spec fn url_host(url: Seq<char>) -> Option<Seq<char>>;

/// Relies on url::Url::parse and url::Url::host_str: whether a string parses
/// as an absolute URL, and what its host component is, depend on the string's
/// characters alone.
#[verifier::external_body]
pub(crate) fn parse_url_host(url: &str) -> (r: Option<String>)
    ensures
        r.deep_view() == url_host(url@),
{
    match url::Url::parse(url) {
        Ok(u) => u.host_str().map(|h| String::from(h)),
        Err(_) => None,
    }
}

/// `suffix` stands at the end of `s`.
pub open spec fn suffix_of(s: Seq<char>, suffix: Seq<char>) -> bool {
    s.len() >= suffix.len() && s.subrange(s.len() - suffix.len(), s.len() as int) == suffix
}

/// A host matches a whitelist entry when it equals the entry, or lies in a
/// subdomain of it: it ends with `"."` followed by the entry.
pub open spec fn domain_matches(host: Seq<char>, entry: Seq<char>) -> bool {
    host == entry || suffix_of(host, seq!['.'] + entry)
}

/// The first whitelist entry that the host matches, or `None` when no entry
/// matches. On a match the entry itself is returned, not the host, so that a
/// subdomain groups under the whitelisted domain.
pub open spec fn first_match(host: Seq<char>, whitelist: Seq<Seq<char>>) -> Option<Seq<char>>
    decreases whitelist.len(),
{
    if whitelist.len() == 0 {
        None
    } else if domain_matches(host, whitelist[0]) {
        Some(whitelist[0])
    } else {
        first_match(host, whitelist.drop_first())
    }
}

/// What the domain filter decides for one URL against a whitelist whose
/// entries are already lowercase: reject a string with no host; with an empty
/// whitelist accept every host, returning it lowercased; otherwise accept
/// exactly the hosts whose lowercase form matches some entry, returning the
/// first matching entry.
pub open spec fn spec_accept(url: Seq<char>, whitelist: Seq<Seq<char>>) -> Option<Seq<char>> {
    match url_host(url) {
        None => None,
        Some(h) => {
            if whitelist.len() == 0 {
                Some(lower_of(h))
            } else {
                first_match(lower_of(h), whitelist)
            }
        },
    }
}

/// With an empty whitelist the filter accepts every URL that has a host, and
/// returns that host lowercased; it still rejects a URL with no host.
pub proof fn lemma_empty_whitelist_accepts(url: Seq<char>)
    ensures
        spec_accept(url, Seq::<Seq<char>>::empty()) == (match url_host(url) {
            None => None,
            Some(h) => Some(lower_of(h)),
        }),
{
}

/// A match against a non-empty whitelist returns a whitelist entry that the
/// host matches, never the raw host; and when the host equals some entry, the
/// match never fails.
pub proof fn lemma_first_match_sound(host: Seq<char>, whitelist: Seq<Seq<char>>)
    ensures
        first_match(host, whitelist) matches Some(e) ==> whitelist.contains(e) && domain_matches(
            host,
            e,
        ),
        whitelist.contains(host) ==> first_match(host, whitelist) is Some,
    decreases whitelist.len(),
{
    if whitelist.len() > 0 {
        lemma_first_match_sound(host, whitelist.drop_first());
        if !domain_matches(host, whitelist[0]) {
            assert(whitelist.drop_first().contains(host) ==> whitelist.contains(host));
            if whitelist.contains(host) {
                let i = choose|i: int| 0 <= i < whitelist.len() && whitelist[i] == host;
                assert(i > 0);
                assert(whitelist.drop_first()[i - 1] == host);
            }
        }
    }
}

/// Whether `s` ends with `suffix`, by characters.
pub fn str_ends_with(s: &str, suffix: &str) -> (r: bool)
    ensures
        r == suffix_of(s@, suffix@),
{
    let s_len = s.unicode_len();
    let suf_len = suffix.unicode_len();
    if suf_len > s_len {
        return false;
    }
    let start = s_len - suf_len;
    let mut k: usize = 0;
    while k < suf_len
        invariant
            0 <= k <= suf_len,
            start == s@.len() - suffix@.len(),
            suf_len == suffix@.len(),
            s_len == s@.len(),
            forall|m: int| 0 <= m < k ==> s@[start + m] == suffix@[m],
        decreases suf_len - k,
    {
        if s.get_char(start + k) != suffix.get_char(k) {
            assert(s@.subrange(start as int, s_len as int)[k as int] != suffix@[k as int]);
            return false;
        }
        k += 1;
    }
    assert(s@.subrange(start as int, s_len as int) =~= suffix@);
    true
}

/// The first entry of `whitelist` that `host` matches: the entry itself when
/// `host` equals it or ends with `"."` followed by it, and `None` when no
/// entry matches.
pub fn match_whitelist(host: &String, whitelist: &Vec<String>) -> (r: Option<String>)
    ensures
        r.deep_view() == first_match(host@, whitelist.deep_view()),
{
    let ghost wl = whitelist.deep_view();
    proof {
        assert(wl.skip(0) =~= wl);
    }
    let mut i: usize = 0;
    while i < whitelist.len()
        invariant
            0 <= i <= whitelist.len(),
            wl == whitelist.deep_view(),
            first_match(host@, wl) == first_match(host@, wl.skip(i as int)),
        decreases whitelist.len() - i,
    {
        let entry = &whitelist[i];
        let mut dot_entry = String::from_str(".");
        dot_entry.append(entry.as_str());
        proof {
            reveal_strlit(".");
            assert(dot_entry@ =~= seq!['.'] + entry@);
            assert(wl.skip(i as int)[0] == entry@);
        }
        if *entry == *host || str_ends_with(host.as_str(), dot_entry.as_str()) {
            assert(domain_matches(host@, wl.skip(i as int)[0]));
            return Some(entry.clone());
        }
        proof {
            assert(!domain_matches(host@, wl.skip(i as int)[0]));
            assert(wl.skip(i as int).drop_first() =~= wl.skip(i as int + 1));
        }
        i += 1;
    }
    proof {
        assert(wl.skip(i as int) =~= Seq::<Seq<char>>::empty());
    }
    None
}

} // verus!
