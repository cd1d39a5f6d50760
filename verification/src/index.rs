use vstd::prelude::*;

use crate::link::Link;
use crate::link::LinkModel;

verus! {

/// Whether `url` contains a `#`.
pub open spec fn has_hash(url: Seq<char>) -> bool {
    exists|i: int| 0 <= i < url.len() && url[i] == '#'
}

/// The fragment of a URL: the text after the last `#`, or empty when the URL
/// has no `#`. A URL with several `#` characters, which the lenient scanner
/// can produce, keeps only the text after the final one.
pub open spec fn spec_fragment(url: Seq<char>) -> Seq<char>
    decreases url.len(),
{
    if url.len() == 0 {
        Seq::empty()
    } else if url.last() == '#' {
        Seq::empty()
    } else if has_hash(url.drop_last()) {
        spec_fragment(url.drop_last()).push(url.last())
    } else {
        Seq::empty()
    }
}

/// A URL with no `#` has the empty fragment.
pub proof fn lemma_fragment_no_hash(url: Seq<char>)
    requires
        !has_hash(url),
    ensures
        spec_fragment(url) == Seq::<char>::empty(),
{
    if url.len() > 0 {
        assert(url[url.len() - 1] != '#');
        assert(!has_hash(url.drop_last())) by {
            if has_hash(url.drop_last()) {
                let j = choose|j: int| 0 <= j < url.drop_last().len() && url.drop_last()[j] == '#';
                assert(url[j] == '#');
            }
        }
    }
}

/// When the last `#` of a URL stands at position `i`, the fragment is exactly
/// the text after it.
pub proof fn lemma_fragment_after_last_hash(url: Seq<char>, i: int)
    requires
        0 <= i < url.len(),
        url[i] == '#',
        forall|j: int| i < j < url.len() ==> url[j] != '#',
    ensures
        spec_fragment(url) == url.subrange(i + 1, url.len() as int),
    decreases url.len(),
{
    if i == url.len() - 1 {
        assert(url.last() == '#');
        assert(url.subrange(i + 1, url.len() as int) =~= Seq::<char>::empty());
    } else {
        assert(url.last() != '#');
        assert(url.drop_last()[i] == '#');
        assert(has_hash(url.drop_last()));
        lemma_fragment_after_last_hash(url.drop_last(), i);
        assert(url.drop_last().subrange(i + 1, url.len() - 1).push(url.last()) =~= url.subrange(
            i + 1,
            url.len() as int,
        ));
    }
}

/// The fragment of a URL: the text after its last `#`, or the empty string
/// when it has no `#`.
pub fn fragment_of(url: &str) -> (r: String)
    ensures
        r@ == spec_fragment(url@),
{
    let len = url.unicode_len();
    let mut i: usize = len;
    while i > 0
        invariant
            0 <= i <= len,
            len == url@.len(),
            forall|j: int| i <= j < len ==> url@[j] != '#',
        decreases i,
    {
        if url.get_char(i - 1) == '#' {
            let frag = url.substring_char(i, len);
            proof {
                lemma_fragment_after_last_hash(url@, i - 1);
            }
            return frag.to_owned();
        }
        i -= 1;
    }
    proof {
        assert(!has_hash(url@));
        lemma_fragment_no_hash(url@);
    }
    String::new()
}

/// Whether a link belongs to the bucket keyed by `domain` and `fragment`.
pub open spec fn link_in_bucket(l: LinkModel, domain: Seq<char>, fragment: Seq<char>) -> bool {
    l.domain == domain && spec_fragment(l.url) == fragment
}

/// The links of `links` that belong to the bucket `(domain, fragment)`, in
/// their given order.
pub open spec fn bucket_of(links: Seq<LinkModel>, domain: Seq<char>, fragment: Seq<char>) -> Seq<
    LinkModel,
>
    decreases links.len(),
{
    if links.len() == 0 {
        Seq::empty()
    } else {
        let rest = bucket_of(links.drop_last(), domain, fragment);
        if link_in_bucket(links.last(), domain, fragment) {
            rest.push(links.last())
        } else {
            rest
        }
    }
}

/// The links grouped under one fragment of one domain, in insertion order.
pub struct FragmentGroup {
    pub fragment: String,
    pub links: Vec<Link>,
}

/// The fragment groups of one domain.
pub struct DomainGroup {
    pub domain: String,
    pub groups: Vec<FragmentGroup>,
}

/// Links grouped by domain, then by URL fragment. Built once from a flat link
/// collection; never mutated afterwards.
pub struct Index {
    pub index: Vec<DomainGroup>,
}

/// The links of the group for `fragment`, or empty when no group carries that
/// fragment.
pub open spec fn domain_bucket(groups: Seq<FragmentGroup>, fragment: Seq<char>) -> Seq<LinkModel>
    decreases groups.len(),
{
    if groups.len() == 0 {
        Seq::empty()
    } else if groups[0].fragment@ == fragment {
        groups[0].links.deep_view()
    } else {
        domain_bucket(groups.drop_first(), fragment)
    }
}

/// The links filed under `(domain, fragment)`, or empty when the index has no
/// such bucket.
pub open spec fn index_bucket(
    index: Seq<DomainGroup>,
    domain: Seq<char>,
    fragment: Seq<char>,
) -> Seq<LinkModel>
    decreases index.len(),
{
    if index.len() == 0 {
        Seq::empty()
    } else if index[0].domain@ == domain {
        domain_bucket(index[0].groups@, fragment)
    } else {
        index_bucket(index.drop_first(), domain, fragment)
    }
}

/// Whether the index holds a group for `domain`.
pub open spec fn has_domain(index: Seq<DomainGroup>, domain: Seq<char>) -> bool {
    exists|i: int| 0 <= i < index.len() && index[i].domain@ == domain
}

impl FragmentGroup {
    /// Every link of the group lies in the bucket named by the group's
    /// fragment and its domain's name, and the group is never empty.
    pub open spec fn wf(&self, domain: Seq<char>) -> bool {
        &&& self.links@.len() > 0
        &&& forall|k: int|
            0 <= k < self.links@.len() ==> link_in_bucket(
                (#[trigger] self.links@[k])@,
                domain,
                self.fragment@,
            )
    }
}

impl DomainGroup {
    /// The fragments of the domain's groups are distinct, and every group is
    /// well-formed for this domain.
    pub open spec fn wf(&self) -> bool {
        &&& forall|a: int, b: int|
            0 <= a < b < self.groups@.len() ==> (#[trigger] self.groups@[a]).fragment@ != (
            #[trigger] self.groups@[b]).fragment@
        &&& forall|k: int| 0 <= k < self.groups@.len() ==> (#[trigger] self.groups@[k]).wf(
            self.domain@,
        )
        &&& self.groups@.len() > 0
    }
}

/// The domains of `index` are distinct and every domain group is well-formed.
pub open spec fn index_wf(index: Seq<DomainGroup>) -> bool {
    &&& forall|a: int, b: int|
        0 <= a < b < index.len() ==> (#[trigger] index[a]).domain@ != (
        #[trigger] index[b]).domain@
    &&& forall|k: int| 0 <= k < index.len() ==> (#[trigger] index[k]).wf()
}

impl Index {
    /// The domains of the index are distinct and every domain group is
    /// well-formed.
    pub open spec fn wf(&self) -> bool {
        index_wf(self.index@)
    }

    /// The links the index files under `(domain, fragment)`.
    pub open spec fn spec_bucket(&self, domain: Seq<char>, fragment: Seq<char>) -> Seq<LinkModel> {
        index_bucket(self.index@, domain, fragment)
    }
}

/// When the first group carrying `f` stands at position `q`, the lookup
/// returns that group's links.
proof fn lemma_domain_bucket_first(groups: Seq<FragmentGroup>, q: int, f: Seq<char>)
    requires
        0 <= q < groups.len(),
        groups[q].fragment@ == f,
        forall|m: int| 0 <= m < q ==> (#[trigger] groups[m]).fragment@ != f,
    ensures
        domain_bucket(groups, f) == groups[q].links.deep_view(),
    decreases q,
{
    if q > 0 {
        assert(groups[0].fragment@ != f);
        assert(groups.drop_first()[q - 1] == groups[q]);
        assert forall|m: int| 0 <= m < q - 1 implies (#[trigger] groups.drop_first()[m]).fragment@
            != f by {
            assert(groups.drop_first()[m] == groups[m + 1]);
        }
        lemma_domain_bucket_first(groups.drop_first(), q - 1, f);
    }
}

/// When no group carries `f`, the lookup returns nothing.
proof fn lemma_domain_bucket_absent(groups: Seq<FragmentGroup>, f: Seq<char>)
    requires
        forall|m: int| 0 <= m < groups.len() ==> (#[trigger] groups[m]).fragment@ != f,
    ensures
        domain_bucket(groups, f) == Seq::<LinkModel>::empty(),
    decreases groups.len(),
{
    if groups.len() > 0 {
        assert forall|m: int|
            0 <= m < groups.drop_first().len() implies (#[trigger] groups.drop_first()[
        m]).fragment@ != f by {
            assert(groups.drop_first()[m] == groups[m + 1]);
        }
        lemma_domain_bucket_absent(groups.drop_first(), f);
    }
}

/// Replacing the first group that carries a fragment changes the lookup for
/// that fragment alone.
proof fn lemma_domain_bucket_update(groups: Seq<FragmentGroup>, q: int, fg: FragmentGroup, f: Seq<char>)
    requires
        0 <= q < groups.len(),
        fg.fragment@ == groups[q].fragment@,
        forall|m: int| 0 <= m < q ==> (#[trigger] groups[m]).fragment@ != groups[q].fragment@,
    ensures
        domain_bucket(groups.update(q, fg), f) == if f == fg.fragment@ {
            fg.links.deep_view()
        } else {
            domain_bucket(groups, f)
        },
    decreases q,
{
    let g2 = groups.update(q, fg);
    if q == 0 {
        assert(g2[0] == fg);
        if f != fg.fragment@ {
            assert(g2.drop_first() =~= groups.drop_first());
        }
    } else {
        assert(g2[0] == groups[0]);
        assert(groups[0].fragment@ != groups[q].fragment@);
        assert(g2.drop_first() =~= groups.drop_first().update(q - 1, fg));
        assert(groups.drop_first()[q - 1] == groups[q]);
        assert forall|m: int| 0 <= m < q - 1 implies (#[trigger] groups.drop_first()[m]).fragment@
            != groups.drop_first()[q - 1].fragment@ by {
            assert(groups.drop_first()[m] == groups[m + 1]);
        }
        lemma_domain_bucket_update(groups.drop_first(), q - 1, fg, f);
    }
}

/// Appending a group with a fragment no other group carries changes the
/// lookup for that fragment alone.
proof fn lemma_domain_bucket_push(groups: Seq<FragmentGroup>, ng: FragmentGroup, f: Seq<char>)
    requires
        forall|m: int| 0 <= m < groups.len() ==> (#[trigger] groups[m]).fragment@ != ng.fragment@,
    ensures
        domain_bucket(groups.push(ng), f) == if f == ng.fragment@ {
            ng.links.deep_view()
        } else {
            domain_bucket(groups, f)
        },
    decreases groups.len(),
{
    let g2 = groups.push(ng);
    assert(g2.len() == groups.len() + 1);
    if groups.len() == 0 {
        assert(g2[0] == ng);
        if f == ng.fragment@ {
            assert(domain_bucket(g2, f) == ng.links.deep_view());
        } else {
            assert(g2.drop_first() =~= Seq::<FragmentGroup>::empty());
            assert(domain_bucket(Seq::<FragmentGroup>::empty(), f) == Seq::<LinkModel>::empty());
            assert(domain_bucket(g2, f) == Seq::<LinkModel>::empty());
        }
    } else {
        assert(g2[0] == groups[0]);
        assert(g2.drop_first() =~= groups.drop_first().push(ng));
        assert forall|m: int|
            0 <= m < groups.drop_first().len() implies (#[trigger] groups.drop_first()[
        m]).fragment@ != ng.fragment@ by {
            assert(groups.drop_first()[m] == groups[m + 1]);
        }
        lemma_domain_bucket_push(groups.drop_first(), ng, f);
        if groups[0].fragment@ == f {
            assert(domain_bucket(g2, f) == g2[0].links.deep_view());
            assert(domain_bucket(groups, f) == groups[0].links.deep_view());
        } else {
            assert(domain_bucket(g2, f) == domain_bucket(g2.drop_first(), f));
            assert(domain_bucket(g2.drop_first(), f) == domain_bucket(
                groups.drop_first().push(ng),
                f,
            ));
        }
    }
}

/// When the first group for a domain stands at position `p`, the lookup for
/// that domain reads that group.
proof fn lemma_index_bucket_first(index: Seq<DomainGroup>, p: int, f: Seq<char>)
    requires
        0 <= p < index.len(),
        forall|m: int| 0 <= m < p ==> (#[trigger] index[m]).domain@ != index[p].domain@,
    ensures
        index_bucket(index, index[p].domain@, f) == domain_bucket(index[p].groups@, f),
    decreases p,
{
    if p > 0 {
        assert(index[0].domain@ != index[p].domain@);
        assert(index.drop_first()[p - 1] == index[p]);
        assert forall|m: int| 0 <= m < p - 1 implies (#[trigger] index.drop_first()[m]).domain@
            != index.drop_first()[p - 1].domain@ by {
            assert(index.drop_first()[m] == index[m + 1]);
        }
        lemma_index_bucket_first(index.drop_first(), p - 1, f);
    }
}

/// When no group carries `d`, the lookup returns nothing.
proof fn lemma_index_bucket_absent(index: Seq<DomainGroup>, d: Seq<char>, f: Seq<char>)
    requires
        forall|m: int| 0 <= m < index.len() ==> (#[trigger] index[m]).domain@ != d,
    ensures
        index_bucket(index, d, f) == Seq::<LinkModel>::empty(),
    decreases index.len(),
{
    if index.len() > 0 {
        assert forall|m: int|
            0 <= m < index.drop_first().len() implies (#[trigger] index.drop_first()[
        m]).domain@ != d by {
            assert(index.drop_first()[m] == index[m + 1]);
        }
        lemma_index_bucket_absent(index.drop_first(), d, f);
    }
}

/// Replacing the first group of a domain changes lookups for that domain
/// alone.
proof fn lemma_index_bucket_update(
    index: Seq<DomainGroup>,
    p: int,
    dg: DomainGroup,
    d: Seq<char>,
    f: Seq<char>,
)
    requires
        0 <= p < index.len(),
        dg.domain@ == index[p].domain@,
        forall|m: int| 0 <= m < p ==> (#[trigger] index[m]).domain@ != index[p].domain@,
    ensures
        index_bucket(index.update(p, dg), d, f) == if d == dg.domain@ {
            domain_bucket(dg.groups@, f)
        } else {
            index_bucket(index, d, f)
        },
    decreases p,
{
    let i2 = index.update(p, dg);
    if p == 0 {
        assert(i2[0] == dg);
        if d != dg.domain@ {
            assert(i2.drop_first() =~= index.drop_first());
        }
    } else {
        assert(i2[0] == index[0]);
        assert(index[0].domain@ != index[p].domain@);
        assert(i2.drop_first() =~= index.drop_first().update(p - 1, dg));
        assert(index.drop_first()[p - 1] == index[p]);
        assert forall|m: int| 0 <= m < p - 1 implies (#[trigger] index.drop_first()[m]).domain@
            != index.drop_first()[p - 1].domain@ by {
            assert(index.drop_first()[m] == index[m + 1]);
        }
        lemma_index_bucket_update(index.drop_first(), p - 1, dg, d, f);
    }
}

/// Appending a group for a domain no other group carries changes lookups for
/// that domain alone.
proof fn lemma_index_bucket_push(index: Seq<DomainGroup>, ng: DomainGroup, d: Seq<char>, f: Seq<char>)
    requires
        forall|m: int| 0 <= m < index.len() ==> (#[trigger] index[m]).domain@ != ng.domain@,
    ensures
        index_bucket(index.push(ng), d, f) == if d == ng.domain@ {
            domain_bucket(ng.groups@, f)
        } else {
            index_bucket(index, d, f)
        },
    decreases index.len(),
{
    let i2 = index.push(ng);
    if index.len() == 0 {
        assert(i2[0] == ng);
        if d != ng.domain@ {
            assert(i2.drop_first() =~= Seq::<DomainGroup>::empty());
            assert(index_bucket(Seq::<DomainGroup>::empty(), d, f) == Seq::<LinkModel>::empty());
            assert(index_bucket(i2, d, f) == Seq::<LinkModel>::empty());
        }
    } else {
        assert(i2[0] == index[0]);
        assert(i2.drop_first() =~= index.drop_first().push(ng));
        assert forall|m: int|
            0 <= m < index.drop_first().len() implies (#[trigger] index.drop_first()[
        m]).domain@ != ng.domain@ by {
            assert(index.drop_first()[m] == index[m + 1]);
        }
        lemma_index_bucket_push(index.drop_first(), ng, d, f);
    }
}

/// The position of the first domain group named `domain`, or `None` when no
/// group carries that name.
fn find_domain_pos(index: &Vec<DomainGroup>, domain: &String) -> (r: Option<usize>)
    ensures
        match r {
            Some(p) => 0 <= p < index@.len() && index@[p as int].domain@ == domain@ && forall|
                q: int,
            | 0 <= q < p ==> (#[trigger] index@[q]).domain@ != domain@,
            None => forall|q: int| 0 <= q < index@.len() ==> (#[trigger] index@[q]).domain@
                != domain@,
        },
{
    let mut p: usize = 0;
    while p < index.len()
        invariant
            0 <= p <= index@.len(),
            forall|q: int| 0 <= q < p ==> (#[trigger] index@[q]).domain@ != domain@,
        decreases index@.len() - p,
    {
        if index[p].domain == *domain {
            return Some(p);
        }
        p += 1;
    }
    None
}

/// The position of the first fragment group named `fragment`, or `None` when
/// no group carries that name.
fn find_fragment_pos(groups: &Vec<FragmentGroup>, fragment: &String) -> (r: Option<usize>)
    ensures
        match r {
            Some(q) => 0 <= q < groups@.len() && groups@[q as int].fragment@ == fragment@
                && forall|m: int| 0 <= m < q ==> (#[trigger] groups@[m]).fragment@ != fragment@,
            None => forall|m: int| 0 <= m < groups@.len() ==> (#[trigger] groups@[m]).fragment@
                != fragment@,
        },
{
    let mut q: usize = 0;
    while q < groups.len()
        invariant
            0 <= q <= groups@.len(),
            forall|m: int| 0 <= m < q ==> (#[trigger] groups@[m]).fragment@ != fragment@,
        decreases groups@.len() - q,
    {
        if groups[q].fragment == *fragment {
            return Some(q);
        }
        q += 1;
    }
    None
}

/// File one link, whose fragment is `frag`, under its fragment within one
/// domain group: append it to the group for `frag`, or open a new group for
/// `frag` at the end.
fn insert_into_domain(dg: DomainGroup, frag: String, link: Link) -> (r: DomainGroup)
    requires
        dg.wf(),
        frag@ == spec_fragment(link@.url),
        link@.domain == dg.domain@,
    ensures
        r.wf(),
        r.domain@ == dg.domain@,
        forall|f: Seq<char>|
            #![trigger domain_bucket(r.groups@, f)]
            domain_bucket(r.groups@, f) == if f == frag@ {
                domain_bucket(dg.groups@, f).push(link@)
            } else {
                domain_bucket(dg.groups@, f)
            },
{
    let ghost g0 = dg.groups@;
    let ghost dom = dg.domain@;
    let ghost l = link@;
    let DomainGroup { domain, groups } = dg;
    let mut groups = groups;
    match find_fragment_pos(&groups, &frag) {
        Some(q) => {
            let mut fg = groups.remove(q);
            let ghost fg0 = fg;
            fg.links.push(link);
            proof {
                assert(fg.links.deep_view() =~= fg0.links.deep_view().push(l)) by {
                    assert(fg.links@ == fg0.links@.push(link));
                    assert forall|k: int| 0 <= k < fg.links@.len() implies fg.links.deep_view()[k]
                        == fg0.links.deep_view().push(l)[k] by {
                        if k < fg0.links@.len() {
                            assert(fg.links@[k] == fg0.links@[k]);
                        } else {
                            assert(fg.links@[k] == link);
                        }
                    }
                }
            }
            groups.insert(q, fg);
            proof {
                assert(groups@ =~= g0.update(q as int, fg));
                lemma_domain_bucket_first(g0, q as int, frag@);
                assert forall|f: Seq<char>|
                    #![trigger domain_bucket(groups@, f)]
                    domain_bucket(groups@, f) == if f == frag@ {
                        domain_bucket(g0, f).push(l)
                    } else {
                        domain_bucket(g0, f)
                    } by {
                    lemma_domain_bucket_update(g0, q as int, fg, f);
                }
                assert forall|a: int, b: int|
                    0 <= a < b < groups@.len() implies (#[trigger] groups@[a]).fragment@ != (
                #[trigger] groups@[b]).fragment@ by {
                    assert(groups@[a].fragment@ == g0[a].fragment@);
                    assert(groups@[b].fragment@ == g0[b].fragment@);
                }
                assert forall|k: int| 0 <= k < groups@.len() implies (#[trigger] groups@[k]).wf(
                    dom,
                ) by {
                    if k != q {
                        assert(groups@[k] == g0[k]);
                    } else {
                        assert(link_in_bucket(l, dom, frag@));
                        assert(fg0.wf(dom));
                        assert forall|m: int| 0 <= m < fg.links@.len() implies link_in_bucket(
                            (#[trigger] fg.links@[m])@,
                            dom,
                            fg.fragment@,
                        ) by {
                            if m < fg0.links@.len() {
                                assert(fg.links@[m] == fg0.links@[m]);
                            } else {
                                assert(fg.links@[m] == link);
                            }
                        }
                    }
                }
            }
            DomainGroup { domain, groups }
        },
        None => {
            let mut links0: Vec<Link> = Vec::new();
            links0.push(link);
            let fg = FragmentGroup { fragment: frag, links: links0 };
            groups.push(fg);
            proof {
                let ng = groups@.last();
                assert(groups@ == g0.push(ng));
                assert(ng.links.deep_view() =~= Seq::<LinkModel>::empty().push(l));
                lemma_domain_bucket_absent(g0, frag@);
                assert forall|f: Seq<char>|
                    #![trigger domain_bucket(groups@, f)]
                    domain_bucket(groups@, f) == if f == frag@ {
                        domain_bucket(g0, f).push(l)
                    } else {
                        domain_bucket(g0, f)
                    } by {
                    lemma_domain_bucket_push(g0, ng, f);
                    if f == frag@ {
                        assert(domain_bucket(g0, f) == Seq::<LinkModel>::empty());
                        assert(domain_bucket(g0, f).push(l) =~= ng.links.deep_view());
                    }
                }
                assert forall|a: int, b: int|
                    0 <= a < b < groups@.len() implies (#[trigger] groups@[a]).fragment@ != (
                #[trigger] groups@[b]).fragment@ by {
                    if b < g0.len() {
                        assert(groups@[a] == g0[a]);
                        assert(groups@[b] == g0[b]);
                    } else {
                        assert(groups@[b] == ng);
                        assert(groups@[a] == g0[a]);
                    }
                }
                assert forall|k: int| 0 <= k < groups@.len() implies (#[trigger] groups@[k]).wf(
                    dom,
                ) by {
                    if k < g0.len() {
                        assert(groups@[k] == g0[k]);
                    } else {
                        assert(groups@[k] == ng);
                        assert(link_in_bucket(l, dom, frag@));
                        assert(ng.links@ == Seq::<Link>::empty().push(link));
                        assert(ng.links@[0] == link);
                    }
                }
            }
            DomainGroup { domain, groups }
        },
    }
}


/// One scan step: extending the flat collection by one link extends exactly
/// the bucket that link belongs to.
proof fn lemma_bucket_of_take_step(links: Seq<LinkModel>, n: int, d: Seq<char>, f: Seq<char>)
    requires
        0 <= n < links.len(),
    ensures
        bucket_of(links.take(n + 1), d, f) == if link_in_bucket(links[n], d, f) {
            bucket_of(links.take(n), d, f).push(links[n])
        } else {
            bucket_of(links.take(n), d, f)
        },
{
    let t = links.take(n + 1);
    assert(t.drop_last() =~= links.take(n));
    assert(t.last() == links[n]);
}

impl Index {
    /// Group a flat link collection by domain, then by URL fragment. Every
    /// link lands in the bucket keyed by its domain and its URL's fragment,
    /// in the order the collection gives it; no other bucket exists, and a
    /// domain appears in the index exactly when some link carries it.
    pub fn from_raw_data(raw_data: Vec<Link>) -> (r: Index)
        ensures
            r.wf(),
            forall|d: Seq<char>, f: Seq<char>|
                #![trigger r.spec_bucket(d, f)]
                r.spec_bucket(d, f) == bucket_of(raw_data.deep_view(), d, f),
            forall|d: Seq<char>|
                #![trigger has_domain(r.index@, d)]
                has_domain(r.index@, d) <==> (exists|k: int|
                    0 <= k < raw_data.deep_view().len() && (#[trigger] raw_data.deep_view()[
                    k]).domain == d),
    {
        let ghost all = raw_data.deep_view();
        let mut result: Vec<DomainGroup> = Vec::new();
        let mut n: usize = 0;
        while n < raw_data.len()
            invariant
                0 <= n <= raw_data@.len(),
                all == raw_data.deep_view(),
                all.len() == raw_data@.len(),
                index_wf(result@),
                forall|d: Seq<char>, f: Seq<char>|
                    #![trigger index_bucket(result@, d, f)]
                    index_bucket(result@, d, f) == bucket_of(all.take(n as int), d, f),
                forall|d: Seq<char>|
                    #![trigger has_domain(result@, d)]
                    has_domain(result@, d) <==> (exists|k: int|
                        0 <= k < n && (#[trigger] all[k]).domain == d),
            decreases raw_data@.len() - n,
        {
            let link = raw_data[n].duplicate();
            let ghost l = link@;
            proof {
                assert(all[n as int] == l);
            }
            let frag = fragment_of(link.url.as_str());
            let ghost f0 = spec_fragment(l.url);
            let ghost d0 = l.domain;
            let ghost r0 = result@;
            match find_domain_pos(&result, &link.domain) {
                Some(p) => {
                    let dg = result.remove(p);
                    proof {
                        assert(dg == r0[p as int]);
                        assert(dg.wf());
                    }
                    let dg2 = insert_into_domain(dg, frag, link);
                    result.insert(p, dg2);
                    proof {
                        assert(result@ =~= r0.update(p as int, dg2));
                        assert(dg2.domain@ == d0);
                        assert forall|d: Seq<char>, f: Seq<char>|
                            #![trigger index_bucket(result@, d, f)]
                            index_bucket(result@, d, f) == bucket_of(all.take(n + 1), d, f) by {
                            lemma_index_bucket_update(r0, p as int, dg2, d, f);
                            lemma_index_bucket_first(r0, p as int, f);
                            lemma_bucket_of_take_step(all, n as int, d, f);
                            assert(index_bucket(r0, d, f) == bucket_of(all.take(n as int), d, f));
                            if d == d0 {
                                assert(index_bucket(r0, d0, f) == domain_bucket(
                                    r0[p as int].groups@,
                                    f,
                                ));
                                assert(domain_bucket(dg2.groups@, f) == if f == f0 {
                                    domain_bucket(dg.groups@, f).push(l)
                                } else {
                                    domain_bucket(dg.groups@, f)
                                });
                            }
                        }
                        assert forall|a: int, b: int|
                            0 <= a < b < result@.len() implies (#[trigger] result@[a]).domain@ != (
                        #[trigger] result@[b]).domain@ by {
                            assert(result@[a].domain@ == r0[a].domain@);
                            assert(result@[b].domain@ == r0[b].domain@);
                        }
                        assert forall|k: int| 0 <= k < result@.len() implies (#[trigger] result@[
                        k]).wf() by {
                            if k != p {
                                assert(result@[k] == r0[k]);
                            }
                        }
                        assert forall|d: Seq<char>|
                            #![trigger has_domain(result@, d)]
                            has_domain(result@, d) <==> (exists|k: int|
                                0 <= k < n + 1 && (#[trigger] all[k]).domain == d) by {
                            if has_domain(result@, d) {
                                let i = choose|i: int|
                                    0 <= i < result@.len() && result@[i].domain@ == d;
                                assert(r0[i].domain@ == d);
                                assert(has_domain(r0, d));
                            }
                            if exists|k: int| 0 <= k < n + 1 && (#[trigger] all[k]).domain == d {
                                let k = choose|k: int|
                                    0 <= k < n + 1 && (#[trigger] all[k]).domain == d;
                                if k < n {
                                    assert(has_domain(r0, d));
                                    let i = choose|i: int|
                                        0 <= i < r0.len() && r0[i].domain@ == d;
                                    assert(result@[i].domain@ == d);
                                    assert(has_domain(result@, d));
                                } else {
                                    assert(result@[p as int].domain@ == d0);
                                    assert(has_domain(result@, d));
                                }
                            }
                        }
                    }
                },
                None => {
                    let dom = link.domain.clone();
                    let mut links0: Vec<Link> = Vec::new();
                    links0.push(link);
                    let mut groups0: Vec<FragmentGroup> = Vec::new();
                    groups0.push(FragmentGroup { fragment: frag, links: links0 });
                    let ng = DomainGroup { domain: dom, groups: groups0 };
                    proof {
                        assert(ng.domain@ == d0);
                        assert(ng.groups@.len() == 1);
                        assert(ng.groups@[0].fragment@ == f0);
                        assert(ng.groups@[0].links@.len() == 1);
                        assert(ng.groups@[0].links@[0] == link);
                    }
                    result.push(ng);
                    proof {
                        assert(result@ == r0.push(ng));
                        let fgv = ng.groups@[0];
                        assert forall|f: Seq<char>| #![trigger domain_bucket(ng.groups@, f)]
                            domain_bucket(ng.groups@, f) == if f == f0 {
                                fgv.links.deep_view()
                            } else {
                                Seq::<LinkModel>::empty()
                            } by {
                            if f != f0 {
                                assert(ng.groups@.drop_first() =~= Seq::<FragmentGroup>::empty());
                                assert(domain_bucket(Seq::<FragmentGroup>::empty(), f)
                                    == Seq::<LinkModel>::empty());
                            }
                        }
                        assert(fgv.links.deep_view() =~= Seq::<LinkModel>::empty().push(l));
                        assert forall|d: Seq<char>, f: Seq<char>|
                            #![trigger index_bucket(result@, d, f)]
                            index_bucket(result@, d, f) == bucket_of(all.take(n + 1), d, f) by {
                            lemma_index_bucket_push(r0, ng, d, f);
                            lemma_bucket_of_take_step(all, n as int, d, f);
                            assert(index_bucket(r0, d, f) == bucket_of(all.take(n as int), d, f));
                            if d == d0 {
                                lemma_index_bucket_absent(r0, d0, f);
                            }
                        }
                        assert forall|a: int, b: int|
                            0 <= a < b < result@.len() implies (#[trigger] result@[a]).domain@ != (
                        #[trigger] result@[b]).domain@ by {
                            if b < r0.len() {
                                assert(result@[a] == r0[a]);
                                assert(result@[b] == r0[b]);
                            } else {
                                assert(result@[b] == ng);
                                assert(result@[a] == r0[a]);
                            }
                        }
                        assert forall|k: int| 0 <= k < result@.len() implies (#[trigger] result@[
                        k]).wf() by {
                            if k < r0.len() {
                                assert(result@[k] == r0[k]);
                            } else {
                                assert(result@[k] == ng);
                                assert(link_in_bucket(l, d0, f0));
                                assert(ng.groups@[0].wf(d0));
                            }
                        }
                        assert forall|d: Seq<char>|
                            #![trigger has_domain(result@, d)]
                            has_domain(result@, d) <==> (exists|k: int|
                                0 <= k < n + 1 && (#[trigger] all[k]).domain == d) by {
                            if has_domain(result@, d) {
                                let i = choose|i: int|
                                    0 <= i < result@.len() && result@[i].domain@ == d;
                                if i < r0.len() {
                                    assert(r0[i].domain@ == d);
                                    assert(has_domain(r0, d));
                                } else {
                                    assert(all[n as int].domain == d);
                                }
                            }
                            if exists|k: int| 0 <= k < n + 1 && (#[trigger] all[k]).domain == d {
                                let k = choose|k: int|
                                    0 <= k < n + 1 && (#[trigger] all[k]).domain == d;
                                if k < n {
                                    assert(has_domain(r0, d));
                                    let i = choose|i: int|
                                        0 <= i < r0.len() && r0[i].domain@ == d;
                                    assert(result@[i].domain@ == d);
                                    assert(has_domain(result@, d));
                                } else {
                                    assert(result@[r0.len() as int].domain@ == d0);
                                    assert(has_domain(result@, d));
                                }
                            }
                        }
                    }
                },
            }
            n += 1;
        }
        proof {
            assert(all.take(all.len() as int) =~= all);
        }
        Index { index: result }
    }
}


/// Membership of the bucket keyed by `domain` and `fragment`, as a predicate
/// on links.
pub open spec fn bucket_pred(domain: Seq<char>, fragment: Seq<char>) -> spec_fn(LinkModel) -> bool {
    |l: LinkModel| link_in_bucket(l, domain, fragment)
}

/// As multisets, a bucket holds exactly the links of the flat collection that
/// belong to it.
proof fn lemma_bucket_of_multiset(links: Seq<LinkModel>, d: Seq<char>, f: Seq<char>)
    ensures
        bucket_of(links, d, f).to_multiset() =~= links.to_multiset().filter(bucket_pred(d, f)),
    decreases links.len(),
{
    broadcast use vstd::seq_lib::group_to_multiset_ensures;

    if links.len() == 0 {
        assert(links =~= Seq::<LinkModel>::empty());
        assert(links.to_multiset().len() == 0);
        assert forall|v: LinkModel|
            bucket_of(links, d, f).to_multiset().count(v) == links.to_multiset().filter(
                bucket_pred(d, f),
            ).count(v) by {
            assert(links.to_multiset().count(v) == 0);
            assert(bucket_of(links, d, f).to_multiset().count(v) == 0);
        }
    } else {
        let s0 = links.drop_last();
        let x = links.last();
        lemma_bucket_of_multiset(s0, d, f);
        assert(s0.push(x) =~= links);
        assert(links.to_multiset() =~= s0.to_multiset().insert(x));
        assert forall|v: LinkModel|
            bucket_of(links, d, f).to_multiset().count(v) == links.to_multiset().filter(
                bucket_pred(d, f),
            ).count(v) by {
            if link_in_bucket(x, d, f) {
                assert(bucket_of(links, d, f) == bucket_of(s0, d, f).push(x));
                assert(bucket_of(links, d, f).to_multiset() =~= bucket_of(
                    s0,
                    d,
                    f,
                ).to_multiset().insert(x));
            } else {
                assert(bucket_of(links, d, f) == bucket_of(s0, d, f));
            }
            assert(bucket_pred(d, f)(x) == link_in_bucket(x, d, f));
        }
    }
}

/// Two orderings of one flat link collection fill every bucket with the same
/// links: the grouping by domain and fragment is order-independent, though
/// the order inside a bucket is not.
pub proof fn lemma_bucket_order_independent(
    links1: Seq<LinkModel>,
    links2: Seq<LinkModel>,
    d: Seq<char>,
    f: Seq<char>,
)
    requires
        links1.to_multiset() == links2.to_multiset(),
    ensures
        bucket_of(links1, d, f).to_multiset() == bucket_of(links2, d, f).to_multiset(),
{
    lemma_bucket_of_multiset(links1, d, f);
    lemma_bucket_of_multiset(links2, d, f);
}


impl Index {
    /// How many domains the index holds.
    pub fn domain_count(&self) -> (r: usize)
        ensures
            r == self.index@.len(),
    {
        self.index.len()
    }

    /// The links filed under `(domain, fragment)`: `None` exactly when that
    /// bucket is empty, the bucket's links otherwise.
    pub fn get_bucket(&self, domain: &String, fragment: &String) -> (r: Option<&Vec<Link>>)
        requires
            self.wf(),
        ensures
            match r {
                Some(links) => links.deep_view() == self.spec_bucket(domain@, fragment@)
                    && links@.len() > 0,
                None => self.spec_bucket(domain@, fragment@) == Seq::<LinkModel>::empty(),
            },
    {
        match find_domain_pos(&self.index, domain) {
            Some(p) => {
                proof {
                    lemma_index_bucket_first(self.index@, p as int, fragment@);
                }
                match find_fragment_pos(&self.index[p].groups, fragment) {
                    Some(q) => {
                        proof {
                            lemma_domain_bucket_first(
                                self.index@[p as int].groups@,
                                q as int,
                                fragment@,
                            );
                        }
                        Some(&self.index[p].groups[q].links)
                    },
                    None => {
                        proof {
                            lemma_domain_bucket_absent(self.index@[p as int].groups@, fragment@);
                        }
                        None
                    },
                }
            },
            None => {
                proof {
                    lemma_index_bucket_absent(self.index@, domain@, fragment@);
                }
                None
            },
        }
    }
}


/// The entries of one domain's groups, in their given order: one triple per
/// fragment group.
pub open spec fn entries_of_groups(domain: Seq<char>, groups: Seq<FragmentGroup>) -> Seq<
    (Seq<char>, Seq<char>, Seq<LinkModel>),
>
    decreases groups.len(),
{
    if groups.len() == 0 {
        Seq::empty()
    } else {
        entries_of_groups(domain, groups.drop_last()).push(
            (domain, groups.last().fragment@, groups.last().links.deep_view()),
        )
    }
}

/// The entries of the whole index: every `(domain, fragment, links)` bucket,
/// domain by domain, fragment by fragment, in their given order.
pub open spec fn entries_of(index: Seq<DomainGroup>) -> Seq<(Seq<char>, Seq<char>, Seq<LinkModel>)>
    decreases index.len(),
{
    if index.len() == 0 {
        Seq::empty()
    } else {
        entries_of(index.drop_last()) + entries_of_groups(
            index.last().domain@,
            index.last().groups@,
        )
    }
}

/// A fresh copy of a link collection, record by record.
fn duplicate_links(links: &Vec<Link>) -> (r: Vec<Link>)
    ensures
        r.deep_view() == links.deep_view(),
{
    let mut result: Vec<Link> = Vec::new();
    let mut i: usize = 0;
    while i < links.len()
        invariant
            0 <= i <= links@.len(),
            result@.len() == i,
            forall|m: int| 0 <= m < i ==> (#[trigger] result@[m])@ == links@[m]@,
        decreases links@.len() - i,
    {
        result.push(links[i].duplicate());
        i += 1;
    }
    proof {
        assert forall|m: int| 0 <= m < links@.len() implies result.deep_view()[m]
            == links.deep_view()[m] by {
            assert(result@[m]@ == links@[m]@);
        }
        assert(result.deep_view() =~= links.deep_view());
    }
    result
}

impl Index {
    /// Every bucket of the index as a `(domain, fragment, links)` triple,
    /// domain by domain, fragment by fragment, in the index's own order.
    pub fn entries(&self) -> (r: Vec<(String, String, Vec<Link>)>)
        ensures
            r.deep_view() == entries_of(self.index@),
    {
        let ghost ix = self.index@;
        let mut result: Vec<(String, String, Vec<Link>)> = Vec::new();
        let mut p: usize = 0;
        while p < self.index.len()
            invariant
                0 <= p <= ix.len(),
                ix == self.index@,
                result.deep_view() =~= entries_of(ix.take(p as int)),
            decreases ix.len() - p,
        {
            let dg = &self.index[p];
            let ghost gs = dg.groups@;
            let mut q: usize = 0;
            while q < dg.groups.len()
                invariant
                    0 <= q <= gs.len(),
                    ix == self.index@,
                    0 <= p < ix.len(),
                    dg == &ix[p as int],
                    gs == dg.groups@,
                    result.deep_view() =~= entries_of(ix.take(p as int)) + entries_of_groups(
                        dg.domain@,
                        gs.take(q as int),
                    ),
                decreases gs.len() - q,
            {
                let ghost before = result.deep_view();
                let ghost old_len = result@.len();
                let entry = (
                    dg.domain.clone(),
                    dg.groups[q].fragment.clone(),
                    duplicate_links(&dg.groups[q].links),
                );
                let ghost ev = (entry.0@, entry.1@, entry.2.deep_view());
                result.push(entry);
                proof {
                    assert(ev == ((dg.domain@, gs[q as int].fragment@, gs[
                    q as int].links.deep_view())));
                    assert forall|m: int| 0 <= m < old_len + 1 implies result.deep_view()[m]
                        == before.push(ev)[m] by {
                        if m < old_len {
                            assert(result@[m] == result@.drop_last()[m]);
                        } else {
                            assert(result@[m] == entry);
                        }
                    }
                    assert(result.deep_view() =~= before.push(ev));
                    let t = gs.take(q + 1);
                    assert(t.drop_last() =~= gs.take(q as int));
                    assert(t.last() == gs[q as int]);
                    assert(result.deep_view() =~= entries_of(ix.take(p as int))
                        + entries_of_groups(dg.domain@, gs.take(q + 1)));
                }
                q += 1;
            }
            proof {
                assert(gs.take(gs.len() as int) =~= gs);
                let t = ix.take(p + 1);
                assert(t.drop_last() =~= ix.take(p as int));
                assert(t.last() == ix[p as int]);
                assert(result.deep_view() =~= entries_of(ix.take(p + 1)));
            }
            p += 1;
        }
        proof {
            assert(ix.take(ix.len() as int) =~= ix);
        }
        result
    }
}


} // verus!
