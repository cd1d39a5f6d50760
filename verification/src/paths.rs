use vstd::prelude::*;

verus! {

/// The extension of a file path, under this crate's convention: the text
/// after the last `.` of the final `/`-separated component, without the dot.
/// There is none when that component has no `.`, or begins with its only `.`
/// (a hidden file), or the path ends in `/`.
pub open spec fn spec_extension(path: Seq<char>) -> Option<Seq<char>>
    decreases path.len(),
{
    if path.len() == 0 {
        None
    } else if path.last() == '/' {
        None
    } else if path.last() == '.' {
        if path.len() >= 2 && path[path.len() - 2] != '/' {
            Some(Seq::empty())
        } else {
            None
        }
    } else {
        match spec_extension(path.drop_last()) {
            Some(e) => Some(e.push(path.last())),
            None => None,
        }
    }
}

/// A path whose final component's last `.` does not open an extension (it
/// stands first in the component, or a `/` follows it last) has none.
proof fn lemma_ext_none_tail(path: Seq<char>, s: int)
    requires
        0 <= s < path.len(),
        path[s] == '/' || (path[s] == '.' && (s == 0 || path[s - 1] == '/')),
        forall|j: int| s < j < path.len() ==> path[j] != '.' && path[j] != '/',
    ensures
        spec_extension(path) is None,
    decreases path.len(),
{
    if s < path.len() - 1 {
        assert(path.drop_last()[s] == path[s]);
        lemma_ext_none_tail(path.drop_last(), s);
    }
}

/// A path with neither `.` nor `/` has no extension.
proof fn lemma_ext_none_all(path: Seq<char>)
    requires
        forall|j: int| 0 <= j < path.len() ==> path[j] != '.' && path[j] != '/',
    ensures
        spec_extension(path) is None,
    decreases path.len(),
{
    if path.len() > 0 {
        lemma_ext_none_all(path.drop_last());
    }
}

/// When the last `.` of the final component stands at `d`, inside the
/// component, the extension is the text after it.
proof fn lemma_ext_found(path: Seq<char>, d: int)
    requires
        1 <= d < path.len(),
        path[d] == '.',
        path[d - 1] != '/',
        forall|j: int| d < j < path.len() ==> path[j] != '.' && path[j] != '/',
    ensures
        spec_extension(path) == Some(path.subrange(d + 1, path.len() as int)),
    decreases path.len(),
{
    if d == path.len() - 1 {
        assert(path.subrange(d + 1, path.len() as int) =~= Seq::<char>::empty());
    } else {
        assert(path.drop_last()[d] == path[d]);
        assert(path.drop_last()[d - 1] == path[d - 1]);
        lemma_ext_found(path.drop_last(), d);
        assert(path.drop_last().subrange(d + 1, path.len() - 1).push(path.last()) =~= path.subrange(
            d + 1,
            path.len() as int,
        ));
    }
}

/// The extension of a file path, or `None` when it has none.
pub fn path_extension(path: &str) -> (r: Option<String>)
    ensures
        r.deep_view() == spec_extension(path@),
{
    let len = path.unicode_len();
    let mut i: usize = len;
    while i > 0
        invariant
            0 <= i <= len,
            len == path@.len(),
            forall|j: int| i <= j < len ==> path@[j] != '.' && path@[j] != '/',
        decreases i,
    {
        let c = path.get_char(i - 1);
        if c == '/' {
            proof {
                lemma_ext_none_tail(path@, i - 1);
            }
            return None;
        }
        if c == '.' {
            if i == 1 {
                proof {
                    lemma_ext_none_tail(path@, 0);
                }
                return None;
            }
            if path.get_char(i - 2) == '/' {
                proof {
                    lemma_ext_none_tail(path@, i - 1);
                }
                return None;
            }
            let e = path.substring_char(i, len);
            proof {
                lemma_ext_found(path@, i - 1);
            }
            return Some(e.to_owned());
        }
        i -= 1;
    }
    proof {
        lemma_ext_none_all(path@);
    }
    None
}

/// An ASCII letter folded to lower case; every other value is unchanged.
pub open spec fn ascii_lower(u: u32) -> u32 {
    if 65 <= u <= 90 {
        (u + 32) as u32
    } else {
        u
    }
}

/// Equality of two strings up to ASCII case.
pub open spec fn eq_ascii_case_spec(a: Seq<char>, b: Seq<char>) -> bool {
    a.len() == b.len() && forall|i: int|
        0 <= i < a.len() ==> ascii_lower(#[trigger] a[i] as u32) == ascii_lower(b[i] as u32)
}

/// Whether `a` and `b` are equal up to ASCII case, by characters.
pub fn eq_ignore_ascii_case(a: &str, b: &str) -> (r: bool)
    ensures
        r == eq_ascii_case_spec(a@, b@),
{
    let a_len = a.unicode_len();
    let b_len = b.unicode_len();
    if a_len != b_len {
        return false;
    }
    let mut i: usize = 0;
    while i < a_len
        invariant
            0 <= i <= a_len,
            a_len == a@.len(),
            a_len == b@.len(),
            forall|m: int| 0 <= m < i ==> ascii_lower(#[trigger] a@[m] as u32) == ascii_lower(
                b@[m] as u32,
            ),
        decreases a_len - i,
    {
        let ca = a.get_char(i) as u32;
        let cb = b.get_char(i) as u32;
        let la = if 65 <= ca && ca <= 90 {
            ca + 32
        } else {
            ca
        };
        let lb = if 65 <= cb && cb <= 90 {
            cb + 32
        } else {
            cb
        };
        if la != lb {
            return false;
        }
        i += 1;
    }
    true
}

/// The extension a path offers for matching: its extension, or the empty
/// string when it has none.
pub open spec fn ext_or_empty(path: Seq<char>) -> Seq<char> {
    match spec_extension(path) {
        Some(e) => e,
        None => Seq::empty(),
    }
}

/// Whether a path passes the extension filter: an empty filter passes every
/// path; otherwise some configured extension must equal the path's extension
/// up to ASCII case (a path without one offers the empty string).
pub open spec fn matches_extensions(path: Seq<char>, exts: Seq<Seq<char>>) -> bool {
    exts.len() == 0 || exists|k: int|
        0 <= k < exts.len() && eq_ascii_case_spec(ext_or_empty(path), #[trigger] exts[k])
}

/// Whether `path` passes the extension filter given by `extensions`.
pub fn passes_extension_filter(path: &str, extensions: &Vec<String>) -> (r: bool)
    ensures
        r == matches_extensions(path@, extensions.deep_view()),
{
    if extensions.len() == 0 {
        return true;
    }
    let ext = match path_extension(path) {
        Some(e) => e,
        None => String::new(),
    };
    proof {
        assert(ext@ == ext_or_empty(path@));
    }
    let mut k: usize = 0;
    while k < extensions.len()
        invariant
            0 <= k <= extensions.len(),
            ext@ == ext_or_empty(path@),
            forall|m: int| 0 <= m < k ==> !eq_ascii_case_spec(
                ext_or_empty(path@),
                #[trigger] extensions.deep_view()[m],
            ),
        decreases extensions.len() - k,
    {
        if eq_ignore_ascii_case(ext.as_str(), extensions[k].as_str()) {
            proof {
                assert(extensions.deep_view()[k as int] == extensions@[k as int]@);
                assert(eq_ascii_case_spec(ext_or_empty(path@), extensions.deep_view()[k as int]));
            }
            return true;
        }
        k += 1;
    }
    false
}

/// Whether `prefix` names `path` itself or a directory above it: `path`
/// equals `prefix`, or continues it immediately after a `/`.
pub open spec fn path_starts_with(path: Seq<char>, prefix: Seq<char>) -> bool {
    path == prefix || (path.len() > prefix.len() && path.take(prefix.len() as int) == prefix
        && path[prefix.len() as int] == '/')
}

/// Whether `path` lies under `prefix`, by path components.
pub fn starts_with_path(path: &str, prefix: &str) -> (r: bool)
    ensures
        r == path_starts_with(path@, prefix@),
{
    let p_len = path.unicode_len();
    let f_len = prefix.unicode_len();
    if p_len < f_len {
        return false;
    }
    if p_len > f_len && path.get_char(f_len) != '/' {
        proof {
            assert(path@ != prefix@) by {
                assert(path@.len() != prefix@.len());
            }
        }
        return false;
    }
    let mut i: usize = 0;
    while i < f_len
        invariant
            0 <= i <= f_len,
            f_len == prefix@.len(),
            p_len == path@.len(),
            p_len >= f_len,
            forall|m: int| 0 <= m < i ==> path@[m] == prefix@[m],
        decreases f_len - i,
    {
        if path.get_char(i) != prefix.get_char(i) {
            proof {
                assert(path@.take(f_len as int)[i as int] != prefix@[i as int]);
                assert(path@ != prefix@) by {
                    if path@ == prefix@ {
                        assert(path@[i as int] == prefix@[i as int]);
                    }
                }
            }
            return false;
        }
        i += 1;
    }
    proof {
        assert(path@.take(f_len as int) =~= prefix@);
        if p_len == f_len {
            assert(path@ =~= prefix@);
        }
    }
    true
}

/// The path taken relative to `root`: the part after `root` and its `/` when
/// the path lies under `root`, empty when it is `root`, and the path itself
/// otherwise.
pub open spec fn rel_of(path: Seq<char>, root: Seq<char>) -> Seq<char> {
    if path == root {
        Seq::empty()
    } else if path_starts_with(path, root) {
        path.skip(root.len() + 1 as int)
    } else {
        path
    }
}

/// The path taken relative to `root`.
pub fn relative_to(path: &str, root: &str) -> (r: String)
    ensures
        r@ == rel_of(path@, root@),
{
    if !starts_with_path(path, root) {
        return path.to_owned();
    }
    let p_len = path.unicode_len();
    let f_len = root.unicode_len();
    if p_len == f_len {
        proof {
            assert(path@ == root@ || path@.len() > root@.len());
        }
        return String::new();
    }
    let r = path.substring_char(f_len + 1, p_len);
    proof {
        assert(path@ != root@) by {
            assert(path@.len() != root@.len());
        }
        assert(path@.subrange(f_len + 1, p_len as int) =~= path@.skip(root@.len() + 1 as int));
    }
    r.to_owned()
}

/// Whether some excluded subpath covers `rel`.
pub open spec fn spec_excluded(rel: Seq<char>, excludes: Seq<Seq<char>>) -> bool {
    exists|k: int| 0 <= k < excludes.len() && path_starts_with(rel, #[trigger] excludes[k])
}

/// Whether `rel` lies under one of the excluded subpaths.
pub fn is_excluded(rel: &str, exclude_folders: &Vec<String>) -> (r: bool)
    ensures
        r == spec_excluded(rel@, exclude_folders.deep_view()),
{
    let mut k: usize = 0;
    while k < exclude_folders.len()
        invariant
            0 <= k <= exclude_folders.len(),
            forall|m: int| 0 <= m < k ==> !path_starts_with(
                rel@,
                #[trigger] exclude_folders.deep_view()[m],
            ),
        decreases exclude_folders.len() - k,
    {
        if starts_with_path(rel, exclude_folders[k].as_str()) {
            proof {
                assert(exclude_folders.deep_view()[k as int] == exclude_folders@[k as int]@);
                assert(path_starts_with(rel@, exclude_folders.deep_view()[k as int]));
            }
            return true;
        }
        k += 1;
    }
    false
}

/// Whether the enumerator keeps a file: it must not lie under an excluded
/// subpath, taken relative to the root, and must pass the extension filter.
pub open spec fn spec_keeps(
    path: Seq<char>,
    root: Seq<char>,
    exts: Seq<Seq<char>>,
    excludes: Seq<Seq<char>>,
) -> bool {
    !spec_excluded(rel_of(path, root), excludes) && matches_extensions(path, exts)
}

/// The paths the enumerator keeps, in their given order.
pub open spec fn spec_select(
    paths: Seq<Seq<char>>,
    root: Seq<char>,
    exts: Seq<Seq<char>>,
    excludes: Seq<Seq<char>>,
) -> Seq<Seq<char>>
    decreases paths.len(),
{
    if paths.len() == 0 {
        Seq::empty()
    } else {
        let rest = spec_select(paths.drop_last(), root, exts, excludes);
        if spec_keeps(paths.last(), root, exts, excludes) {
            rest.push(paths.last())
        } else {
            rest
        }
    }
}

/// Keep the files that pass the exclusion filter, taken relative to `root`,
/// and then the extension filter, in their given order. The walking of the
/// directory tree itself is the caller's, as is the rule that only regular
/// files are offered.
pub fn select_files(
    paths: &Vec<String>,
    root: &str,
    extensions: &Vec<String>,
    exclude_folders: &Vec<String>,
) -> (r: Vec<String>)
    ensures
        r.deep_view() == spec_select(
            paths.deep_view(),
            root@,
            extensions.deep_view(),
            exclude_folders.deep_view(),
        ),
{
    let ghost ps = paths.deep_view();
    let ghost exts = extensions.deep_view();
    let ghost excl = exclude_folders.deep_view();
    let mut result: Vec<String> = Vec::new();
    let mut i: usize = 0;
    while i < paths.len()
        invariant
            0 <= i <= paths.len(),
            ps == paths.deep_view(),
            exts == extensions.deep_view(),
            excl == exclude_folders.deep_view(),
            result.deep_view() =~= spec_select(ps.take(i as int), root@, exts, excl),
        decreases paths.len() - i,
    {
        let path = &paths[i];
        let rel = relative_to(path.as_str(), root);
        let keep = !is_excluded(rel.as_str(), exclude_folders) && passes_extension_filter(
            path.as_str(),
            extensions,
        );
        proof {
            assert(ps[i as int] == path@);
            assert(keep == spec_keeps(ps[i as int], root@, exts, excl));
            let t = ps.take(i + 1);
            assert(t.drop_last() =~= ps.take(i as int));
            assert(t.last() == ps[i as int]);
        }
        if keep {
            let ghost before = result.deep_view();
            result.push(path.clone());
            proof {
                assert(result.deep_view() =~= before.push(ps[i as int]));
            }
        }
        proof {
            assert(result.deep_view() =~= spec_select(ps.take(i + 1), root@, exts, excl));
        }
        i += 1;
    }
    proof {
        assert(ps.take(ps.len() as int) =~= ps);
    }
    result
}

} // verus!
