//! Workspace file selection: the roots, the glob patterns that include and exclude files,
//! and which URIs are workspace documents.
use vstd::prelude::*;
use vstd::utf8::valid_utf8;

use crate::config::LumalsConfig;
use crate::imports::{effective_roots, roots_view, strings_view, url_path_normalized, url_path_normalized_exec, workspace_roots};
use crate::paths::{all_ok, components_exec, join, normal_components, path_starts_with, render, seg_ok, starts_with_path, view_pairs};
use crate::text::{bytes_to_string, lemma_str_valid, utf8};
use crate::uri::{dir_path_to_url, dir_path_url, parse_url_parts, parsed_url};

verus! {

pub const LUMA_GLOB: &'static str = "**/*.luma";

pub const WATCH_REGISTRATION_ID: &'static str = "lumals-watch-luma-files";

/// Byte width of the UTF-8 character that the leading byte `c` starts.
pub open spec fn width_of(c: u8) -> int {
    if c < 0x80 {
        1
    } else if c < 0xe0 {
        2
    } else if c < 0xf0 {
        3
    } else {
        4
    }
}

/// The non-empty pieces of `b[i..]` between `/` separators, as byte ranges.
pub open spec fn segments_from(b: Seq<u8>, i: int) -> Seq<(int, int)>
    decreases b.len() - i,
{
    if i < 0 || i >= b.len() {
        seq![]
    } else {
        let e = seg_stop(b, i);
        if e == i {
            segments_from(b, i + 1)
        } else {
            proof {
                lemma_seg_stop(b, i);
            }
            seq![(i, e)] + segments_from(b, e)
        }
    }
}

/// Where the segment that starts at `i` ends: the next `/` or the end.
pub open spec fn seg_stop(b: Seq<u8>, i: int) -> int
    decreases b.len() - i,
{
    if i < 0 || i >= b.len() || b[i] == 0x2f {
        i
    } else {
        seg_stop(b, i + 1)
    }
}

pub proof fn lemma_seg_stop(b: Seq<u8>, i: int)
    requires
        0 <= i <= b.len(),
    ensures
        i <= seg_stop(b, i) <= b.len(),
        seg_stop(b, i) < b.len() ==> b[seg_stop(b, i)] == 0x2f,
    decreases b.len() - i,
{
    if i < b.len() && b[i] != 0x2f {
        lemma_seg_stop(b, i + 1);
    }
}

/// The characters of the segment `v[vi..ve]` match the pattern segment `p[pi..pe]`: `*` any
/// run of characters, `?` one character, any other character itself.
pub open spec fn chars_match(v: Seq<u8>, vi: int, ve: int, p: Seq<u8>, pi: int, pe: int) -> bool
    decreases (ve - vi) + (pe - pi),
{
    if pi >= pe || pi < 0 || pe > p.len() {
        vi >= ve
    } else if vi > ve || vi < 0 || ve > v.len() {
        false
    } else if p[pi] == 0x2a {
        chars_match(v, vi, ve, p, pi + 1, pe) || (vi < ve && vi + width_of(v[vi]) <= ve
            && chars_match(v, vi + width_of(v[vi]), ve, p, pi, pe))
    } else if p[pi] == 0x3f {
        vi < ve && vi + width_of(v[vi]) <= ve && chars_match(
            v,
            vi + width_of(v[vi]),
            ve,
            p,
            pi + 1,
            pe,
        )
    } else {
        let w = width_of(p[pi]);
        pi + w <= pe && vi + w <= ve && v.subrange(vi, vi + w) == p.subrange(pi, pi + w)
            && chars_match(v, vi + w, ve, p, pi + w, pe)
    }
}

/// The path segments from `i` match the pattern segments from `j`: `**` any run of
/// segments, any other pattern segment exactly one.
pub open spec fn segments_match(
    v: Seq<u8>,
    vs: Seq<(int, int)>,
    i: int,
    p: Seq<u8>,
    ps: Seq<(int, int)>,
    j: int,
) -> bool
    decreases (vs.len() - i) + (ps.len() - j),
{
    if j >= ps.len() || j < 0 || i < 0 {
        i >= vs.len()
    } else if i > vs.len() {
        false
    } else if p.subrange(ps[j].0, ps[j].1) == seq![0x2au8, 0x2au8] {
        segments_match(v, vs, i, p, ps, j + 1) || (i < vs.len() && segments_match(
            v,
            vs,
            i + 1,
            p,
            ps,
            j,
        ))
    } else {
        i < vs.len() && chars_match(v, vs[i].0, vs[i].1, p, ps[j].0, ps[j].1) && segments_match(
            v,
            vs,
            i + 1,
            p,
            ps,
            j + 1,
        )
    }
}

/// Whether a `/`-separated path matches a glob pattern.
pub open spec fn glob_spec(path: Seq<u8>, pattern: Seq<u8>) -> bool {
    segments_match(path, segments_from(path, 0), 0, pattern, segments_from(pattern, 0), 0)
}

/// Byte ranges inside a text of length `n`.
pub open spec fn ranges_ok(n: int, s: Seq<(usize, usize)>) -> bool {
    forall|k: int| 0 <= k < s.len() ==> #[trigger] s[k].0 <= s[k].1 <= n
}

/// The segments of a text are ordered ranges inside it.
pub open spec fn segments_ok(b: Seq<u8>, s: Seq<(int, int)>) -> bool {
    forall|k: int| 0 <= k < s.len() ==> 0 <= #[trigger] s[k].0 <= s[k].1 <= b.len()
}

fn split_segments(b: &[u8]) -> (segs: Vec<(usize, usize)>)
    ensures
        segs@.map_values(|x: (usize, usize)| (x.0 as int, x.1 as int)) == segments_from(b@, 0),
        ranges_ok(b@.len() as int, segs@),
{
    let mut segs: Vec<(usize, usize)> = Vec::new();
    let n = b.len();
    let mut i: usize = 0;
    while i < n
        invariant
            i <= n == b@.len(),
            segments_from(b@, 0) =~= segs@.map_values(|x: (usize, usize)| (x.0 as int, x.1 as int))
                + segments_from(b@, i as int),
            ranges_ok(n as int, segs@),
        decreases n - i,
    {
        let mut e = i;
        while e < n && b[e] != 0x2f
            invariant
                i <= e <= n == b@.len(),
                seg_stop(b@, e as int) == seg_stop(b@, i as int),
            decreases n - e,
        {
            e = e + 1;
        }
        proof {
            lemma_seg_stop(b@, i as int);
        }
        if e == i {
            i = i + 1;
        } else {
            let ghost before = segs@;
            segs.push((i, e));
            proof {
                assert forall|k: int| 0 <= k < segs@.len() implies #[trigger] segs@[k].0
                    <= segs@[k].1 <= n by {
                    if k < before.len() {
                        assert(segs@[k] == before[k]);
                    }
                }
                assert(segs@.map_values(|x: (usize, usize)| (x.0 as int, x.1 as int))
                    =~= before.map_values(|x: (usize, usize)| (x.0 as int, x.1 as int)).push(
                    (i as int, e as int),
                ));
            }
            i = e;
        }
    }
    proof {
        assert(segments_from(b@, i as int) =~= Seq::<(int, int)>::empty());
    }
    segs
}

fn width_of_exec(c: u8) -> (w: usize)
    ensures
        w as int == width_of(c),
{
    if c < 0x80 {
        1
    } else if c < 0xe0 {
        2
    } else if c < 0xf0 {
        3
    } else {
        4
    }
}

fn chars_match_exec(v: &[u8], vi: usize, ve: usize, p: &[u8], pi: usize, pe: usize) -> (r: bool)
    requires
        vi <= ve <= v@.len(),
        pi <= pe <= p@.len(),
    ensures
        r == chars_match(v@, vi as int, ve as int, p@, pi as int, pe as int),
    decreases (ve - vi) + (pe - pi),
{
    if pi >= pe {
        return vi >= ve;
    }
    if p[pi] == 0x2a {
        if chars_match_exec(v, vi, ve, p, pi + 1, pe) {
            return true;
        }
        if vi < ve {
            let w = width_of_exec(v[vi]);
            if w <= ve - vi {
                return chars_match_exec(v, vi + w, ve, p, pi, pe);
            }
        }
        return false;
    }
    if p[pi] == 0x3f {
        if vi < ve {
            let w = width_of_exec(v[vi]);
            if w <= ve - vi {
                return chars_match_exec(v, vi + w, ve, p, pi + 1, pe);
            }
        }
        return false;
    }
    let w = width_of_exec(p[pi]);
    if w > pe - pi || w > ve - vi {
        return false;
    }
    let ghost va = v@.subrange(vi as int, vi + w);
    let ghost pa = p@.subrange(pi as int, pi + w);
    let mut k: usize = 0;
    while k < w
        invariant
            k <= w,
            vi + w <= ve <= v@.len(),
            pi + w <= pe <= p@.len(),
            pi < pe,
            p@[pi as int] != 0x2a,
            p@[pi as int] != 0x3f,
            w as int == width_of(p@[pi as int]),
            va == v@.subrange(vi as int, vi + w),
            pa == p@.subrange(pi as int, pi + w),
            forall|m: int| 0 <= m < k ==> #[trigger] va[m] == pa[m],
        decreases w - k,
    {
        if v[vi + k] != p[pi + k] {
            assert(va[k as int] != pa[k as int]);
            assert(va != pa);
            return false;
        }
        assert(va[k as int] == pa[k as int]);
        k = k + 1;
    }
    assert(va =~= pa);
    chars_match_exec(v, vi + w, ve, p, pi + w, pe)
}

fn segments_match_exec(
    v: &[u8],
    vs: &Vec<(usize, usize)>,
    i: usize,
    p: &[u8],
    ps: &Vec<(usize, usize)>,
    j: usize,
) -> (r: bool)
    requires
        i <= vs@.len(),
        j <= ps@.len(),
        ranges_ok(v@.len() as int, vs@),
        ranges_ok(p@.len() as int, ps@),
    ensures
        r == segments_match(
            v@,
            vs@.map_values(|x: (usize, usize)| (x.0 as int, x.1 as int)),
            i as int,
            p@,
            ps@.map_values(|x: (usize, usize)| (x.0 as int, x.1 as int)),
            j as int,
        ),
    decreases (vs@.len() - i) + (ps@.len() - j),
{
    let ghost vv = vs@.map_values(|x: (usize, usize)| (x.0 as int, x.1 as int));
    let ghost pv = ps@.map_values(|x: (usize, usize)| (x.0 as int, x.1 as int));
    if j >= ps.len() {
        return i >= vs.len();
    }
    let (ps0, ps1) = ps[j];
    assert(pv[j as int] == (ps0 as int, ps1 as int));
    let star2 = ps1 - ps0 == 2 && p[ps0] == 0x2a && p[ps0 + 1] == 0x2a;
    proof {
        if p@.subrange(ps0 as int, ps1 as int) == seq![0x2au8, 0x2au8] {
            assert(p@.subrange(ps0 as int, ps1 as int).len() == 2);
            assert(p@.subrange(ps0 as int, ps1 as int)[0] == p@[ps0 as int]);
            assert(p@.subrange(ps0 as int, ps1 as int)[1] == p@[ps0 + 1]);
        }
        if star2 {
            assert(p@.subrange(ps0 as int, ps1 as int) =~= seq![0x2au8, 0x2au8]);
        }
    }
    if star2 {
        if segments_match_exec(v, vs, i, p, ps, j + 1) {
            return true;
        }
        return i < vs.len() && segments_match_exec(v, vs, i + 1, p, ps, j);
    }
    if i >= vs.len() {
        return false;
    }
    let (vs0, vs1) = vs[i];
    assert(vv[i as int] == (vs0 as int, vs1 as int));
    chars_match_exec(v, vs0, vs1, p, ps0, ps1) && segments_match_exec(v, vs, i + 1, p, ps, j + 1)
}

/// Whether a `/`-separated path matches a glob pattern: `**` stands for any run of
/// segments, `*` for any run of characters within a segment, `?` for one character.
pub fn glob_matches(path: &str, pattern: &str) -> (r: bool)
    ensures
        r == glob_spec(utf8(path@), utf8(pattern@)),
{
    let v = path.as_bytes();
    let p = pattern.as_bytes();
    let vs = split_segments(v);
    let ps = split_segments(p);
    segments_match_exec(v, &vs, 0, p, &ps, 0)
}

/// Whether a path matches any of the patterns.
pub fn matches_any_glob(path: &str, patterns: &Vec<String>) -> (r: bool)
    ensures
        r == exists|k: int|
            0 <= k < patterns@.len() && glob_spec(utf8(path@), #[trigger] utf8(patterns@[k]@)),
{
    let mut k: usize = 0;
    while k < patterns.len()
        invariant
            k <= patterns@.len(),
            forall|m: int| 0 <= m < k ==> !glob_spec(utf8(path@), #[trigger] utf8(patterns@[m]@)),
        decreases patterns@.len() - k,
    {
        if glob_matches(path, patterns[k].as_str()) {
            return true;
        }
        k = k + 1;
    }
    false
}


/// The component count of the shortest root that contains `p`, `None` when none does.
pub open spec fn shortest_root(p: Seq<u8>, roots: Seq<Seq<u8>>) -> Option<nat>
    decreases roots.len(),
{
    if roots.len() == 0 {
        None
    } else {
        let rest = shortest_root(p, roots.drop_last());
        let r = roots.last();
        if starts_with_path(p, r) {
            let n = normal_components(r).len();
            match rest {
                Some(m) => Some(if n < m { n } else { m }),
                None => Some(n),
            }
        } else {
            rest
        }
    }
}

/// The part of `p` below the first root (in path order) that contains it, its components
/// joined with `/`.
pub open spec fn relative_glob_text(p: Seq<u8>, roots: Seq<Seq<u8>>) -> Option<Seq<u8>> {
    match shortest_root(p, roots) {
        Some(m) => {
            let c = normal_components(p);
            Some(join(p, c.subrange(m as int, c.len() as int)))
        },
        None => None,
    }
}

pub proof fn lemma_shortest_root_bound(p: Seq<u8>, roots: Seq<Seq<u8>>)
    ensures
        shortest_root(p, roots) matches Some(m) ==> m <= normal_components(p).len(),
    decreases roots.len(),
{
    if roots.len() > 0 {
        lemma_shortest_root_bound(p, roots.drop_last());
    }
}

/// The path ends in `.luma`.
pub open spec fn ends_with_luma(b: Seq<u8>) -> bool {
    b.len() >= 5 && b[b.len() - 5] == 0x2e && b[b.len() - 4] == 0x6c && b[b.len() - 3] == 0x75 && b[b.len() - 2]
        == 0x6d && b[b.len() - 1] == 0x61
}

/// A `file:` URI of a `.luma` file under a root and excluded by no glob, with workspace
/// indexing on.
pub open spec fn workspace_luma_spec(uri: Seq<char>, folders: Seq<Seq<char>>, config: LumalsConfig) -> bool {
    &&& config.index_workspace
    &&& match parsed_url(uri) {
        Some((_, scheme, path)) => scheme == "file"@ && ends_with_luma(utf8(path)) && match url_path_normalized(uri) {
            Some(p) => match relative_glob_text(p, effective_roots(folders, config)) {
                Some(rel) => !exists|k: int|
                    0 <= k < config.exclude_globs@.len() && glob_spec(rel, #[trigger] utf8(config.exclude_globs@[k]@)),
                None => false,
            },
            None => false,
        },
        None => false,
    }
}

fn relative_text(p: &str, roots: &Vec<String>) -> (r: Option<String>)
    ensures
        match relative_glob_text(utf8(p@), roots_view(roots@)) {
            None => r is None,
            Some(t) => r matches Some(s) && utf8(s@) == t,
        },
{
    let ghost rv = roots_view(roots@);
    let mut best: Option<usize> = None;
    let mut k: usize = 0;
    while k < roots.len()
        invariant
            k <= roots@.len(),
            rv == roots_view(roots@),
            rv.len() == roots@.len(),
            match shortest_root(utf8(p@), rv.take(k as int)) {
                None => best is None,
                Some(m) => best matches Some(x) && x as nat == m,
            },
        decreases roots@.len() - k,
    {
        let ghost t = rv.take(k + 1);
        assert(t.drop_last() =~= rv.take(k as int));
        assert(t.last() == utf8(roots@[k as int]@));
        let ghost prev = shortest_root(utf8(p@), rv.take(k as int));
        assert(shortest_root(utf8(p@), t) == (if starts_with_path(utf8(p@), t.last()) {
            let n = normal_components(t.last()).len();
            match prev {
                Some(m) => Some(if n < m { n } else { m }),
                None => Some(n),
            }
        } else {
            prev
        }));
        if path_starts_with(p, roots[k].as_str()) {
            let cs = components_exec(roots[k].as_str().as_bytes());
            assert(view_pairs(cs@).len() == cs@.len());
            let n = cs.len();
            assert(n == normal_components(t.last()).len());
            assert(starts_with_path(utf8(p@), t.last()));
            best = match best {
                Some(m) => Some(if n < m { n } else { m }),
                None => Some(n),
            };
        }
        k = k + 1;
    }
    assert(rv.take(roots@.len() as int) =~= rv);
    match best {
        None => None,
        Some(m) => {
            let b = p.as_bytes();
            proof {
                lemma_str_valid(p@);
                lemma_shortest_root_bound(utf8(p@), rv);
            }
            let comps = components_exec(b);
            let ghost cv = view_pairs(comps@);
            let mut rest: Vec<(usize, usize)> = Vec::new();
            let mut j = m;
            while j < comps.len()
                invariant
                    m <= j <= comps@.len(),
                    cv == view_pairs(comps@),
                    cv.len() == comps@.len(),
                    view_pairs(rest@) == cv.subrange(m as int, j as int),
                decreases comps@.len() - j,
            {
                let ghost before = view_pairs(rest@);
                rest.push(comps[j]);
                assert(cv[j as int] == (comps@[j as int].0 as int, comps@[j as int].1 as int));
                assert(view_pairs(rest@) =~= before.push(cv[j as int]));
                assert(view_pairs(rest@) =~= cv.subrange(m as int, j + 1));
                j = j + 1;
            }
            proof {
                assert forall|q: int| 0 <= q < view_pairs(rest@).len() implies seg_ok(
                    b@,
                    #[trigger] view_pairs(rest@)[q].0,
                    view_pairs(rest@)[q].1,
                ) by {
                    assert(view_pairs(rest@)[q] == cv[m + q]);
                }
            }
            let out = render(b, false, &rest);
            assert(out@ =~= join(b@, view_pairs(rest@)));
            Some(bytes_to_string(out))
        },
    }
}

fn ends_with_luma_exec(b: &[u8]) -> (r: bool)
    ensures
        r == ends_with_luma(b@),
{
    let n = b.len();
    n >= 5 && b[n - 5] == 0x2e && b[n - 4] == 0x6c && b[n - 3] == 0x75 && b[n - 2] == 0x6d && b[n - 1] == 0x61
}

/// Whether a URI names a workspace `.luma` document that indexing and file watching cover.
pub fn is_workspace_luma_uri(uri: &str, folder_uris: &[String], config: &LumalsConfig) -> (r: bool)
    ensures
        r == workspace_luma_spec(uri@, strings_view(folder_uris@), *config),
{
    if !config.index_workspace {
        return false;
    }
    let (scheme, path) = match parse_url_parts(uri) {
        None => return false,
        Some((_, scheme, path)) => (scheme, path),
    };
    if !crate::text::str_eq(scheme.as_str(), "file") || !ends_with_luma_exec(path.as_str().as_bytes()) {
        return false;
    }
    let p = match url_path_normalized_exec(uri) {
        None => return false,
        Some(p) => p,
    };
    let roots = workspace_roots(folder_uris, config);
    match relative_text(p.as_str(), &roots) {
        None => false,
        Some(rel) => !matches_any_glob(rel.as_str(), &config.exclude_globs),
    }
}


/// A workspace folder: its URI and its name.
#[derive(Debug, Clone, PartialEq, Eq)]
pub struct WorkspaceFolder {
    pub uri: String,
    pub name: String,
}

pub open spec fn folder_uris(v: Seq<WorkspaceFolder>) -> Seq<Seq<char>> {
    v.map_values(|f: WorkspaceFolder| f.uri@)
}

/// The folders with each URI once, the first occurrence kept.
pub open spec fn deduped(v: Seq<WorkspaceFolder>) -> Seq<WorkspaceFolder>
    decreases v.len(),
{
    if v.len() == 0 {
        Seq::empty()
    } else {
        let d = deduped(v.drop_last());
        if folder_uris(d).contains(v.last().uri@) {
            d
        } else {
            d.push(v.last())
        }
    }
}

fn copy_folder(f: &WorkspaceFolder) -> (r: WorkspaceFolder)
    ensures
        r == *f,
{
    WorkspaceFolder { uri: f.uri.clone(), name: f.name.clone() }
}

fn has_uri(v: &Vec<WorkspaceFolder>, uri: &str) -> (r: bool)
    ensures
        r == folder_uris(v@).contains(uri@),
{
    let mut k: usize = 0;
    while k < v.len()
        invariant
            k <= v@.len(),
            forall|j: int| 0 <= j < k ==> #[trigger] v@[j].uri@ != uri@,
        decreases v@.len() - k,
    {
        if crate::text::str_eq(v[k].uri.as_str(), uri) {
            assert(folder_uris(v@)[k as int] == uri@);
            return true;
        }
        k = k + 1;
    }
    assert forall|j: int| 0 <= j < folder_uris(v@).len() implies folder_uris(v@)[j] != uri@ by {
        assert(folder_uris(v@)[j] == v@[j].uri@);
    }
    false
}

fn dedupe_folders(folders: Vec<WorkspaceFolder>) -> (r: Vec<WorkspaceFolder>)
    ensures
        r@ == deduped(folders@),
{
    let mut out: Vec<WorkspaceFolder> = Vec::new();
    let mut k: usize = 0;
    while k < folders.len()
        invariant
            k <= folders@.len(),
            out@ == deduped(folders@.take(k as int)),
        decreases folders@.len() - k,
    {
        let ghost t = folders@.take(k + 1);
        assert(t.drop_last() =~= folders@.take(k as int));
        assert(t.last() == folders@[k as int]);
        if !has_uri(&out, folders[k].uri.as_str()) {
            out.push(copy_folder(&folders[k]));
        }
        k = k + 1;
    }
    assert(folders@.take(folders@.len() as int) =~= folders@);
    out
}

/// The last segment of a URL path after its leading `/`, when it is not empty.
pub open spec fn last_segment(path: Seq<u8>) -> Option<Seq<u8>> {
    if path.len() == 0 || path[0] != 0x2f {
        None
    } else {
        let i = crate::text::rfind_byte(path, 0, path.len() as int, 0x2f);
        match i {
            Some(j) => if j + 1 < path.len() {
                Some(path.subrange(j + 1, path.len() as int))
            } else {
                None
            },
            None => None,
        }
    }
}

/// A folder's name: the last segment of its URI's path, else `workspace`.
pub open spec fn folder_name(uri: Seq<char>) -> Seq<u8> {
    match parsed_url(uri) {
        Some((_, _, path)) => match last_segment(utf8(path)) {
            Some(s) => s,
            None => utf8("workspace"@),
        },
        None => utf8("workspace"@),
    }
}

fn folder_name_exec(uri: &str) -> (r: String)
    ensures
        utf8(r@) == folder_name(uri@),
{
    match parse_url_parts(uri) {
        Some((_, _, path)) => {
            let b = path.as_str().as_bytes();
            proof {
                lemma_str_valid(path@);
            }
            if b.len() > 0 && b[0] == 0x2f {
                match crate::text::rfind_byte_exec(b, 0, b.len(), 0x2f) {
                    Some(j) => {
                        proof {
                            crate::text::lemma_rfind_byte_bounds(b@, 0, b@.len() as int, 0x2f);
                        }
                        if j + 1 < b.len() {
                            proof {
                                crate::text::lemma_boundary_after_ascii(b@, j as int);
                            }
                            return crate::text::substring(b, j + 1, b.len());
                        }
                    },
                    None => {},
                }
            }
            "workspace".to_owned()
        },
        None => "workspace".to_owned(),
    }
}

/// The workspace folders a client starts with: its folders (each URI once), else one folder
/// for its root URI, else for its root path read as a directory, else none.
pub open spec fn initial_folders(folders: Option<Seq<WorkspaceFolder>>, root_uri: Option<Seq<char>>, root_path: Option<Seq<char>>) -> Seq<(Seq<char>, Seq<u8>)> {
    match folders {
        Some(f) => deduped(f).map_values(|x: WorkspaceFolder| (x.uri@, utf8(x.name@))),
        None => {
            let uri = match root_uri {
                Some(u) => Some(u),
                None => match root_path {
                    Some(p) => dir_path_url(p),
                    None => None,
                },
            };
            match uri {
                Some(u) => seq![(u, folder_name(u))],
                None => Seq::empty(),
            }
        },
    }
}

pub open spec fn folders_view(v: Seq<WorkspaceFolder>) -> Seq<(Seq<char>, Seq<u8>)> {
    v.map_values(|x: WorkspaceFolder| (x.uri@, utf8(x.name@)))
}

/// The workspace folders from the client's initialize parameters.
pub fn folders_from_initialize_params(workspace_folders: Option<Vec<WorkspaceFolder>>, root_uri: Option<String>, root_path: Option<String>) -> (r: Vec<WorkspaceFolder>)
    ensures
        folders_view(r@) == initial_folders(
            match workspace_folders { Some(f) => Some(f@), None => None },
            match root_uri { Some(u) => Some(u@), None => None },
            match root_path { Some(p) => Some(p@), None => None },
        ),
{
    if let Some(folders) = workspace_folders {
        let r = dedupe_folders(folders);
        return r;
    }
    let uri = match root_uri {
        Some(u) => Some(u),
        None => match root_path {
            Some(p) => dir_path_to_url(p.as_str()),
            None => None,
        },
    };
    match uri {
        Some(u) => {
            let name = folder_name_exec(u.as_str());
            let v = vec![WorkspaceFolder { uri: u, name }];
            assert(folders_view(v@) =~= seq![(v@[0].uri@, utf8(v@[0].name@))]);
            v
        },
        None => {
            let v: Vec<WorkspaceFolder> = Vec::new();
            assert(folders_view(v@) =~= Seq::<(Seq<char>, Seq<u8>)>::empty());
            v
        },
    }
}

/// Byte-wise lexical order on texts, the order of URLs.
pub open spec fn text_lt(a: Seq<u8>, b: Seq<u8>) -> bool
    decreases a.len(),
{
    if b.len() == 0 {
        false
    } else if a.len() == 0 {
        true
    } else if a[0] != b[0] {
        a[0] < b[0]
    } else {
        text_lt(a.drop_first(), b.drop_first())
    }
}

pub proof fn lemma_text_lt_total(a: Seq<u8>, b: Seq<u8>)
    ensures
        a == b || text_lt(a, b) || text_lt(b, a),
        !(text_lt(a, b) && text_lt(b, a)),
        !text_lt(a, a),
    decreases a.len(),
{
    if a.len() > 0 && b.len() > 0 {
        lemma_text_lt_total(a.drop_first(), b.drop_first());
        if a[0] == b[0] && a.drop_first() == b.drop_first() {
            assert(a =~= seq![a[0]] + a.drop_first());
            assert(b =~= seq![b[0]] + b.drop_first());
        }
    } else if a.len() > 0 {
        lemma_text_lt_total(a.drop_first(), a.drop_first());
    } else if b.len() == 0 {
        assert(a =~= b);
    }
}

pub proof fn lemma_text_lt_trans(a: Seq<u8>, b: Seq<u8>, c: Seq<u8>)
    requires
        text_lt(a, b),
        text_lt(b, c),
    ensures
        text_lt(a, c),
    decreases a.len(),
{
    if a.len() > 0 && a[0] == b[0] && b[0] == c[0] {
        lemma_text_lt_trans(a.drop_first(), b.drop_first(), c.drop_first());
    }
}

pub open spec fn texts_view(v: Seq<String>) -> Seq<Seq<u8>> {
    v.map_values(|s: String| utf8(s@))
}

/// Strictly increasing, so each text once.
pub open spec fn strictly_sorted(v: Seq<Seq<u8>>) -> bool {
    forall|i: int, j: int| 0 <= i < j < v.len() ==> text_lt(#[trigger] v[i], #[trigger] v[j])
}

fn bytes_lt(a: &[u8], b: &[u8]) -> (r: bool)
    ensures
        r == text_lt(a@, b@),
{
    let mut i: usize = 0;
    assert(a@.subrange(0, a@.len() as int) =~= a@);
    assert(b@.subrange(0, b@.len() as int) =~= b@);
    while i < a.len() && i < b.len() && a[i] == b[i]
        invariant
            i <= a@.len(),
            i <= b@.len(),
            text_lt(a@, b@) == text_lt(a@.subrange(i as int, a@.len() as int), b@.subrange(i as int, b@.len() as int)),
        decreases a@.len() - i,
    {
        assert(a@.subrange(i as int, a@.len() as int).drop_first() =~= a@.subrange(i + 1, a@.len() as int));
        assert(b@.subrange(i as int, b@.len() as int).drop_first() =~= b@.subrange(i + 1, b@.len() as int));
        i = i + 1;
    }
    if i == b.len() {
        false
    } else if i == a.len() {
        true
    } else {
        a[i] < b[i]
    }
}

/// Adds a text to a strictly increasing list unless it is there already.
pub(crate) fn insert_sorted(v: &mut Vec<String>, s: String)
    requires
        strictly_sorted(texts_view(old(v)@)),
    ensures
        strictly_sorted(texts_view(final(v)@)),
        texts_view(final(v)@).to_set() == texts_view(old(v)@).to_set().insert(utf8(s@)),
{
    let ghost before = texts_view(v@);
    let sb = s.as_str().as_bytes();
    let mut i: usize = 0;
    while i < v.len() && bytes_lt(v[i].as_str().as_bytes(), sb)
        invariant
            i <= v@.len(),
            texts_view(v@) == before,
            before.len() == v@.len(),
            strictly_sorted(before),
            sb@ == utf8(s@),
            forall|k: int| 0 <= k < i ==> text_lt(#[trigger] before[k], utf8(s@)),
        decreases v@.len() - i,
    {
        assert(before[i as int] == utf8(v@[i as int]@));
        i = i + 1;
    }
    if i < v.len() && crate::text::str_eq(v[i].as_str(), s.as_str()) {
        assert(before[i as int] == utf8(s@));
        assert(before.to_set().insert(utf8(s@)) =~= before.to_set());
        return;
    }
    proof {
        if i < v@.len() {
            assert(before[i as int] == utf8(v@[i as int]@));
            lemma_text_lt_total(before[i as int], utf8(s@));
            if before[i as int] == utf8(s@) {
                crate::text::lemma_utf8_injective(v@[i as int]@, s@);
            }
            assert(text_lt(utf8(s@), before[i as int]));
        }
    }
    let ghost x = utf8(s@);
    v.insert(i, s);
    let ghost after = texts_view(v@);
    assert(after =~= before.insert(i as int, x));
    assert forall|a: int, b: int| 0 <= a < b < after.len() implies text_lt(#[trigger] after[a], #[trigger] after[b]) by {
        if b < i {
        } else if a < i && b == i {
        } else if a < i && b > i {
            assert(after[b] == before[b - 1]);
        } else if a == i {
            assert(after[b] == before[b - 1]);
            if b - 1 > i {
                lemma_text_lt_trans(x, before[i as int], before[b - 1]);
            }
        } else {
            assert(after[a] == before[a - 1]);
            assert(after[b] == before[b - 1]);
        }
    }
    assert forall|y: Seq<u8>| after.to_set().contains(y) <==> before.to_set().insert(x).contains(y) by {
        if after.to_set().contains(y) {
            let k = choose|k: int| 0 <= k < after.len() && after[k] == y;
            if k < i {
                assert(before[k] == y);
            } else if k > i {
                assert(before[k - 1] == y);
            }
        }
        if before.to_set().contains(y) {
            let k = choose|k: int| 0 <= k < before.len() && before[k] == y;
            if k < i {
                assert(after[k] == y);
            } else {
                assert(after[k + 1] == y);
            }
        }
        if y == x {
            assert(after[i as int] == y);
        }
    }
    assert(after.to_set() =~= before.to_set().insert(x));
}

/// What a client reported of its workspace, as one reading.
#[derive(Debug, Clone, PartialEq, Eq)]
pub struct WorkspaceSnapshot {
    pub folders: Vec<WorkspaceFolder>,
    pub watched_file_invalidations: u64,
    pub last_invalidated_files: Vec<String>,
}

/// The workspace folders and the count of watched-file invalidations.
#[derive(Debug)]
pub struct WorkspaceState {
    folders: Vec<WorkspaceFolder>,
    watched_file_invalidations: u64,
    last_invalidated_files: Vec<String>,
}

impl Default for WorkspaceState {
    fn default() -> (s: Self)
        ensures
            s.spec_folders() == Seq::<WorkspaceFolder>::empty(),
            s.spec_invalidations() == 0,
            s.spec_last_invalidated() == Seq::<String>::empty(),
    {
        WorkspaceState::new()
    }
}

/// The URIs of the changes that are workspace documents.
pub open spec fn invalidated_set(changes: Seq<String>, folders: Seq<Seq<char>>, config: LumalsConfig) -> Set<Seq<u8>> {
    Set::new(|x: Seq<u8>| exists|k: int| 0 <= k < changes.len() && utf8(#[trigger] changes[k]@) == x && workspace_luma_spec(changes[k]@, folders, config))
}

impl WorkspaceState {
    pub closed spec fn spec_folders(&self) -> Seq<WorkspaceFolder> {
        self.folders@
    }

    pub closed spec fn spec_invalidations(&self) -> u64 {
        self.watched_file_invalidations
    }

    pub closed spec fn spec_last_invalidated(&self) -> Seq<String> {
        self.last_invalidated_files@
    }

    pub fn new() -> (s: Self)
        ensures
            s.spec_folders() == Seq::<WorkspaceFolder>::empty(),
            s.spec_invalidations() == 0,
            s.spec_last_invalidated() == Seq::<String>::empty(),
    {
        WorkspaceState { folders: Vec::new(), watched_file_invalidations: 0, last_invalidated_files: Vec::new() }
    }

    pub fn snapshot(&self) -> (s: WorkspaceSnapshot)
        ensures
            s.folders@ == self.spec_folders(),
            s.watched_file_invalidations == self.spec_invalidations(),
            s.last_invalidated_files@ == self.spec_last_invalidated(),
    {
        let mut folders: Vec<WorkspaceFolder> = Vec::new();
        let mut k: usize = 0;
        while k < self.folders.len()
            invariant
                k <= self.folders@.len(),
                folders@ == self.folders@.take(k as int),
            decreases self.folders@.len() - k,
        {
            let f = WorkspaceFolder { uri: self.folders[k].uri.clone(), name: self.folders[k].name.clone() };
            folders.push(f);
            assert(folders@ =~= self.folders@.take(k + 1));
            k = k + 1;
        }
        assert(self.folders@.take(self.folders@.len() as int) =~= self.folders@);
        let mut files: Vec<String> = Vec::new();
        let mut j: usize = 0;
        while j < self.last_invalidated_files.len()
            invariant
                j <= self.last_invalidated_files@.len(),
                files@ == self.last_invalidated_files@.take(j as int),
            decreases self.last_invalidated_files@.len() - j,
        {
            files.push(self.last_invalidated_files[j].clone());
            assert(files@ =~= self.last_invalidated_files@.take(j + 1));
            j = j + 1;
        }
        assert(self.last_invalidated_files@.take(self.last_invalidated_files@.len() as int)
            =~= self.last_invalidated_files@);
        WorkspaceSnapshot {
            folders,
            watched_file_invalidations: self.watched_file_invalidations,
            last_invalidated_files: files,
        }
    }

    /// Replaces the folders, each URI once.
    pub fn set_folders(&mut self, folders: Vec<WorkspaceFolder>)
        ensures
            final(self).spec_folders() == deduped(folders@),
            final(self).spec_invalidations() == old(self).spec_invalidations(),
            final(self).spec_last_invalidated() == old(self).spec_last_invalidated(),
    {
        self.folders = dedupe_folders(folders);
    }

    /// Drops the folders whose URI is among the removed ones, adds the new ones, and keeps
    /// each URI once.
    pub fn apply_folder_change(&mut self, added: Vec<WorkspaceFolder>, removed: Vec<WorkspaceFolder>)
        ensures
            final(self).spec_folders() == deduped(old(self).spec_folders().filter(
                |f: WorkspaceFolder| !folder_uris(removed@).contains(f.uri@),
            ) + added@),
            final(self).spec_invalidations() == old(self).spec_invalidations(),
            final(self).spec_last_invalidated() == old(self).spec_last_invalidated(),
    {
        let ghost keep = |f: WorkspaceFolder| !folder_uris(removed@).contains(f.uri@);
        let mut kept: Vec<WorkspaceFolder> = Vec::new();
        let mut k: usize = 0;
        while k < self.folders.len()
            invariant
                k <= self.folders@.len(),
                keep == (|f: WorkspaceFolder| !folder_uris(removed@).contains(f.uri@)),
                kept@ == self.folders@.take(k as int).filter(keep),
            decreases self.folders@.len() - k,
        {
            let ghost t = self.folders@.take(k + 1);
            assert(t.drop_last() =~= self.folders@.take(k as int));
            reveal(Seq::filter);
            if !has_uri(&removed, self.folders[k].uri.as_str()) {
                kept.push(copy_folder(&self.folders[k]));
            }
            k = k + 1;
        }
        assert(self.folders@.take(self.folders@.len() as int) =~= self.folders@);
        let ghost kept0 = kept@;
        let mut j: usize = 0;
        while j < added.len()
            invariant
                j <= added@.len(),
                kept@ == kept0 + added@.take(j as int),
            decreases added@.len() - j,
        {
            kept.push(copy_folder(&added[j]));
            assert(kept@ =~= kept0 + added@.take(j + 1));
            j = j + 1;
        }
        assert(added@.take(added@.len() as int) =~= added@);
        self.folders = dedupe_folders(kept);
    }

    /// Records watched-file changes: the URIs (in URL order, each once) that are workspace
    /// documents, counted as one invalidation when there are any.
    pub fn note_watched_file_changes(&mut self, changes: &[String], config: &LumalsConfig) -> (r: Vec<String>)
        ensures
            strictly_sorted(texts_view(r@)),
            texts_view(r@).to_set() == invalidated_set(changes@, folder_uris(old(self).spec_folders()), *config),
            final(self).spec_folders() == old(self).spec_folders(),
            r@.len() == 0 ==> final(self).spec_invalidations() == old(self).spec_invalidations()
                && final(self).spec_last_invalidated() == old(self).spec_last_invalidated(),
            r@.len() > 0 ==> final(self).spec_invalidations() == (if old(self).spec_invalidations() == u64::MAX {
                u64::MAX
            } else {
                (old(self).spec_invalidations() + 1) as u64
            }) && final(self).spec_last_invalidated() == r@,
    {
        let mut uris: Vec<String> = Vec::new();
        let mut k: usize = 0;
        let ghost fv = folder_uris(self.folders@);
        let mut folder_list: Vec<String> = Vec::new();
        let mut m: usize = 0;
        while m < self.folders.len()
            invariant
                m <= self.folders@.len(),
                fv == folder_uris(self.folders@),
                strings_view(folder_list@) == fv.take(m as int),
            decreases self.folders@.len() - m,
        {
            let ghost before = strings_view(folder_list@);
            let u = self.folders[m].uri.clone();
            folder_list.push(u);
            assert(fv[m as int] == self.folders@[m as int].uri@);
            assert(strings_view(folder_list@) =~= before.push(u@));
            assert(strings_view(folder_list@) =~= fv.take(m + 1));
            m = m + 1;
        }
        assert(fv.take(self.folders@.len() as int) =~= fv);
        assert(strictly_sorted(texts_view(uris@)));
        assert(texts_view(uris@).to_set() =~= Set::<Seq<u8>>::empty());
        while k < changes.len()
            invariant
                k <= changes@.len(),
                strings_view(folder_list@) == fv,
                strictly_sorted(texts_view(uris@)),
                texts_view(uris@).to_set() == invalidated_set(changes@.take(k as int), fv, *config),
            decreases changes@.len() - k,
        {
            let ghost before = texts_view(uris@).to_set();
            let ok = is_workspace_luma_uri(changes[k].as_str(), folder_list.as_slice(), config);
            if ok {
                insert_sorted(&mut uris, changes[k].clone());
            }
            proof {
                let t = changes@.take(k + 1);
                assert forall|x: Seq<u8>| #[trigger] invalidated_set(t, fv, *config).contains(x) <==> (
                invalidated_set(changes@.take(k as int), fv, *config).contains(x) || (ok && x == utf8(changes@[k as int]@))) by {
                    if invalidated_set(t, fv, *config).contains(x) {
                        let j = choose|j: int| 0 <= j < t.len() && utf8(#[trigger] t[j]@) == x && workspace_luma_spec(t[j]@, fv, *config);
                        if j < k {
                            assert(changes@.take(k as int)[j] == t[j]);
                        }
                    }
                    if invalidated_set(changes@.take(k as int), fv, *config).contains(x) {
                        let j = choose|j: int| 0 <= j < k && utf8(#[trigger] changes@.take(k as int)[j]@) == x && workspace_luma_spec(changes@.take(k as int)[j]@, fv, *config);
                        assert(t[j] == changes@.take(k as int)[j]);
                    }
                    if ok && x == utf8(changes@[k as int]@) {
                        assert(t[k as int] == changes@[k as int]);
                    }
                }
                assert(texts_view(uris@).to_set() =~= invalidated_set(t, fv, *config));
            }
            k = k + 1;
        }
        assert(changes@.take(changes@.len() as int) =~= changes@);
        if uris.len() > 0 {
            self.watched_file_invalidations = if self.watched_file_invalidations == u64::MAX {
                u64::MAX
            } else {
                self.watched_file_invalidations + 1
            };
            let mut copy: Vec<String> = Vec::new();
            let mut j: usize = 0;
            while j < uris.len()
                invariant
                    j <= uris@.len(),
                    copy@ == uris@.take(j as int),
                decreases uris@.len() - j,
            {
                copy.push(uris[j].clone());
                assert(copy@ =~= uris@.take(j + 1));
                j = j + 1;
            }
            assert(uris@.take(uris@.len() as int) =~= uris@);
            self.last_invalidated_files = copy;
        }
        uris
    }
}

} // verus!
