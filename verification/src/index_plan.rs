//! Which documents the workspace index holds: the open documents, then the workspace files
//! found on disk, within the per-root file cap and the file-size cap.
use vstd::prelude::*;

use crate::config::LumalsConfig;
use crate::imports::{strings_view, url_path_normalized, url_path_normalized_exec};
use crate::paths::{normalize_path, normalized};
use crate::text::{str_eq, utf8};
use crate::uri::{file_path_to_url, file_path_url};
use crate::workspace::{is_workspace_luma_uri, workspace_luma_spec};

verus! {

/// A `.luma` file that the walk of one root found, in walk order.
#[derive(Debug, Clone)]
pub struct WalkedFile {
    /// The position of its root among the roots walked.
    pub root: usize,
    pub path: String,
    /// Its size in bytes, `None` where the metadata could not be read.
    pub size: Option<u64>,
    /// Whether its text could be read as UTF-8.
    pub readable: bool,
}

/// The state of the plan while it goes through the files.
pub struct PlanState {
    pub seen: Seq<Seq<char>>,
    pub next: u32,
    pub root: int,
    pub indexed: u32,
    pub out: Seq<(Seq<char>, u32)>,
}

pub open spec fn sat_add1(x: u32) -> u32 {
    if x == u32::MAX { x } else { (x + 1) as u32 }
}

/// The open documents, each URI once (the first occurrence wins).
pub open spec fn open_state(open: Seq<(String, u32)>) -> (Seq<Seq<char>>, Seq<(Seq<char>, u32)>)
    decreases open.len(),
{
    if open.len() == 0 {
        (Seq::empty(), Seq::empty())
    } else {
        let (seen, out) = open_state(open.drop_last());
        let (uri, id) = open.last();
        if seen.contains(uri@) {
            (seen, out)
        } else {
            (seen.push(uri@), out.push((uri@, id)))
        }
    }
}

/// The largest file id of the open documents, 0 when there are none.
pub open spec fn max_id(open: Seq<(String, u32)>) -> u32
    decreases open.len(),
{
    if open.len() == 0 {
        0
    } else {
        let m = max_id(open.drop_last());
        if open.last().1 > m { open.last().1 } else { m }
    }
}

/// The normalised paths of the open documents' URIs.
pub open spec fn open_paths(seen: Seq<Seq<char>>) -> Seq<Seq<u8>>
    decreases seen.len(),
{
    if seen.len() == 0 {
        Seq::empty()
    } else {
        open_paths(seen.drop_last()) + match url_path_normalized(seen.last()) {
            Some(p) => seq![p],
            None => Seq::<Seq<u8>>::empty(),
        }
    }
}

/// One walked file: skipped past the root's cap or when open; else its URL, each once, is
/// indexed when it is a workspace document within the size cap whose text could be read.
pub open spec fn visit(st: PlanState, w: WalkedFile, paths: Seq<Seq<u8>>, folders: Seq<Seq<char>>, config: LumalsConfig) -> PlanState {
    let indexed: u32 = if w.root == st.root { st.indexed } else { 0 };
    let st1 = PlanState { root: w.root as int, indexed, ..st };
    if indexed >= config.max_indexed_files_per_workspace || paths.contains(normalized(utf8(w.path@))) {
        st1
    } else {
        match file_path_url(w.path@) {
            None => st1,
            Some(uri) => if st1.seen.contains(uri) {
                st1
            } else {
                let st2 = PlanState { seen: st1.seen.push(uri), ..st1 };
                if !workspace_luma_spec(uri, folders, config) || w.size is None || w.size.unwrap()
                    > config.max_indexed_file_bytes || !w.readable {
                    st2
                } else {
                    PlanState { out: st2.out.push((uri, st2.next)), next: sat_add1(st2.next), indexed: sat_add1(indexed), ..st2 }
                }
            },
        }
    }
}

pub open spec fn walk_state(init: PlanState, walked: Seq<WalkedFile>, paths: Seq<Seq<u8>>, folders: Seq<Seq<char>>, config: LumalsConfig) -> PlanState
    decreases walked.len(),
{
    if walked.len() == 0 {
        init
    } else {
        visit(walk_state(init, walked.drop_last(), paths, folders, config), walked.last(), paths, folders, config)
    }
}

/// The documents that the index holds, with their file ids: the open documents, then (with
/// workspace indexing on) the walked files in order, numbered on from the largest open id.
pub open spec fn index_plan_spec(open: Seq<(String, u32)>, walked: Seq<WalkedFile>, folders: Seq<Seq<char>>, config: LumalsConfig) -> Seq<(Seq<char>, u32)> {
    let (seen, out) = open_state(open);
    if !config.index_workspace {
        out
    } else {
        let init = PlanState { seen, next: sat_add1(max_id(open)), root: -1, indexed: 0, out };
        walk_state(init, walked, open_paths(seen), folders, config).out
    }
}

pub open spec fn plan_view(v: Seq<(String, u32)>) -> Seq<(Seq<char>, u32)> {
    v.map_values(|p: (String, u32)| (p.0@, p.1))
}

fn contains_str(v: &Vec<String>, s: &str) -> (r: bool)
    ensures
        r == strings_view(v@).contains(s@),
{
    let mut k: usize = 0;
    while k < v.len()
        invariant
            k <= v@.len(),
            forall|j: int| 0 <= j < k ==> #[trigger] v@[j]@ != s@,
        decreases v@.len() - k,
    {
        if str_eq(v[k].as_str(), s) {
            assert(strings_view(v@)[k as int] == s@);
            return true;
        }
        k = k + 1;
    }
    assert forall|j: int| 0 <= j < strings_view(v@).len() implies strings_view(v@)[j] != s@ by {
        assert(strings_view(v@)[j] == v@[j]@);
    }
    false
}

fn contains_bytes(v: &Vec<String>, s: &str) -> (r: bool)
    ensures
        r == v@.map_values(|x: String| utf8(x@)).contains(utf8(s@)),
{
    let ghost vv = v@.map_values(|x: String| utf8(x@));
    let mut k: usize = 0;
    while k < v.len()
        invariant
            k <= v@.len(),
            vv == v@.map_values(|x: String| utf8(x@)),
            forall|j: int| 0 <= j < k ==> #[trigger] vv[j] != utf8(s@),
        decreases v@.len() - k,
    {
        if str_eq(v[k].as_str(), s) {
            assert(vv[k as int] == utf8(s@));
            return true;
        }
        assert(vv[k as int] == utf8(v@[k as int]@));
        proof {
            if vv[k as int] == utf8(s@) {
                crate::text::lemma_utf8_injective(v@[k as int]@, s@);
            }
        }
        k = k + 1;
    }
    false
}

/// The documents that the workspace index holds and their file ids: the open documents (each
/// URI once), then, with workspace indexing on, each walked file that is a workspace `.luma`
/// document not already open or seen, at most the configured number per root and no larger
/// than the configured byte size, numbered on from the largest open file id.
pub fn plan_workspace_index(open: &[(String, u32)], walked: &[WalkedFile], folder_uris: &[String], config: &LumalsConfig) -> (plan: Vec<(String, u32)>)
    ensures
        plan_view(plan@) == index_plan_spec(open@, walked@, strings_view(folder_uris@), *config),
{
    let mut seen: Vec<String> = Vec::new();
    let mut out: Vec<(String, u32)> = Vec::new();
    let mut max: u32 = 0;
    let mut k: usize = 0;
    while k < open.len()
        invariant
            k <= open@.len(),
            (strings_view(seen@), plan_view(out@)) == open_state(open@.take(k as int)),
            max == max_id(open@.take(k as int)),
        decreases open@.len() - k,
    {
        let ghost t = open@.take(k + 1);
        assert(t.drop_last() =~= open@.take(k as int));
        assert(t.last() == open@[k as int]);
        let (uri, id) = &open[k];
        if *id > max {
            max = *id;
        }
        if !contains_str(&seen, uri.as_str()) {
            let ghost s0 = strings_view(seen@);
            let ghost o0 = plan_view(out@);
            seen.push(uri.clone());
            out.push((uri.clone(), *id));
            assert(strings_view(seen@) =~= s0.push(uri@));
            assert(plan_view(out@) =~= o0.push((uri@, *id)));
        }
        k = k + 1;
    }
    assert(open@.take(open@.len() as int) =~= open@);
    if !config.index_workspace {
        return out;
    }
    let ghost folders = strings_view(folder_uris@);
    let mut paths: Vec<String> = Vec::new();
    let mut j: usize = 0;
    while j < seen.len()
        invariant
            j <= seen@.len(),
            paths@.map_values(|x: String| utf8(x@)) == open_paths(strings_view(seen@).take(j as int)),
        decreases seen@.len() - j,
    {
        let ghost t = strings_view(seen@).take(j + 1);
        let ghost p0 = paths@.map_values(|x: String| utf8(x@));
        assert(t.drop_last() =~= strings_view(seen@).take(j as int));
        assert(t.last() == seen@[j as int]@);
        match url_path_normalized_exec(seen[j].as_str()) {
            Some(p) => {
                paths.push(p);
                assert(paths@.map_values(|x: String| utf8(x@)) =~= p0 + seq![utf8(p@)]);
            },
            None => {
                assert(p0 + Seq::<Seq<u8>>::empty() =~= p0);
            },
        }
        j = j + 1;
    }
    assert(strings_view(seen@).take(seen@.len() as int) =~= strings_view(seen@));
    let ghost pv = paths@.map_values(|x: String| utf8(x@));
    let ghost init = PlanState {
        seen: strings_view(seen@),
        next: sat_add1(max),
        root: -1,
        indexed: 0,
        out: plan_view(out@),
    };
    let mut next: u32 = if max == u32::MAX { max } else { max + 1 };
    let mut root_known = false;
    let mut root: usize = 0;
    let mut indexed: u32 = 0;
    let mut w: usize = 0;
    while w < walked.len()
        invariant
            w <= walked@.len(),
            pv == paths@.map_values(|x: String| utf8(x@)),
            pv == open_paths(init.seen),
            ({
                let st = walk_state(init, walked@.take(w as int), pv, folders, *config);
                &&& st.seen == strings_view(seen@)
                &&& st.next == next
                &&& st.root == (if root_known { root as int } else { -1 })
                &&& st.indexed == indexed
                &&& st.out == plan_view(out@)
            }),
            folders == strings_view(folder_uris@),
            w > 0 ==> root_known,
        decreases walked@.len() - w,
    {
        let ghost t = walked@.take(w + 1);
        assert(t.drop_last() =~= walked@.take(w as int));
        assert(t.last() == walked@[w as int]);
        let f = &walked[w];
        if !root_known || f.root != root {
            indexed = 0;
        }
        root_known = true;
        root = f.root;
        w = w + 1;
        if indexed >= config.max_indexed_files_per_workspace {
            continue;
        }
        let norm = normalize_path(f.path.as_str());
        if contains_bytes(&paths, norm.as_str()) {
            continue;
        }
        let uri = match file_path_to_url(f.path.as_str()) {
            None => continue,
            Some(u) => u,
        };
        if contains_str(&seen, uri.as_str()) {
            continue;
        }
        let ghost s0 = strings_view(seen@);
        seen.push(uri.clone());
        assert(strings_view(seen@) =~= s0.push(uri@));
        if !is_workspace_luma_uri(uri.as_str(), folder_uris, config) {
            continue;
        }
        let small = match f.size {
            None => false,
            Some(n) => n <= config.max_indexed_file_bytes as u64,
        };
        if !small || !f.readable {
            continue;
        }
        let ghost o0 = plan_view(out@);
        out.push((uri, next));
        assert(plan_view(out@) =~= o0.push((uri@, next)));
        next = if next == u32::MAX { next } else { next + 1 };
        indexed = if indexed == u32::MAX { indexed } else { indexed + 1 };
    }
    assert(walked@.take(walked@.len() as int) =~= walked@);
    out
}

} // verus!
