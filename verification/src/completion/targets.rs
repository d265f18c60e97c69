//! Completion of import targets: the `.luma` paths beside the document, and module aliases.
use vstd::prelude::*;
use vstd::utf8::{decode_utf8, valid_utf8};

use crate::completion::corpus::{lemma_sorted_of, sorted_of};
use crate::completion::items::{items_view, list_items, one, keep_if, CompletionItem, CompletionItemKind, ItemV};
use crate::completion::prefix::{starts, starts_exec, strip_repeat, strip_repeat_exec};
use crate::config::LumalsConfig;
use crate::imports::{guarded_import_spec, parent_text, resolve_guarded_import, strings_view, url_path_normalized, url_path_normalized_exec};
use crate::paths::{components_exec, join, normal_components, path_starts_with, render, seg_ok, starts_with_path, view_pairs};
use crate::text::{
    find_pat, find_pat_exec, rfind_pat, rfind_pat_exec, bytes_to_string, char_boundary, lemma_boundary_after_ascii, lemma_str_valid, rfind_byte, rfind_byte_exec,
    skip_ws, skip_ws_back, substring, trim_end_at, trim_start_at, utf8,
};
use crate::workspace::{insert_sorted, strictly_sorted, texts_view};

verus! {

pub open spec fn is_quote(c: u8) -> bool {
    c == 0x22 || c == 0x27
}

pub open spec fn quotes_fwd(b: Seq<u8>, lo: int, hi: int) -> int
    decreases hi - lo,
{
    if lo < hi && is_quote(b[lo]) {
        quotes_fwd(b, lo + 1, hi)
    } else {
        lo
    }
}

pub open spec fn quotes_back(b: Seq<u8>, lo: int, hi: int) -> int
    decreases hi - lo,
{
    if lo < hi && is_quote(b[hi - 1]) {
        quotes_back(b, lo, hi - 1)
    } else {
        hi
    }
}

/// `b[lo..hi]` trimmed of white space and then of quotes at both ends.
pub open spec fn trim_quotes(b: Seq<u8>, lo: int, hi: int) -> (int, int) {
    let s = skip_ws(b, lo, hi);
    let e = skip_ws_back(b, s, hi);
    let s2 = quotes_fwd(b, s, e);
    (s2, quotes_back(b, s2, e))
}

pub proof fn lemma_quotes(b: Seq<u8>, lo: int, hi: int)
    requires
        valid_utf8(b),
        0 <= lo <= hi <= b.len(),
        char_boundary(b, lo),
        char_boundary(b, hi),
    ensures
        lo <= quotes_fwd(b, lo, hi) <= hi,
        char_boundary(b, quotes_fwd(b, lo, hi)),
        lo <= quotes_back(b, lo, hi) <= hi,
        char_boundary(b, quotes_back(b, lo, hi)),
    decreases hi - lo,
{
    if lo < hi && is_quote(b[lo]) {
        lemma_boundary_after_ascii(b, lo);
        lemma_quotes(b, lo + 1, hi);
    }
    if lo < hi && is_quote(b[hi - 1]) {
        lemma_quotes_back(b, lo, hi);
    }
}

proof fn lemma_quotes_back(b: Seq<u8>, lo: int, hi: int)
    requires
        valid_utf8(b),
        0 <= lo <= hi <= b.len(),
        char_boundary(b, hi),
    ensures
        lo <= quotes_back(b, lo, hi) <= hi,
        char_boundary(b, quotes_back(b, lo, hi)),
    decreases hi - lo,
{
    if lo < hi && is_quote(b[hi - 1]) {
        lemma_quotes_back(b, lo, hi - 1);
    }
}

pub fn trim_quotes_exec(b: &[u8], lo: usize, hi: usize) -> (r: (usize, usize))
    requires
        valid_utf8(b@),
        lo <= hi <= b@.len(),
        char_boundary(b@, lo as int),
        char_boundary(b@, hi as int),
    ensures
        (r.0 as int, r.1 as int) == trim_quotes(b@, lo as int, hi as int),
        lo <= r.0 <= r.1 <= hi,
        char_boundary(b@, r.0 as int),
        char_boundary(b@, r.1 as int),
{
    let s = trim_start_at(b, lo, hi);
    let e = trim_end_at(b, s, hi);
    proof {
        crate::text::lemma_skip_ws_boundary(b@, lo as int, hi as int);
        crate::text::lemma_skip_ws_back_boundary(b@, s as int, hi as int);
        lemma_quotes(b@, s as int, e as int);
    }
    let mut s2 = s;
    while s2 < e && (b[s2] == 0x22 || b[s2] == 0x27)
        invariant
            s <= s2 <= e <= b@.len(),
            quotes_fwd(b@, s2 as int, e as int) == quotes_fwd(b@, s as int, e as int),
        decreases e - s2,
    {
        s2 = s2 + 1;
    }
    proof {
        lemma_quotes(b@, s2 as int, e as int);
    }
    let mut e2 = e;
    while e2 > s2 && (b[e2 - 1] == 0x22 || b[e2 - 1] == 0x27)
        invariant
            s2 <= e2 <= e <= b@.len(),
            quotes_back(b@, s2 as int, e2 as int) == quotes_back(b@, s2 as int, e as int),
        decreases e2,
    {
        e2 = e2 - 1;
    }
    (s2, e2)
}

/// The last path component of `b[lo..hi]` that is neither empty nor `.`.
pub open spec fn last_name(b: Seq<u8>, lo: int, hi: int) -> Option<(int, int)>
    decreases hi - lo,
{
    if hi <= lo {
        None
    } else {
        let s = match rfind_byte(b, lo, hi, 0x2f) {
            Some(p) => p + 1,
            None => lo,
        };
        if !(lo <= s <= hi) {
            None
        } else if hi - s == 0 || (hi - s == 1 && b[s] == 0x2e) {
            if s > lo {
                last_name(b, lo, s - 1)
            } else {
                None
            }
        } else {
            Some((s, hi))
        }
    }
}

pub open spec fn underscored(p: Seq<u8>) -> Seq<u8> {
    p.map_values(|c: u8| if c == 0x2d || c == 0x2e { 0x5fu8 } else { c })
}

/// The alias a target suggests: its file name without the extension, with `-` and `.`
/// turned into `_`.
pub open spec fn alias_stem(b: Seq<u8>, lo: int, hi: int) -> Option<Seq<u8>> {
    let (s, e) = trim_quotes(b, lo, hi);
    match last_name(b, s, e) {
        None => None,
        Some((ns, ne)) => if ne - ns == 2 && b[ns] == 0x2e && b[ns + 1] == 0x2e {
            None
        } else {
            let cut = match rfind_byte(b, ns, ne, 0x2e) {
                Some(i) => if i > ns { i } else { ne },
                None => ne,
            };
            Some(underscored(b.subrange(ns, cut)))
        },
    }
}

proof fn lemma_last_name(b: Seq<u8>, lo: int, hi: int)
    requires
        0 <= lo <= hi <= b.len(),
    ensures
        last_name(b, lo, hi) matches Some((s, e)) ==> lo <= s < e == hi || (lo <= s < e <= hi),
        last_name(b, lo, hi) matches Some((s, e)) ==> (s == lo || b[s - 1] == 0x2f) && (e == hi || b[e] == 0x2f),
    decreases hi - lo,
{
    crate::text::lemma_rfind_byte_bounds(b, lo, hi, 0x2f);
    if hi > lo {
        let s = match rfind_byte(b, lo, hi, 0x2f) {
            Some(p) => p + 1,
            None => lo,
        };
        if hi - s == 0 || (hi - s == 1 && b[s] == 0x2e) {
            if s > lo {
                lemma_last_name(b, lo, s - 1);
            }
        }
    }
}

/// Replacing ASCII bytes by ASCII bytes keeps UTF-8 valid.
proof fn lemma_ascii_map_valid(b: Seq<u8>, c: Seq<u8>)
    requires
        valid_utf8(b),
        c.len() == b.len(),
        forall|i: int| 0 <= i < b.len() ==> (b[i] < 0x80 ==> c[i] < 0x80) && (b[i] >= 0x80 ==> #[trigger] c[i] == b[i]),
    ensures
        valid_utf8(c),
    decreases b.len(),
{
    if b.len() > 0 {
        let l = vstd::utf8::length_of_first_scalar(b);
        assert(vstd::utf8::valid_first_scalar(b));
        if b[0] < 0x80 {
            assert(c[0] < 0x80);
        } else {
            assert(c[0] == b[0]);
            if l >= 2 {
                assert(c[1] == b[1]);
            }
            if l >= 3 {
                assert(c[2] == b[2]);
            }
            if l >= 4 {
                assert(c[3] == b[3]);
            }
        }
        assert(vstd::utf8::valid_first_scalar(c));
        assert(vstd::utf8::length_of_first_scalar(c) == l);
        let rb = vstd::utf8::pop_first_scalar(b);
        let rc = vstd::utf8::pop_first_scalar(c);
        assert forall|i: int| 0 <= i < rb.len() implies (rb[i] < 0x80 ==> rc[i] < 0x80) && (rb[i] >= 0x80
            ==> #[trigger] rc[i] == rb[i]) by {
            assert(rb[i] == b[i + l] && rc[i] == c[i + l]);
        }
        lemma_ascii_map_valid(rb, rc);
    }
}

fn alias_stem_exec(b: &[u8], lo: usize, hi: usize) -> (r: Option<String>)
    requires
        valid_utf8(b@),
        lo <= hi <= b@.len(),
        char_boundary(b@, lo as int),
        char_boundary(b@, hi as int),
    ensures
        match alias_stem(b@, lo as int, hi as int) {
            None => r is None,
            Some(x) => r matches Some(s) && utf8(s@) == x,
        },
{
    let (s, e) = trim_quotes_exec(b, lo, hi);
    let mut h = e;
    proof {
        lemma_last_name(b@, s as int, e as int);
    }
    let mut found: Option<(usize, usize)> = None;
    loop
        invariant_except_break
            found is None,
        invariant
            s <= h <= e <= b@.len(),
            last_name(b@, s as int, h as int) == last_name(b@, s as int, e as int),
        ensures
            match last_name(b@, s as int, e as int) {
                None => found is None,
                Some((x, y)) => found == Some((x as usize, y as usize)),
            },
        decreases h,
    {
        if h <= s {
            break;
        }
        proof {
            crate::text::lemma_rfind_byte_bounds(b@, s as int, h as int, 0x2f);
        }
        let st = match rfind_byte_exec(b, s, h, 0x2f) {
            Some(p) => p + 1,
            None => s,
        };
        if h - st == 0 || (h - st == 1 && b[st] == 0x2e) {
            if st > s {
                h = st - 1;
            } else {
                break;
            }
        } else {
            found = Some((st, h));
            break;
        }
    }
    match found {
        None => None,
        Some((ns, ne)) => {
            if ne - ns == 2 && b[ns] == 0x2e && b[ns + 1] == 0x2e {
                return None;
            }
            proof {
                crate::text::lemma_rfind_byte_bounds(b@, ns as int, ne as int, 0x2e);
            }
            let cut = match rfind_byte_exec(b, ns, ne, 0x2e) {
                Some(i) => if i > ns { i } else { ne },
                None => ne,
            };
            proof {
                if ns > s {
                    lemma_boundary_after_ascii(b@, ns - 1);
                }
            }
            let mut out: Vec<u8> = Vec::new();
            let mut k = ns;
            while k < cut
                invariant
                    ns <= k <= cut <= ne <= b@.len(),
                    out@ == underscored(b@.subrange(ns as int, k as int)),
                decreases cut - k,
            {
                let c = b[k];
                out.push(if c == 0x2d || c == 0x2e { 0x5f } else { c });
                assert(out@ =~= underscored(b@.subrange(ns as int, k + 1)));
                k = k + 1;
            }
            proof {
                assert(char_boundary(b@, cut as int)) by {
                    if cut < ne {
                        assert(b@[cut as int] == 0x2e);
                    } else if ne < e {
                        assert(b@[ne as int] == 0x2f);
                    }
                };
                crate::text::lemma_piece_valid(b@, ns as int, cut as int);
                let piece = b@.subrange(ns as int, cut as int);
                assert forall|i: int| 0 <= i < piece.len() implies (piece[i] < 0x80 ==> out@[i] < 0x80) && (piece[i]
                    >= 0x80 ==> #[trigger] out@[i] == piece[i]) by {
                }
                lemma_ascii_map_valid(piece, out@);
            }
            Some(bytes_to_string(out))
        },
    }
}


/// The path `p` below the directory `base`, written `./a/b`, when `base` holds it and it is
/// not `base` itself.
pub open spec fn rendered(p: Seq<u8>, base: Seq<u8>) -> Option<Seq<u8>> {
    if starts_with_path(p, base) {
        let c = normal_components(p);
        let m = normal_components(base).len();
        let j = join(p, c.subrange(m as int, c.len() as int));
        if j.len() == 0 {
            None
        } else {
            Some(seq![0x2eu8, 0x2f] + j)
        }
    } else {
        None
    }
}

pub open spec fn rendered_set(paths: Seq<Seq<u8>>, base: Seq<u8>) -> Set<Seq<u8>> {
    Set::new(|x: Seq<u8>| exists|i: int| 0 <= i < paths.len() && #[trigger] rendered(paths[i], base) == Some(x))
}

fn rendered_exec(p: &str, base: &str) -> (r: Option<String>)
    ensures
        match rendered(utf8(p@), utf8(base@)) {
            None => r is None,
            Some(x) => r matches Some(s) && utf8(s@) == x,
        },
{
    if !path_starts_with(p, base) {
        return None;
    }
    let b = p.as_bytes();
    proof {
        lemma_str_valid(p@);
    }
    let comps = components_exec(b);
    let bc = components_exec(base.as_bytes());
    let m = bc.len();
    let ghost cv = view_pairs(comps@);
    assert(cv.len() == comps@.len());
    assert(view_pairs(bc@).len() == bc@.len());
    assert(m <= comps.len());
    let mut rest: Vec<(usize, usize)> = Vec::new();
    let mut j = m;
    while j < comps.len()
        invariant
            m <= j <= comps@.len(),
            cv == view_pairs(comps@),
            cv.len() == comps@.len(),
            view_pairs(rest@) == cv.subrange(m as int, j as int),
        decreases comps@.len() - j,
    {
        let ghost before = view_pairs(rest@);
        rest.push(comps[j]);
        assert(cv[j as int] == (comps@[j as int].0 as int, comps@[j as int].1 as int));
        assert(view_pairs(rest@) =~= before.push(cv[j as int]));
        assert(view_pairs(rest@) =~= cv.subrange(m as int, j + 1));
        j = j + 1;
    }
    proof {
        assert forall|q: int| 0 <= q < view_pairs(rest@).len() implies seg_ok(
            b@,
            #[trigger] view_pairs(rest@)[q].0,
            view_pairs(rest@)[q].1,
        ) by {
            assert(view_pairs(rest@)[q] == cv[m + q]);
        }
    }
    let out = render(b, false, &rest);
    if out.len() == 0 {
        return None;
    }
    let mut full: Vec<u8> = Vec::new();
    proof {
        crate::text::lemma_ascii_valid(full@);
    }
    crate::text::push_ascii(&mut full, 0x2e);
    crate::text::push_ascii(&mut full, 0x2f);
    let ghost head = full@;
    crate::text::push_range(&mut full, out.as_slice(), 0, out.len());
    proof {
        assert(out@.subrange(0, out@.len() as int) =~= out@);
        vstd::utf8::valid_utf8_concat(head, out@);
        assert(full@ =~= seq![0x2eu8, 0x2f] + join(b@, view_pairs(rest@)));
    }
    Some(bytes_to_string(full))
}


/// The rendered paths, sorted, each once.
fn rendered_paths(paths: &Vec<String>, base: &str) -> (r: Vec<String>)
    ensures
        texts_view(r@) == sorted_of(rendered_set(texts_view(paths@), utf8(base@))),
{
    let ghost pv = texts_view(paths@);
    let ghost bv = utf8(base@);
    let mut out: Vec<String> = Vec::new();
    let mut k: usize = 0;
    assert(texts_view(out@).to_set() =~= rendered_set(pv.take(0), bv));
    while k < paths.len()
        invariant
            k <= paths@.len(),
            pv == texts_view(paths@),
            bv == utf8(base@),
            strictly_sorted(texts_view(out@)),
            texts_view(out@).to_set() == rendered_set(pv.take(k as int), bv),
        decreases paths@.len() - k,
    {
        let ghost t = pv.take(k + 1);
        let ghost before = texts_view(out@).to_set();
        assert(t[k as int] == utf8(paths@[k as int]@));
        match rendered_exec(paths[k].as_str(), base) {
            Some(x) => {
                insert_sorted(&mut out, x);
                assert forall|y: Seq<u8>| rendered_set(t, bv).contains(y) <==> before.insert(utf8(x@)).contains(y) by {
                    if rendered_set(t, bv).contains(y) {
                        let i = choose|i: int| 0 <= i < t.len() && #[trigger] rendered(t[i], bv) == Some(y);
                        if i < k {
                            assert(pv.take(k as int)[i] == t[i]);
                        }
                    }
                    if before.contains(y) {
                        let i = choose|i: int| 0 <= i < k && #[trigger] rendered(pv.take(k as int)[i], bv) == Some(y);
                        assert(t[i] == pv.take(k as int)[i]);
                    }
                }
                assert(texts_view(out@).to_set() =~= rendered_set(t, bv));
            },
            None => {
                assert forall|y: Seq<u8>| rendered_set(t, bv).contains(y) <==> before.contains(y) by {
                    if rendered_set(t, bv).contains(y) {
                        let i = choose|i: int| 0 <= i < t.len() && #[trigger] rendered(t[i], bv) == Some(y);
                        if i < k {
                            assert(pv.take(k as int)[i] == t[i]);
                        }
                    }
                    if before.contains(y) {
                        let i = choose|i: int| 0 <= i < k && #[trigger] rendered(pv.take(k as int)[i], bv) == Some(y);
                        assert(t[i] == pv.take(k as int)[i]);
                    }
                }
                assert(texts_view(out@).to_set() =~= rendered_set(t, bv));
            },
        }
        assert(pv.take(k + 1) == t);
        k = k + 1;
    }
    assert(pv.take(paths@.len() as int) =~= pv);
    proof {
        lemma_sorted_of(texts_view(out@));
    }
    out
}

/// The path candidates that start with the typed prefix and that the import guard accepts.
pub open spec fn path_list(
    cands: Seq<Seq<u8>>,
    pp: Seq<u8>,
    detail: Seq<u8>,
    uri: Seq<char>,
    folders: Seq<Seq<char>>,
    config: LumalsConfig,
) -> Seq<ItemV>
    decreases cands.len(),
{
    if cands.len() == 0 {
        seq![]
    } else {
        let c = cands.last();
        path_list(cands.drop_last(), pp, detail, uri, folders, config) + keep_if(
            starts(c, pp) && guarded_import_spec(uri, decode_utf8(c), folders, config) is Ok,
            ItemV {
                label: c,
                kind: CompletionItemKind::File,
                detail: Some(detail),
                insert: strip_repeat(c, pp),
                snippet: false,
                commit: Some(seq![utf8("\""@), utf8("'"@), utf8(" "@)]),
            },
        )
    }
}

/// The `.luma` paths offered after an import directive `b[ds..de]` whose argument is
/// `b[rs..off]`, for the document `uri`, from the workspace files `paths`.
pub open spec fn path_items(
    b: Seq<u8>,
    ds: int,
    de: int,
    rs: int,
    off: int,
    uri: Seq<char>,
    folders: Seq<Seq<char>>,
    config: LumalsConfig,
    paths: Seq<Seq<u8>>,
) -> Seq<ItemV> {
    let (ps, pe) = trim_quotes(b, rs, off);
    match url_path_normalized(uri) {
        None => seq![],
        Some(cp) => match parent_text(cp) {
            None => seq![],
            Some(base) => path_list(
                sorted_of(rendered_set(paths, base)),
                b.subrange(ps, pe),
                strip_repeat(b.subrange(ds, de), seq![0x40u8]) + utf8(" path"@),
                uri,
                folders,
                config,
            ),
        },
    }
}

fn commit_path() -> (r: Option<Vec<String>>)
    ensures
        r matches Some(v) && texts_view(v@) == seq![utf8("\""@), utf8("'"@), utf8(" "@)],
{
    let mut v: Vec<String> = Vec::new();
    v.push("\"".to_owned());
    v.push("'".to_owned());
    v.push(" ".to_owned());
    assert(texts_view(v@) =~= seq![utf8("\""@), utf8("'"@), utf8(" "@)]);
    Some(v)
}

pub fn path_items_exec(
    out: &mut Vec<CompletionItem>,
    b: &[u8],
    ds: usize,
    de: usize,
    rs: usize,
    off: usize,
    uri: &str,
    folders: &[String],
    config: &LumalsConfig,
    paths: &Vec<String>,
)
    requires
        valid_utf8(b@),
        ds <= de <= rs <= off <= b@.len(),
        char_boundary(b@, ds as int),
        char_boundary(b@, de as int),
        char_boundary(b@, rs as int),
        char_boundary(b@, off as int),
    ensures
        items_view(final(out)@) == items_view(old(out)@) + path_items(
            b@,
            ds as int,
            de as int,
            rs as int,
            off as int,
            uri@,
            strings_view(folders@),
            *config,
            texts_view(paths@),
        ),
{
    let (ps, pe) = trim_quotes_exec(b, rs, off);
    let cp = match url_path_normalized_exec(uri) {
        None => {
            assert(items_view(out@) =~= items_view(out@) + Seq::<ItemV>::empty());
            return;
        },
        Some(cp) => cp,
    };
    let base = match crate::imports::parent_dir_exec(cp.as_str()) {
        None => {
            assert(items_view(out@) =~= items_view(out@) + Seq::<ItemV>::empty());
            return;
        },
        Some(base) => base,
    };
    let cands = rendered_paths(paths, base.as_str());
    proof {
        crate::text::lemma_piece_valid(b@, ps as int, pe as int);
        crate::text::lemma_piece_valid(b@, ds as int, de as int);
    }
    let pp = substring(b, ps, pe);
    let dir = substring(b, ds, de);
    let at: [u8; 1] = [0x40];
    assert(at@ =~= seq![0x40u8]);
    proof {
        crate::text::lemma_ascii_valid(at@);
    }
    let dir_name = strip_repeat_exec(dir.as_str(), &at);
    let detail = crate::text::concat2(dir_name.as_str(), " path");
    proof {
        crate::text::lemma_utf8_concat(dir_name@, " path"@);
    }
    let ghost cv = texts_view(cands@);
    let ghost dv = utf8(detail@);
    let ghost ppv = utf8(pp@);
    let ghost before = items_view(out@);
    let pb = pp.as_str().as_bytes();
    proof {
        lemma_str_valid(pp@);
    }
    let mut k: usize = 0;
    assert(items_view(out@) =~= before + path_list(cv.take(0), ppv, dv, uri@, strings_view(folders@), *config));
    while k < cands.len()
        invariant
            k <= cands@.len(),
            cv == texts_view(cands@),
            pb@ == ppv,
            valid_utf8(ppv),
            dv == utf8(detail@),
            items_view(out@) == before + path_list(cv.take(k as int), ppv, dv, uri@, strings_view(folders@), *config),
        decreases cands@.len() - k,
    {
        let ghost t = cv.take(k + 1);
        assert(t.drop_last() =~= cv.take(k as int));
        assert(t.last() == utf8(cands@[k as int]@));
        proof {
            vstd::utf8::encode_utf8_decode_utf8(cands@[k as int]@);
        }
        if starts_exec(cands[k].as_str().as_bytes(), pb) && resolve_guarded_import(
            uri,
            cands[k].as_str(),
            folders,
            config,
        ).is_ok() {
            let it = CompletionItem {
                label: cands[k].clone(),
                kind: CompletionItemKind::File,
                detail: Some(detail.clone()),
                insert_text: strip_repeat_exec(cands[k].as_str(), pb),
                snippet: false,
                commit_characters: commit_path(),
            };
            let ghost mid = items_view(out@);
            out.push(it);
            assert(items_view(out@) =~= mid.push(item_view_of(it)));
            assert(items_view(out@) =~= before + path_list(t, ppv, dv, uri@, strings_view(folders@), *config));
        } else {
            assert(items_view(out@) =~= before + path_list(t, ppv, dv, uri@, strings_view(folders@), *config));
        }
        k = k + 1;
    }
    assert(cv.take(cands@.len() as int) =~= cv);
}

pub open spec fn item_view_of(i: CompletionItem) -> ItemV {
    crate::completion::items::item_view(i)
}

/// The aliases offered after `as`: the one the target suggests and the known ones, sorted,
/// each once, that start with the typed prefix.
pub open spec fn alias_items(b: Seq<u8>, rs: int, off: int, aliases: Seq<Seq<u8>>) -> Seq<ItemV> {
    let last = rfind_pat(b, rs, off, seq![0x20u8, 0x61, 0x73, 0x20])->0;
    let first = find_pat(b, rs, off, seq![0x20u8, 0x61, 0x73, 0x20])->0;
    let ts = skip_ws(b, rs, first);
    let te = skip_ws_back(b, ts, first);
    let set = match alias_stem(b, ts, te) {
        Some(st) => aliases.to_set().insert(st),
        None => aliases.to_set(),
    };
    list_items(
        sorted_of(set),
        b.subrange(last + 4, off),
        CompletionItemKind::Module,
        None,
        utf8(""@),
        one("\n"),
    )
}

fn as_word() -> (r: [u8; 4])
    ensures
        r@ == seq![0x20u8, 0x61, 0x73, 0x20],
{
    let r: [u8; 4] = [0x20, 0x61, 0x73, 0x20];
    assert(r@ =~= seq![0x20u8, 0x61, 0x73, 0x20]);
    r
}

pub fn alias_items_exec(out: &mut Vec<CompletionItem>, b: &[u8], rs: usize, off: usize, aliases: &Vec<String>)
    requires
        valid_utf8(b@),
        rs <= off <= b@.len(),
        char_boundary(b@, rs as int),
        char_boundary(b@, off as int),
        rfind_pat(b@, rs as int, off as int, seq![0x20u8, 0x61, 0x73, 0x20]) is Some,
    ensures
        items_view(final(out)@) == items_view(old(out)@) + alias_items(b@, rs as int, off as int, texts_view(aliases@)),
{
    let pat = as_word();
    proof {
        crate::text::lemma_rfind_pat_bounds(b@, rs as int, off as int, pat@);
        crate::text::lemma_find_pat_bounds(b@, rs as int, off as int, pat@);
        if find_pat(b@, rs as int, off as int, pat@) is None {
            let p = rfind_pat(b@, rs as int, off as int, pat@)->0;
            lemma_find_pat_none(b@, rs as int, off as int, pat@, p);
        }
    }
    let last = match rfind_pat_exec(b, rs, off, &pat) {
        Some(p) => p,
        None => rs,
    };
    let first = match find_pat_exec(b, rs, off, &pat) {
        Some(p) => p,
        None => rs,
    };
    assert(b@.subrange(first as int, first + 4)[0] == 0x20);
    assert(b@.subrange(last as int, last + 4)[3] == 0x20);
    let ts = trim_start_at(b, rs, first);
    let te = trim_end_at(b, ts, first);
    proof {
        crate::text::lemma_skip_ws_boundary(b@, rs as int, first as int);
        crate::text::lemma_skip_ws_back_boundary(b@, ts as int, first as int);
        lemma_boundary_after_ascii(b@, last + 3);
    }
    let stem = alias_stem_exec(b, ts, te);
    let mut cands: Vec<String> = Vec::new();
    let ghost av = texts_view(aliases@);
    let mut k: usize = 0;
    assert(texts_view(cands@).to_set() =~= av.take(0).to_set());
    while k < aliases.len()
        invariant
            k <= aliases@.len(),
            av == texts_view(aliases@),
            strictly_sorted(texts_view(cands@)),
            texts_view(cands@).to_set() == av.take(k as int).to_set(),
        decreases aliases@.len() - k,
    {
        insert_sorted(&mut cands, aliases[k].clone());
        proof {
            assert(av.take(k + 1) =~= av.take(k as int).push(av[k as int]));
            assert(av.take(k as int).push(av[k as int]).to_set() =~= av.take(k as int).to_set().insert(av[k as int]))
                by {
                let s0 = av.take(k as int);
                let s1 = s0.push(av[k as int]);
                assert forall|y: Seq<u8>| s1.to_set().contains(y) <==> s0.to_set().insert(av[k as int]).contains(y) by {
                    if s1.to_set().contains(y) {
                        let i = choose|i: int| 0 <= i < s1.len() && s1[i] == y;
                        if i < s0.len() {
                            assert(s0[i] == y);
                        }
                    }
                    if s0.to_set().contains(y) {
                        let i = choose|i: int| 0 <= i < s0.len() && s0[i] == y;
                        assert(s1[i] == y);
                    }
                    if y == av[k as int] {
                        assert(s1[k as int] == y);
                    }
                }
            }
        }
        k = k + 1;
    }
    assert(av.take(aliases@.len() as int) =~= av);
    match stem {
        Some(st) => {
            insert_sorted(&mut cands, st);
        },
        None => {},
    }
    proof {
        lemma_sorted_of(texts_view(cands@));
    }
    let mut prefix: Vec<u8> = Vec::new();
    crate::text::push_range(&mut prefix, b, last + 4, off);
    proof {
        assert(prefix@ =~= b@.subrange(last + 4, off as int));
        crate::text::lemma_piece_valid(b@, last + 4, off as int);
    }
    crate::completion::items::push_list_items(
        out,
        &cands,
        prefix.as_slice(),
        CompletionItemKind::Module,
        None,
        "",
        Some("\n"),
    );
}

proof fn lemma_find_pat_none(b: Seq<u8>, lo: int, hi: int, pat: Seq<u8>, p: int)
    requires
        0 <= lo <= p,
        p + pat.len() <= hi <= b.len(),
        crate::text::matches_at(b, p, hi, pat),
    ensures
        find_pat(b, lo, hi, pat) is Some,
    decreases p - lo,
{
    if !crate::text::matches_at(b, lo, hi, pat) {
        lemma_find_pat_none(b, lo + 1, hi, pat, p);
    }
}

} // verus!
