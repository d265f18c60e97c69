//! The guard on import and include targets: no parent traversal, only allowed schemes,
//! absolute paths only when allowed, and file targets only under the workspace roots.
use vstd::prelude::*;
use vstd::utf8::{decode_utf8, encode_utf8_decode_utf8, valid_utf8};

use crate::config::LumalsConfig;
use crate::paths::{
    all_ok, components_exec, is_absolute, join, normal_components, normalize_path, normalized,
    path_starts_with, render, starts_with_path, view_pairs,
};
use crate::text::{
    bytes_to_string, lemma_boundary_after_ascii, lemma_str_valid, push_ascii, push_piece, str_eq,
    substring, utf8,
};
use crate::uri::{file_path_to_url, file_path_url, parse_url_parts, parsed_url, url_file_path, url_to_file_path};

verus! {

/// Why an import or include target was refused.
#[derive(Debug, Clone, PartialEq, Eq)]
pub enum ImportPolicyError {
    ParentTraversal,
    DisallowedScheme(String),
    AbsolutePathNotAllowed,
    OutsideAllowedRoots,
    NonFileBaseUri,
    InvalidTarget,
}

/// The refusal as plain values.
pub enum ImportRefusal {
    ParentTraversal,
    DisallowedScheme(Seq<char>),
    AbsolutePathNotAllowed,
    OutsideAllowedRoots,
    NonFileBaseUri,
    InvalidTarget,
}

impl View for ImportPolicyError {
    type V = ImportRefusal;

    open spec fn view(&self) -> ImportRefusal {
        match self {
            ImportPolicyError::ParentTraversal => ImportRefusal::ParentTraversal,
            ImportPolicyError::DisallowedScheme(s) => ImportRefusal::DisallowedScheme(s@),
            ImportPolicyError::AbsolutePathNotAllowed => ImportRefusal::AbsolutePathNotAllowed,
            ImportPolicyError::OutsideAllowedRoots => ImportRefusal::OutsideAllowedRoots,
            ImportPolicyError::NonFileBaseUri => ImportRefusal::NonFileBaseUri,
            ImportPolicyError::InvalidTarget => ImportRefusal::InvalidTarget,
        }
    }
}

impl ImportPolicyError {
    /// The message shown for the refusal.
    pub fn message(&self) -> (m: String)
        ensures
            m@ == refusal_message(self@),
    {
        match self {
            ImportPolicyError::ParentTraversal => "import/include path must not contain parent traversal".to_owned(),
            ImportPolicyError::DisallowedScheme(s) => {
                let a = crate::text::concat2("import/include scheme '", s.as_str());
                crate::text::concat2(a.as_str(), "' is not allowed")
            },
            ImportPolicyError::AbsolutePathNotAllowed => "import/include absolute path is not allowed".to_owned(),
            ImportPolicyError::OutsideAllowedRoots => "import/include target must stay within configured roots".to_owned(),
            ImportPolicyError::NonFileBaseUri => "import/include base URI must be a file URI".to_owned(),
            ImportPolicyError::InvalidTarget => "import/include target is not a valid URI or relative path".to_owned(),
        }
    }
}

pub open spec fn refusal_message(r: ImportRefusal) -> Seq<char> {
    match r {
        ImportRefusal::ParentTraversal => "import/include path must not contain parent traversal"@,
        ImportRefusal::DisallowedScheme(s) => "import/include scheme '"@ + s + "' is not allowed"@,
        ImportRefusal::AbsolutePathNotAllowed => "import/include absolute path is not allowed"@,
        ImportRefusal::OutsideAllowedRoots => "import/include target must stay within configured roots"@,
        ImportRefusal::NonFileBaseUri => "import/include base URI must be a file URI"@,
        ImportRefusal::InvalidTarget => "import/include target is not a valid URI or relative path"@,
    }
}

/// The target without one pair of matching quotes around it.
pub open spec fn unquoted(b: Seq<u8>) -> Seq<u8> {
    if b.len() >= 2 && ((b[0] == 0x27 && b[b.len() - 1] == 0x27) || (b[0] == 0x22 && b[b.len() - 1] == 0x22)) {
        b.subrange(1, b.len() - 1)
    } else {
        b
    }
}

pub open spec fn is_separator(c: u8) -> bool {
    c == 0x2f || c == 0x5c
}

/// Some component between `/` or `\` separators is `..`.
pub open spec fn has_parent_traversal(b: Seq<u8>) -> bool {
    exists|i: int|
        0 <= i && i + 2 <= b.len() && #[trigger] b[i] == 0x2e && b[i + 1] == 0x2e && (i == 0 || is_separator(b[i - 1]))
            && (i + 2 == b.len() || is_separator(b[i + 2]))
}

/// The file path of a URL, normalised.
pub open spec fn url_path_normalized(text: Seq<char>) -> Option<Seq<u8>> {
    match url_file_path(text) {
        Some(p) => Some(normalized(utf8(p))),
        None => None,
    }
}

/// The roots that workspace folders give.
pub open spec fn folder_roots(folders: Seq<Seq<char>>) -> Seq<Seq<u8>>
    decreases folders.len(),
{
    if folders.len() == 0 {
        Seq::empty()
    } else {
        folder_roots(folders.drop_last()) + match url_path_normalized(folders.last()) {
            Some(p) => seq![p],
            None => Seq::<Seq<u8>>::empty(),
        }
    }
}

/// A configured root: the path of a `file:` URL, else the text read as a path; normalised.
pub open spec fn configured_root(root: Seq<char>) -> Seq<u8> {
    match parsed_url(root) {
        Some((_, scheme, _)) => if scheme == "file"@ {
            match url_path_normalized(root) {
                Some(p) => p,
                None => normalized(utf8(root)),
            }
        } else {
            normalized(utf8(root))
        },
        None => normalized(utf8(root)),
    }
}

pub open spec fn configured_roots(roots: Seq<Seq<char>>) -> Seq<Seq<u8>>
    decreases roots.len(),
{
    if roots.len() == 0 {
        Seq::empty()
    } else {
        configured_roots(roots.drop_last()).push(configured_root(roots.last()))
    }
}

pub open spec fn strings_view(v: Seq<String>) -> Seq<Seq<char>> {
    v.map_values(|s: String| s@)
}

/// The workspace folders' roots, then the configured ones (in that order, duplicates kept).
pub open spec fn effective_roots(folders: Seq<Seq<char>>, config: LumalsConfig) -> Seq<Seq<u8>> {
    folder_roots(folders) + configured_roots(strings_view(config.allowed_roots@))
}

/// The URL is accepted when there are no roots or the path lies under one of them.
pub open spec fn within_roots(path: Seq<u8>, url: Seq<char>, roots: Seq<Seq<u8>>) -> Result<Seq<char>, ImportRefusal> {
    if roots.len() == 0 || exists|k: int| 0 <= k < roots.len() && starts_with_path(path, #[trigger] roots[k]) {
        Ok(url)
    } else {
        Err(ImportRefusal::OutsideAllowedRoots)
    }
}

pub open spec fn from_path(path: Seq<u8>, roots: Seq<Seq<u8>>) -> Result<Seq<char>, ImportRefusal> {
    match file_path_url(decode_utf8(path)) {
        None => Err(ImportRefusal::InvalidTarget),
        Some(u) => within_roots(path, u, roots),
    }
}

/// The parent directory's text of a normalised path, `None` when it has no component.
pub open spec fn parent_text(p: Seq<u8>) -> Option<Seq<u8>> {
    let comps = normal_components(p);
    if comps.len() == 0 {
        None
    } else {
        Some((if is_absolute(p) { seq![0x2fu8] } else { Seq::<u8>::empty() }) + join(p, comps.drop_last()))
    }
}

/// `dir.join(target)` for a relative target.
pub open spec fn joined(dir: Seq<u8>, t: Seq<u8>) -> Seq<u8> {
    if dir.len() == 0 {
        t
    } else {
        dir + seq![0x2fu8] + t
    }
}

pub open spec fn allowed_scheme(config: LumalsConfig, scheme: Seq<char>) -> bool {
    exists|k: int| 0 <= k < config.allowed_schemes@.len() && #[trigger] config.allowed_schemes@[k]@ == scheme
}

/// Where an import or include target leads from the document `base`, or why it is refused.
pub open spec fn guarded_import_spec(base: Seq<char>, target: Seq<char>, folders: Seq<Seq<char>>, config: LumalsConfig) -> Result<Seq<char>, ImportRefusal> {
    let t = unquoted(utf8(target));
    let roots = effective_roots(folders, config);
    if has_parent_traversal(t) {
        Err(ImportRefusal::ParentTraversal)
    } else {
        match parsed_url(decode_utf8(t)) {
            Some((url, scheme, _)) => if !allowed_scheme(config, scheme) {
                Err(ImportRefusal::DisallowedScheme(scheme))
            } else if scheme != "file"@ {
                Ok(url)
            } else {
                match url_path_normalized(decode_utf8(t)) {
                    None => Err(ImportRefusal::InvalidTarget),
                    Some(p) => within_roots(p, url, roots),
                }
            },
            None => if is_absolute(t) {
                if !config.allow_absolute_file_uris {
                    Err(ImportRefusal::AbsolutePathNotAllowed)
                } else {
                    from_path(normalized(t), roots)
                }
            } else {
                match url_path_normalized(base) {
                    None => Err(ImportRefusal::NonFileBaseUri),
                    Some(bp) => match parent_text(bp) {
                        None => Err(ImportRefusal::NonFileBaseUri),
                        Some(dir) => from_path(normalized(joined(dir, t)), roots),
                    },
                }
            },
        }
    }
}

proof fn lemma_decode(s: Seq<char>)
    ensures
        decode_utf8(utf8(s)) == s,
{
    encode_utf8_decode_utf8(s);
}

fn unquote(target: &str) -> (r: String)
    ensures
        utf8(r@) == unquoted(utf8(target@)),
{
    let b = target.as_bytes();
    let n = b.len();
    proof {
        lemma_str_valid(target@);
    }
    if n >= 2 && ((b[0] == 0x27 && b[n - 1] == 0x27) || (b[0] == 0x22 && b[n - 1] == 0x22)) {
        proof {
            lemma_boundary_after_ascii(b@, 0);
        }
        substring(b, 1, n - 1)
    } else {
        target.to_owned()
    }
}

fn parent_traversal(b: &[u8]) -> (r: bool)
    ensures
        r == has_parent_traversal(b@),
{
    let n = b.len();
    let mut i: usize = 0;
    while n >= 2 && i <= n - 2
        invariant
            n == b@.len(),
            forall|j: int|
                0 <= j < i && j + 2 <= n ==> !(#[trigger] b@[j] == 0x2e && b@[j + 1] == 0x2e && (j == 0 || is_separator(b@[j - 1]))
                    && (j + 2 == n || is_separator(b@[j + 2]))),
        decreases n - i,
    {
        if b[i] == 0x2e && b[i + 1] == 0x2e && (i == 0 || b[i - 1] == 0x2f || b[i - 1] == 0x5c) && (i + 2 == n
            || b[i + 2] == 0x2f || b[i + 2] == 0x5c) {
            return true;
        }
        i = i + 1;
    }
    false
}

fn scheme_allowed(config: &LumalsConfig, scheme: &str) -> (r: bool)
    ensures
        r == allowed_scheme(*config, scheme@),
{
    let mut k: usize = 0;
    while k < config.allowed_schemes.len()
        invariant
            k <= config.allowed_schemes@.len(),
            forall|j: int| 0 <= j < k ==> #[trigger] config.allowed_schemes@[j]@ != scheme@,
        decreases config.allowed_schemes@.len() - k,
    {
        if str_eq(config.allowed_schemes[k].as_str(), scheme) {
            return true;
        }
        k = k + 1;
    }
    false
}

pub(crate) fn url_path_normalized_exec(text: &str) -> (r: Option<String>)
    ensures
        match url_path_normalized(text@) {
            None => r is None,
            Some(p) => r matches Some(s) && utf8(s@) == p,
        },
{
    match url_to_file_path(text) {
        None => None,
        Some(p) => Some(normalize_path(p.as_str())),
    }
}

fn configured_root_exec(root: &str) -> (r: String)
    ensures
        utf8(r@) == configured_root(root@),
{
    match parse_url_parts(root) {
        Some((_, scheme, _)) => {
            if str_eq(scheme.as_str(), "file") {
                match url_path_normalized_exec(root) {
                    Some(p) => p,
                    None => normalize_path(root),
                }
            } else {
                normalize_path(root)
            }
        },
        None => normalize_path(root),
    }
}

pub open spec fn roots_view(v: Seq<String>) -> Seq<Seq<u8>> {
    v.map_values(|s: String| utf8(s@))
}

/// The normalised root paths: the workspace folders' paths, then the configured roots.
pub fn workspace_roots(folders: &[String], config: &LumalsConfig) -> (r: Vec<String>)
    ensures
        roots_view(r@) == effective_roots(strings_view(folders@), *config),
{
    let mut out: Vec<String> = Vec::new();
    let mut k: usize = 0;
    while k < folders.len()
        invariant
            k <= folders@.len(),
            roots_view(out@) == folder_roots(strings_view(folders@).take(k as int)),
        decreases folders@.len() - k,
    {
        let ghost before = roots_view(out@);
        let ghost f = strings_view(folders@).take(k + 1);
        assert(f.drop_last() =~= strings_view(folders@).take(k as int));
        assert(f.last() == folders@[k as int]@);
        match url_path_normalized_exec(folders[k].as_str()) {
            Some(p) => {
                out.push(p);
                assert(roots_view(out@) =~= before + seq![utf8(p@)]);
            },
            None => {
                assert(roots_view(out@) =~= before + Seq::<Seq<u8>>::empty());
            },
        }
        k = k + 1;
    }
    assert(strings_view(folders@).take(folders@.len() as int) =~= strings_view(folders@));
    let ghost first = roots_view(out@);
    let mut j: usize = 0;
    while j < config.allowed_roots.len()
        invariant
            j <= config.allowed_roots@.len(),
            first == folder_roots(strings_view(folders@)),
            roots_view(out@) == first + configured_roots(strings_view(config.allowed_roots@).take(j as int)),
        decreases config.allowed_roots@.len() - j,
    {
        let ghost before = roots_view(out@);
        let ghost f = strings_view(config.allowed_roots@).take(j + 1);
        assert(f.drop_last() =~= strings_view(config.allowed_roots@).take(j as int));
        assert(f.last() == config.allowed_roots@[j as int]@);
        let root = configured_root_exec(config.allowed_roots[j].as_str());
        out.push(root);
        assert(roots_view(out@) =~= before.push(utf8(root@)));
        assert(roots_view(out@) =~= first + configured_roots(f));
        j = j + 1;
    }
    assert(strings_view(config.allowed_roots@).take(config.allowed_roots@.len() as int) =~= strings_view(
        config.allowed_roots@,
    ));
    out
}

fn within_roots_exec(path: &str, url: String, roots: &Vec<String>) -> (r: Result<String, ImportPolicyError>)
    ensures
        match within_roots(utf8(path@), url@, roots_view(roots@)) {
            Ok(u) => r matches Ok(v) && v@ == u,
            Err(e) => r matches Err(x) && x@ == e,
        },
{
    let ghost rv = roots_view(roots@);
    if roots.len() == 0 {
        return Ok(url);
    }
    let mut k: usize = 0;
    while k < roots.len()
        invariant
            k <= roots@.len(),
            rv == roots_view(roots@),
            rv.len() == roots@.len(),
            forall|j: int| 0 <= j < k ==> !starts_with_path(utf8(path@), #[trigger] rv[j]),
        decreases roots@.len() - k,
    {
        if path_starts_with(path, roots[k].as_str()) {
            assert(starts_with_path(utf8(path@), rv[k as int]));
            return Ok(url);
        }
        k = k + 1;
    }
    Err(ImportPolicyError::OutsideAllowedRoots)
}

fn from_path_exec(path: &str, roots: &Vec<String>) -> (r: Result<String, ImportPolicyError>)
    ensures
        match from_path(utf8(path@), roots_view(roots@)) {
            Ok(u) => r matches Ok(v) && v@ == u,
            Err(e) => r matches Err(x) && x@ == e,
        },
{
    proof {
        lemma_decode(path@);
    }
    match file_path_to_url(path) {
        None => Err(ImportPolicyError::InvalidTarget),
        Some(u) => within_roots_exec(path, u, roots),
    }
}

/// The parent directory's text of a path.
pub(crate) fn parent_dir_exec(base: &str) -> (r: Option<String>)
    ensures
        match parent_text(utf8(base@)) {
            None => r is None,
            Some(dir) => r matches Some(s) && utf8(s@) == dir,
        },
{
    let b = base.as_bytes();
    proof {
        lemma_str_valid(base@);
    }
    let mut comps = components_exec(b);
    if comps.len() == 0 {
        return None;
    }
    let ghost all = view_pairs(comps@);
    comps.pop();
    proof {
        assert(view_pairs(comps@) =~= all.drop_last());
        assert forall|k: int| 0 <= k < all.drop_last().len() implies crate::paths::seg_ok(
            b@,
            #[trigger] all.drop_last()[k].0,
            all.drop_last()[k].1,
        ) by {
            assert(all.drop_last()[k] == all[k]);
        }
    }
    let absolute = b.len() > 0 && b[0] == 0x2f;
    let out = render(b, absolute, &comps);
    Some(bytes_to_string(out))
}

fn parent_join(base: &str, t: &[u8]) -> (r: Option<String>)
    requires
        valid_utf8(t@),
    ensures
        match parent_text(utf8(base@)) {
            None => r is None,
            Some(dir) => r matches Some(s) && utf8(s@) == normalized(joined(dir, t@)),
        },
{
    let b = base.as_bytes();
    proof {
        lemma_str_valid(base@);
    }
    let mut comps = components_exec(b);
    if comps.len() == 0 {
        return None;
    }
    let ghost all = view_pairs(comps@);
    comps.pop();
    proof {
        assert(view_pairs(comps@) =~= all.drop_last());
        assert forall|k: int| 0 <= k < all.drop_last().len() implies crate::paths::seg_ok(
            b@,
            #[trigger] all.drop_last()[k].0,
            all.drop_last()[k].1,
        ) by {
            assert(all.drop_last()[k] == all[k]);
        }
    }
    let absolute = b.len() > 0 && b[0] == 0x2f;
    let mut out = render(b, absolute, &comps);
    let ghost dir = out@;
    assert(parent_text(b@) == Some(dir));
    if out.len() > 0 {
        push_ascii(&mut out, 0x2f);
    }
    push_piece(&mut out, t, 0, t.len());
    proof {
        assert(t@.subrange(0, t@.len() as int) =~= t@);
        assert(out@ =~= joined(dir, t@));
    }
    let s = bytes_to_string(out);
    Some(normalize_path(s.as_str()))
}

/// Where an import or include target leads from the document `base_uri`, or why it is refused.
/// `folder_uris` are the workspace folders' URIs.
pub fn resolve_guarded_import(base_uri: &str, target: &str, folder_uris: &[String], config: &LumalsConfig) -> (r:
    Result<String, ImportPolicyError>)
    ensures
        match guarded_import_spec(base_uri@, target@, strings_view(folder_uris@), *config) {
            Ok(u) => r matches Ok(v) && v@ == u,
            Err(e) => r matches Err(x) && x@ == e,
        },
{
    let s = unquote(target);
    let t = s.as_str().as_bytes();
    proof {
        lemma_decode(s@);
        lemma_str_valid(s@);
    }
    if parent_traversal(t) {
        return Err(ImportPolicyError::ParentTraversal);
    }
    let roots = workspace_roots(folder_uris, config);
    match parse_url_parts(s.as_str()) {
        Some((url, scheme, _)) => {
            if !scheme_allowed(config, scheme.as_str()) {
                return Err(ImportPolicyError::DisallowedScheme(scheme));
            }
            if !str_eq(scheme.as_str(), "file") {
                return Ok(url);
            }
            match url_path_normalized_exec(s.as_str()) {
                None => Err(ImportPolicyError::InvalidTarget),
                Some(p) => within_roots_exec(p.as_str(), url, &roots),
            }
        },
        None => {
            if t.len() > 0 && t[0] == 0x2f {
                if !config.allow_absolute_file_uris {
                    return Err(ImportPolicyError::AbsolutePathNotAllowed);
                }
                let n = normalize_path(s.as_str());
                from_path_exec(n.as_str(), &roots)
            } else {
                match url_path_normalized_exec(base_uri) {
                    None => Err(ImportPolicyError::NonFileBaseUri),
                    Some(bp) => match parent_join(bp.as_str(), t) {
                        None => Err(ImportPolicyError::NonFileBaseUri),
                        Some(n) => from_path_exec(n.as_str(), &roots),
                    },
                }
            }
        },
    }
}

} // verus!
