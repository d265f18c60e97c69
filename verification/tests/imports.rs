use lymals::config::LumalsConfig;
use lymals::imports::{resolve_guarded_import, ImportPolicyError};
use lymals::paths::{normalize_path, path_starts_with};

fn folders() -> Vec<String> {
    vec!["file:///workspace".to_string()]
}

#[test]
fn blocks_parent_traversal_in_relative_imports() {
    let err = resolve_guarded_import(
        "file:///workspace/pkg/main.luma",
        "../escape.luma",
        &folders(),
        &LumalsConfig::default(),
    )
    .unwrap_err();

    assert_eq!(err, ImportPolicyError::ParentTraversal);
}

#[test]
fn blocks_non_file_schemes_by_default() {
    let err = resolve_guarded_import(
        "file:///workspace/pkg/main.luma",
        "https://example.com/remote.luma",
        &folders(),
        &LumalsConfig::default(),
    )
    .unwrap_err();

    assert_eq!(err, ImportPolicyError::DisallowedScheme("https".to_string()));
    assert_eq!(err.message(), "import/include scheme 'https' is not allowed");
}

#[test]
fn resolves_relative_targets_beside_the_document() {
    let uri = resolve_guarded_import(
        "file:///workspace/pkg/main.luma",
        "\"./lib/shared.luma\"",
        &folders(),
        &LumalsConfig::default(),
    )
    .unwrap();
    assert_eq!(uri, "file:///workspace/pkg/lib/shared.luma");
}

#[test]
fn keeps_file_targets_inside_the_roots() {
    let inside = resolve_guarded_import(
        "file:///workspace/main.luma",
        "file:///workspace/a/b.luma",
        &folders(),
        &LumalsConfig::default(),
    );
    assert_eq!(inside, Ok("file:///workspace/a/b.luma".to_string()));
    let outside = resolve_guarded_import(
        "file:///workspace/main.luma",
        "file:///elsewhere/b.luma",
        &folders(),
        &LumalsConfig::default(),
    );
    assert_eq!(outside, Err(ImportPolicyError::OutsideAllowedRoots));
}

#[test]
fn absolute_paths_need_permission() {
    let refused = resolve_guarded_import(
        "file:///workspace/main.luma",
        "/workspace/x.luma",
        &folders(),
        &LumalsConfig::default(),
    );
    assert_eq!(refused, Err(ImportPolicyError::AbsolutePathNotAllowed));
    let config = LumalsConfig { allow_absolute_file_uris: true, ..LumalsConfig::default() };
    let allowed = resolve_guarded_import("file:///workspace/main.luma", "/workspace/./x.luma", &folders(), &config);
    assert_eq!(allowed, Ok("file:///workspace/x.luma".to_string()));
}

#[test]
fn relative_targets_need_a_file_base() {
    let err = resolve_guarded_import("untitled:Untitled-1", "x.luma", &folders(), &LumalsConfig::default());
    assert_eq!(err, Err(ImportPolicyError::NonFileBaseUri));
}

#[test]
fn normalizes_paths_lexically() {
    assert_eq!(normalize_path("/a/./b/../c//d/"), "/a/c/d");
    assert_eq!(normalize_path("/../x"), "/x");
    assert_eq!(normalize_path("a/../../b"), "b");
    assert_eq!(normalize_path(""), "");
    assert!(path_starts_with("/workspace/a", "/workspace"));
    assert!(!path_starts_with("/workspaces/a", "/workspace"));
    assert!(!path_starts_with("a/b", "/a"));
    assert!(path_starts_with("/a", ""));
}

#[test]
fn normalizing_twice_changes_nothing() {
    for path in ["/a/./b/../c//d/", "../x", "./a/../..", "/", "a//b/./c/.."] {
        let once = normalize_path(path);
        assert_eq!(normalize_path(&once), once);
        assert!(once.split('/').all(|c| c != "." && c != ".."));
    }
    assert_eq!(normalize_path("../x"), "x");
}
