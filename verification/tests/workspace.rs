use lymals::workspace::{glob_matches, matches_any_glob, LUMA_GLOB};

#[test]
fn glob_matching_supports_recursive_patterns() {
    assert!(glob_matches("nested/file.luma", LUMA_GLOB));
    assert!(glob_matches("a/generated/file.luma", "**/generated/**"));
    assert!(!glob_matches("a/source/file.luma", "**/generated/**"));
}

#[test]
fn glob_segments_and_characters() {
    assert!(glob_matches("file.luma", LUMA_GLOB));
    assert!(!glob_matches("file.lua", LUMA_GLOB));
    assert!(glob_matches("a/b/c", "a/?/c"));
    assert!(!glob_matches("a/bb/c", "a/?/c"));
    assert!(glob_matches("a//b/", "a/b"));
    assert!(glob_matches("é/x", "?/x"));
    assert!(glob_matches("", "**"));
    assert!(!glob_matches("a", ""));
    assert!(matches_any_glob("x/generated/y", &vec!["*.md".to_string(), "**/generated/**".to_string()]));
    assert!(!matches_any_glob("x/y", &vec![]));
}

use lymals::config::LumalsConfig;
use lymals::index_plan::{plan_workspace_index, WalkedFile};
use lymals::workspace::{folders_from_initialize_params, is_workspace_luma_uri, WorkspaceFolder, WorkspaceState};

#[test]
fn initializes_workspace_from_root_uri_when_folders_are_missing() {
    let folders = folders_from_initialize_params(None, Some("file:///workspace".to_string()), None);

    assert_eq!(folders.len(), 1);
    assert_eq!(folders[0].name, "workspace");
}

#[test]
fn watched_file_invalidations_are_root_and_glob_bounded() {
    let mut workspace = WorkspaceState::default();
    workspace.set_folders(vec![WorkspaceFolder {
        uri: "file:///tmp/ws/".to_string(),
        name: "workspace".to_string(),
    }]);

    let config = LumalsConfig { exclude_globs: vec!["**/generated/**".to_string()], ..LumalsConfig::default() };

    let invalidated = workspace.note_watched_file_changes(
        &["file:///tmp/ws/source/test.luma".to_string(), "file:///tmp/ws/generated/test.luma".to_string()],
        &config,
    );

    assert_eq!(invalidated.len(), 1);
    assert_eq!(workspace.snapshot().watched_file_invalidations, 1);
}

#[test]
fn invalidations_come_sorted_once_each() {
    let mut workspace = WorkspaceState::new();
    workspace.set_folders(vec![
        WorkspaceFolder { uri: "file:///w".to_string(), name: "w".to_string() },
        WorkspaceFolder { uri: "file:///w".to_string(), name: "again".to_string() },
    ]);
    assert_eq!(workspace.snapshot().folders.len(), 1);
    let config = LumalsConfig::default();
    let r = workspace.note_watched_file_changes(
        &[
            "file:///w/b.luma".to_string(),
            "file:///w/a.luma".to_string(),
            "file:///w/b.luma".to_string(),
            "file:///other/c.luma".to_string(),
            "file:///w/d.txt".to_string(),
        ],
        &config,
    );
    assert_eq!(r, vec!["file:///w/a.luma".to_string(), "file:///w/b.luma".to_string()]);
    assert_eq!(workspace.snapshot().last_invalidated_files, r);
    let none = workspace.note_watched_file_changes(&["file:///other/x.luma".to_string()], &config);
    assert!(none.is_empty());
    assert_eq!(workspace.snapshot().watched_file_invalidations, 1);
    workspace.apply_folder_change(
        vec![WorkspaceFolder { uri: "file:///v".to_string(), name: "v".to_string() }],
        vec![WorkspaceFolder { uri: "file:///w".to_string(), name: "w".to_string() }],
    );
    let folders = workspace.snapshot().folders;
    assert_eq!(folders.len(), 1);
    assert_eq!(folders[0].uri, "file:///v");
}

#[test]
fn workspace_documents_need_a_root_and_the_extension() {
    let folders = vec!["file:///w".to_string()];
    let config = LumalsConfig::default();
    assert!(is_workspace_luma_uri("file:///w/a/b.luma", &folders, &config));
    assert!(!is_workspace_luma_uri("file:///x/b.luma", &folders, &config));
    assert!(!is_workspace_luma_uri("file:///w/b.txt", &folders, &config));
    assert!(!is_workspace_luma_uri("https://w/b.luma", &folders, &config));
    let off = LumalsConfig { index_workspace: false, ..LumalsConfig::default() };
    assert!(!is_workspace_luma_uri("file:///w/a.luma", &folders, &off));
}

fn walked(root: usize, path: &str, size: u64) -> WalkedFile {
    WalkedFile { root, path: path.to_string(), size: Some(size), readable: true }
}

#[test]
fn index_plan_keeps_open_documents_and_caps_the_walk() {
    let folders = vec!["file:///w".to_string()];
    let open = vec![("file:///w/a.luma".to_string(), 3), ("file:///w/a.luma".to_string(), 9)];
    let files = vec![
        walked(0, "/w/a.luma", 10),
        walked(0, "/w/b.luma", 10),
        walked(0, "/w/big.luma", 10_000_000),
        WalkedFile { root: 0, path: "/w/unread.luma".to_string(), size: Some(5), readable: false },
        walked(0, "/w/c.luma", 10),
    ];
    let config = LumalsConfig { max_indexed_file_bytes: 1000, ..LumalsConfig::default() };
    let plan = plan_workspace_index(&open, &files, &folders, &config);
    assert_eq!(
        plan,
        vec![
            ("file:///w/a.luma".to_string(), 3),
            ("file:///w/b.luma".to_string(), 10),
            ("file:///w/c.luma".to_string(), 11),
        ]
    );
    let capped = LumalsConfig { max_indexed_files_per_workspace: 1, ..config.clone() };
    let plan = plan_workspace_index(&open, &files, &folders, &capped);
    assert_eq!(plan.len(), 2);
    let off = LumalsConfig { index_workspace: false, ..config };
    assert_eq!(plan_workspace_index(&open, &files, &folders, &off).len(), 1);
}
