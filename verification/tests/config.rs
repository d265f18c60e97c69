use lymals::config::{LogLevel, LumalsConfig, ParserBackend};

#[test]
fn defaults_match_parse_only_policy() {
    let config = LumalsConfig::default();

    assert!(config.diagnostics.enabled);
    assert!(config.formatting.enabled);
    assert!(config.imports.enabled);
    assert!(config.semantic_tokens.enabled);
    assert!(config.completion.enabled);
    assert!(config.inlay_hints.enabled);
    assert!(!config.evaluation.enabled);
    assert!(config.index_workspace);
    assert!(config.follow_imports_in_index);
    assert_eq!(config.allowed_schemes, ["file"]);
    assert_eq!(config.max_resolve_depth, 16);
    assert_eq!(config.max_resolved_edges_per_file, 256);
    assert_eq!(config.max_indexed_files_per_workspace, 10_000);
    assert_eq!(config.max_indexed_file_bytes, 1_048_576);
}

#[test]
fn default_levels_and_backends() {
    let config = LumalsConfig::default();
    assert_eq!(config.log_level, LogLevel::Info);
    assert_eq!(config.parser_backend, ParserBackend::Auto);
    assert!(!config.allow_absolute_file_uris);
    assert!(config.allowed_roots.is_empty());
    assert!(config.exclude_globs.is_empty());
    assert!(!config.inlay_hints.key_paths);
}
