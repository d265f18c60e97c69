//! Server settings, as the client sends them under the `lumals` section, and
//! their defaults: everything on but evaluation, imports followed within the
//! workspace, and only `file` URIs allowed.
use vstd::prelude::*;

verus! {

pub const CONFIG_SECTION: &'static str = "lumals";

pub const CONFIG_SCHEMA_ID: &'static str = "https://lumals.dev/schemas/lumals.json";

#[derive(Debug, Clone, PartialEq, Eq)]
pub struct DiagnosticsSettings {
    pub enabled: bool,
}

impl Default for DiagnosticsSettings {
    fn default() -> (settings: Self)
        ensures
            settings.enabled,
    {
        DiagnosticsSettings { enabled: default_true() }
    }
}

#[derive(Debug, Clone, PartialEq, Eq)]
pub struct FormattingSettings {
    pub enabled: bool,
}

impl Default for FormattingSettings {
    fn default() -> (settings: Self)
        ensures
            settings.enabled,
    {
        FormattingSettings { enabled: default_true() }
    }
}

#[derive(Debug, Clone, PartialEq, Eq)]
pub struct ImportsSettings {
    pub enabled: bool,
}

impl Default for ImportsSettings {
    fn default() -> (settings: Self)
        ensures
            settings.enabled,
    {
        ImportsSettings { enabled: default_true() }
    }
}

#[derive(Debug, Clone, PartialEq, Eq)]
pub struct SemanticTokensSettings {
    pub enabled: bool,
}

impl Default for SemanticTokensSettings {
    fn default() -> (settings: Self)
        ensures
            settings.enabled,
    {
        SemanticTokensSettings { enabled: default_true() }
    }
}

#[derive(Debug, Clone, PartialEq, Eq)]
pub struct CompletionSettings {
    pub enabled: bool,
}

impl Default for CompletionSettings {
    fn default() -> (settings: Self)
        ensures
            settings.enabled,
    {
        CompletionSettings { enabled: default_true() }
    }
}

#[derive(Debug, Clone, PartialEq, Eq)]
pub struct InlayHintsSettings {
    pub enabled: bool,
    pub inferred_types: bool,
    pub key_paths: bool,
    pub let_bindings: bool,
    pub profile_effects: bool,
    pub import_resolution: bool,
}

impl Default for InlayHintsSettings {
    fn default() -> (settings: Self)
        ensures
            settings.enabled,
            !settings.inferred_types,
            !settings.key_paths,
            !settings.let_bindings,
            !settings.profile_effects,
            !settings.import_resolution,
    {
        InlayHintsSettings {
            enabled: default_true(),
            inferred_types: false,
            key_paths: false,
            let_bindings: false,
            profile_effects: false,
            import_resolution: false,
        }
    }
}

#[derive(Debug, Clone, PartialEq, Eq)]
pub struct EvaluationSettings {
    pub enabled: bool,
}

impl Default for EvaluationSettings {
    fn default() -> (settings: Self)
        ensures
            !settings.enabled,
    {
        EvaluationSettings { enabled: false }
    }
}

#[derive(Debug, Clone, Copy, PartialEq, Eq, Structural)]
pub enum LogLevel {
    Error,
    Warn,
    Info,
    Debug,
    Trace,
}

impl Default for LogLevel {
    fn default() -> (level: Self)
        ensures
            level == LogLevel::Info,
    {
        LogLevel::Info
    }
}

/// Which parser the settings ask for.
#[derive(Debug, Clone, Copy, PartialEq, Eq, Structural)]
pub enum ParserBackend {
    Auto,
    Fallback,
    Upstream,
}

impl Default for ParserBackend {
    fn default() -> (backend: Self)
        ensures
            backend == ParserBackend::Auto,
    {
        ParserBackend::Auto
    }
}

#[derive(Debug, Clone, PartialEq, Eq)]
pub struct LumalsConfig {
    pub diagnostics: DiagnosticsSettings,
    pub formatting: FormattingSettings,
    pub imports: ImportsSettings,
    pub semantic_tokens: SemanticTokensSettings,
    pub completion: CompletionSettings,
    pub inlay_hints: InlayHintsSettings,
    pub evaluation: EvaluationSettings,
    pub log_level: LogLevel,
    pub parser_backend: ParserBackend,
    pub index_workspace: bool,
    pub follow_imports_in_index: bool,
    pub allowed_roots: Vec<String>,
    pub allowed_schemes: Vec<String>,
    pub allow_absolute_file_uris: bool,
    pub exclude_globs: Vec<String>,
    pub max_resolve_depth: u32,
    pub max_resolved_edges_per_file: u32,
    pub max_indexed_files_per_workspace: u32,
    pub max_indexed_file_bytes: u32,
}

impl LumalsConfig {
    /// The settings a client that sends nothing gets.
    pub open spec fn is_default(&self) -> bool {
        &&& self.diagnostics.enabled
        &&& self.formatting.enabled
        &&& self.imports.enabled
        &&& self.semantic_tokens.enabled
        &&& self.completion.enabled
        &&& self.inlay_hints.enabled
        &&& !self.inlay_hints.inferred_types
        &&& !self.inlay_hints.key_paths
        &&& !self.inlay_hints.let_bindings
        &&& !self.inlay_hints.profile_effects
        &&& !self.inlay_hints.import_resolution
        &&& !self.evaluation.enabled
        &&& self.log_level == LogLevel::Info
        &&& self.parser_backend == ParserBackend::Auto
        &&& self.index_workspace
        &&& self.follow_imports_in_index
        &&& self.allowed_roots@.len() == 0
        &&& self.allowed_schemes@.len() == 1
        &&& self.allowed_schemes@[0]@ == "file"@
        &&& !self.allow_absolute_file_uris
        &&& self.exclude_globs@.len() == 0
        &&& self.max_resolve_depth == 16
        &&& self.max_resolved_edges_per_file == 256
        &&& self.max_indexed_files_per_workspace == 10_000
        &&& self.max_indexed_file_bytes == 1_048_576
    }
}

impl Default for LumalsConfig {
    fn default() -> (config: Self)
        ensures
            config.is_default(),
    {
        LumalsConfig {
            diagnostics: DiagnosticsSettings::default(),
            formatting: FormattingSettings::default(),
            imports: ImportsSettings::default(),
            semantic_tokens: SemanticTokensSettings::default(),
            completion: CompletionSettings::default(),
            inlay_hints: InlayHintsSettings::default(),
            evaluation: EvaluationSettings::default(),
            log_level: LogLevel::default(),
            parser_backend: ParserBackend::default(),
            index_workspace: default_true(),
            follow_imports_in_index: default_true(),
            allowed_roots: Vec::new(),
            allowed_schemes: default_allowed_schemes(),
            allow_absolute_file_uris: false,
            exclude_globs: Vec::new(),
            max_resolve_depth: default_max_resolve_depth(),
            max_resolved_edges_per_file: default_max_resolved_edges_per_file(),
            max_indexed_files_per_workspace: default_max_indexed_files_per_workspace(),
            max_indexed_file_bytes: default_max_indexed_file_bytes(),
        }
    }
}

pub fn default_true() -> (b: bool)
    ensures
        b,
{
    true
}

pub fn default_allowed_schemes() -> (schemes: Vec<String>)
    ensures
        schemes@.len() == 1,
        schemes@[0]@ == "file"@,
{
    let mut schemes: Vec<String> = Vec::new();
    schemes.push("file".to_owned());
    schemes
}

pub fn default_max_resolve_depth() -> (n: u32)
    ensures
        n == 16,
{
    16
}

pub fn default_max_resolved_edges_per_file() -> (n: u32)
    ensures
        n == 256,
{
    256
}

pub fn default_max_indexed_files_per_workspace() -> (n: u32)
    ensures
        n == 10_000,
{
    10_000
}

pub fn default_max_indexed_file_bytes() -> (n: u32)
    ensures
        n == 1_048_576,
{
    1_048_576
}

} // verus!
