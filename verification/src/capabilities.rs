//! What the server offers a client, given what the client says it supports.
use vstd::prelude::*;

use crate::commands::{all_command_names, Command};
use crate::semantic_tokens::{legend, names_view, token_modifier_names, token_type_names, SemanticTokensLegend};
use crate::text::str_eq;

verus! {

/// What the negotiation reads of a client's capabilities.
#[derive(Debug, Clone, PartialEq, Eq)]
pub struct ClientCapabilitiesSummary {
    /// `general.positionEncodings`, when the client sends it.
    pub position_encodings: Option<Vec<String>>,
    /// `workspace.workspaceFolders`, when the client sends it.
    pub workspace_folders: Option<bool>,
    /// `workspace.configuration`, when the client sends it.
    pub configuration: Option<bool>,
}

/// A position encoding of the protocol.
#[derive(Debug, Clone, Copy, PartialEq, Eq, Structural)]
pub enum PositionEncoding {
    Utf8,
    Utf16,
    Utf32,
}

impl PositionEncoding {
    /// The encoding's name in the protocol.
    pub fn as_str(self) -> (s: &'static str)
        ensures
            s@ == encoding_name(self),
    {
        match self {
            PositionEncoding::Utf8 => "utf-8",
            PositionEncoding::Utf16 => "utf-16",
            PositionEncoding::Utf32 => "utf-32",
        }
    }
}

pub open spec fn encoding_name(e: PositionEncoding) -> Seq<char> {
    match e {
        PositionEncoding::Utf8 => "utf-8"@,
        PositionEncoding::Utf16 => "utf-16"@,
        PositionEncoding::Utf32 => "utf-32"@,
    }
}

/// What the server offers beyond its fixed set of features (full text sync with open, close
/// and save, hover, definitions, references, symbols, formatting, code actions for quick
/// fixes and import organizing, semantic tokens, rename with prepare, inlay hints, folding
/// and selection ranges).
#[derive(Debug, Clone, PartialEq, Eq)]
pub struct NegotiatedCapabilities {
    pub position_encoding: PositionEncoding,
    /// Completion is triggered by these characters.
    pub completion_trigger_characters: Vec<String>,
    /// The commands the server executes.
    pub commands: Vec<String>,
    /// `Some(supported)` when the client says whether it supports workspace folders; the
    /// server then asks for folder change notifications.
    pub workspace_folders: Option<bool>,
    /// The legend of the semantic tokens the server sends.
    pub semantic_tokens_legend: SemanticTokensLegend,
}

/// The encoding the server picks: UTF-8 when offered, else UTF-32 when offered, else UTF-16.
pub open spec fn negotiated_encoding(encodings: Option<Seq<Seq<char>>>) -> PositionEncoding {
    match encodings {
        Some(list) => if list.contains("utf-8"@) {
            PositionEncoding::Utf8
        } else if list.contains("utf-32"@) {
            PositionEncoding::Utf32
        } else {
            PositionEncoding::Utf16
        },
        None => PositionEncoding::Utf16,
    }
}

pub open spec fn strings_view(v: Seq<String>) -> Seq<Seq<char>> {
    v.map_values(|s: String| s@)
}

pub open spec fn opt_strings_view(v: Option<Vec<String>>) -> Option<Seq<Seq<char>>> {
    match v {
        Some(list) => Some(strings_view(list@)),
        None => None,
    }
}

/// The characters that trigger completion.
pub open spec fn trigger_characters() -> Seq<Seq<char>> {
    seq!["@"@, "/"@, "\""@, "'"@, ":"@, "$"@]
}

fn contains_str(list: &Vec<String>, s: &str) -> (r: bool)
    ensures
        r == strings_view(list@).contains(s@),
{
    let mut k: usize = 0;
    while k < list.len()
        invariant
            k <= list@.len(),
            forall|m: int| 0 <= m < k ==> list@[m]@ != s@,
        decreases list@.len() - k,
    {
        if str_eq(list[k].as_str(), s) {
            assert(strings_view(list@)[k as int] == s@);
            return true;
        }
        k = k + 1;
    }
    proof {
        if strings_view(list@).contains(s@) {
            let m = choose|m: int| 0 <= m < strings_view(list@).len() && strings_view(list@)[m] == s@;
            assert(list@[m]@ == s@);
        }
    }
    false
}

fn negotiate_position_encoding(client: &ClientCapabilitiesSummary) -> (e: PositionEncoding)
    ensures
        e == negotiated_encoding(opt_strings_view(client.position_encodings)),
{
    match &client.position_encodings {
        Some(encodings) => {
            if contains_str(encodings, "utf-8") {
                PositionEncoding::Utf8
            } else if contains_str(encodings, "utf-32") {
                PositionEncoding::Utf32
            } else {
                PositionEncoding::Utf16
            }
        },
        None => PositionEncoding::Utf16,
    }
}

/// The capabilities the server announces to a client.
pub fn negotiate(client: &ClientCapabilitiesSummary) -> (caps: NegotiatedCapabilities)
    ensures
        caps.position_encoding == negotiated_encoding(opt_strings_view(client.position_encodings)),
        strings_view(caps.completion_trigger_characters@) == trigger_characters(),
        strings_view(caps.commands@) == all_command_names(),
        caps.workspace_folders == client.workspace_folders,
        names_view(caps.semantic_tokens_legend.token_types@) == token_type_names(),
        names_view(caps.semantic_tokens_legend.token_modifiers@) == token_modifier_names(),
{
    let mut triggers: Vec<String> = Vec::new();
    triggers.push("@".to_owned());
    triggers.push("/".to_owned());
    triggers.push("\"".to_owned());
    triggers.push("'".to_owned());
    triggers.push(":".to_owned());
    triggers.push("$".to_owned());
    let commands = Command::registration();
    proof {
        assert(strings_view(triggers@) =~= trigger_characters());
        assert(strings_view(commands@) =~= all_command_names());
    }
    NegotiatedCapabilities {
        position_encoding: negotiate_position_encoding(client),
        completion_trigger_characters: triggers,
        commands,
        workspace_folders: client.workspace_folders,
        semantic_tokens_legend: legend(),
    }
}

/// Whether the client lets the server ask for its configuration.
pub fn supports_workspace_configuration(client: &ClientCapabilitiesSummary) -> (r: bool)
    ensures
        r == (client.configuration == Some(true)),
{
    match client.configuration {
        Some(b) => b,
        None => false,
    }
}

} // verus!
