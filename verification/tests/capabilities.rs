use lymals::capabilities::{
    negotiate, supports_workspace_configuration, ClientCapabilitiesSummary, PositionEncoding,
};

fn empty() -> ClientCapabilitiesSummary {
    ClientCapabilitiesSummary { position_encodings: None, workspace_folders: None, configuration: None }
}

#[test]
fn prefers_utf8_when_client_supports_it() {
    let capabilities = ClientCapabilitiesSummary {
        position_encodings: Some(vec!["utf-16".to_string(), "utf-8".to_string()]),
        ..empty()
    };

    let negotiated = negotiate(&capabilities);

    assert_eq!(negotiated.position_encoding, PositionEncoding::Utf8);
    assert_eq!(negotiated.position_encoding.as_str(), "utf-8");
}

#[test]
fn advertises_workspace_folders_only_when_client_supports_them() {
    let capabilities = ClientCapabilitiesSummary { workspace_folders: Some(true), ..empty() };

    let negotiated = negotiate(&capabilities);

    assert_eq!(negotiated.workspace_folders, Some(true));
    assert_eq!(negotiate(&empty()).workspace_folders, None);
}

#[test]
fn detects_workspace_configuration_support() {
    let capabilities = ClientCapabilitiesSummary { configuration: Some(true), ..empty() };

    assert!(supports_workspace_configuration(&capabilities));
    assert!(!supports_workspace_configuration(&empty()));
}

#[test]
fn falls_back_to_utf32_then_utf16() {
    let utf32 = ClientCapabilitiesSummary {
        position_encodings: Some(vec!["utf-16".to_string(), "utf-32".to_string()]),
        ..empty()
    };
    assert_eq!(negotiate(&utf32).position_encoding, PositionEncoding::Utf32);
    assert_eq!(negotiate(&empty()).position_encoding, PositionEncoding::Utf16);
    let caps = negotiate(&empty());
    assert_eq!(caps.completion_trigger_characters, vec!["@", "/", "\"", "'", ":", "$"]);
    assert_eq!(caps.commands.len(), 5);
}

#[test]
fn negotiation_carries_the_semantic_token_legend() {
    let caps = lymals::capabilities::negotiate(&lymals::capabilities::ClientCapabilitiesSummary {
        position_encodings: None,
        workspace_folders: None,
        configuration: None,
    });
    assert_eq!(caps.semantic_tokens_legend, lymals::semantic_tokens::legend());
}
