use lymals::commands::{
    diagnostic_explanation, expect_no_arguments, parse_diagnostic_code_argument,
    parse_uri_argument, Command, CommandArgument, EXPLAIN_DIAGNOSTIC, FORMAT_WORKSPACE_FILE,
    RESTART_INDEX, SHOW_CONFIG, SHOW_SYNTAX_TREE,
};

#[test]
fn registers_expected_commands() {
    let commands = Command::registration();

    assert!(commands.contains(&SHOW_SYNTAX_TREE.to_string()));
    assert!(commands.contains(&SHOW_CONFIG.to_string()));
    assert!(commands.contains(&FORMAT_WORKSPACE_FILE.to_string()));
    assert!(commands.contains(&EXPLAIN_DIAGNOSTIC.to_string()));
}

#[test]
fn uri_argument_accepts_string_and_object_forms() {
    let string = parse_uri_argument(
        Command::ShowSyntaxTree,
        &[CommandArgument::String("file:///workspace/test.luma".to_string())],
    )
    .unwrap();
    let object = parse_uri_argument(
        Command::ShowSyntaxTree,
        &[CommandArgument::Object(vec![(
            "uri".to_string(),
            Some("file:///workspace/test.luma".to_string()),
        )])],
    )
    .unwrap();

    assert_eq!(string, object);
}

#[test]
fn uri_argument_rejects_missing_or_invalid_values() {
    assert!(parse_uri_argument(Command::FormatWorkspaceFile, &[]).is_err());
    assert!(parse_uri_argument(Command::FormatWorkspaceFile, &[CommandArgument::Object(vec![])]).is_err());
    assert!(parse_uri_argument(
        Command::FormatWorkspaceFile,
        &[CommandArgument::String("not-a-uri".to_string())]
    )
    .is_err());
}

#[test]
fn diagnostic_code_argument_validates_shape() {
    assert_eq!(
        parse_diagnostic_code_argument(&[CommandArgument::String("L003".to_string())]).unwrap(),
        "L003"
    );
    assert!(parse_diagnostic_code_argument(&[]).is_err());
    assert!(parse_diagnostic_code_argument(&[CommandArgument::Object(vec![])]).is_err());
}

#[test]
fn diagnostic_explanations_are_known_for_validation_codes() {
    assert!(diagnostic_explanation("L003").is_some());
    assert!(diagnostic_explanation("L999").is_none());
}

#[test]
fn no_argument_commands_reject_extra_arguments() {
    assert!(expect_no_arguments(Command::ShowConfig, &[CommandArgument::Other]).is_err());
    assert!(expect_no_arguments(Command::RestartIndex, &[]).is_ok());
    assert_eq!(Command::parse(EXPLAIN_DIAGNOSTIC), Some(Command::ExplainDiagnostic));
}

#[test]
fn every_command_name_parses_back_to_its_command() {
    for command in [
        Command::RestartIndex,
        Command::ShowSyntaxTree,
        Command::ShowConfig,
        Command::FormatWorkspaceFile,
        Command::ExplainDiagnostic,
    ] {
        assert_eq!(Command::parse(command.name()), Some(command));
    }
    assert_eq!(Command::parse("lumals.unknown"), None);
    assert_eq!(Command::registration().len(), 5);
    assert_eq!(Command::registration()[0], RESTART_INDEX);
}

#[test]
fn explanations_cover_exactly_the_validation_codes() {
    for n in 1..=17 {
        let code = format!("L{n:03}");
        assert!(diagnostic_explanation(&code).is_some(), "{code}");
    }
    assert!(diagnostic_explanation("L000").is_none());
    assert!(diagnostic_explanation("L018").is_none());
    assert!(diagnostic_explanation("l003").is_none());
    assert_eq!(
        diagnostic_explanation("L003"),
        Some((
            "Tab indentation",
            "Replace indentation tabs with spaces; lumals expects multiples of two spaces."
        ))
    );
}

#[test]
fn argument_errors_name_the_command() {
    assert_eq!(
        expect_no_arguments(Command::ShowConfig, &[CommandArgument::Other]),
        Err("lumals.showConfig does not accept arguments".to_string())
    );
    assert_eq!(
        parse_uri_argument(Command::ShowSyntaxTree, &[CommandArgument::Other]).unwrap_err(),
        "lumals.showSyntaxTree expects a single uri argument"
    );
    assert_eq!(
        parse_uri_argument(
            Command::ShowSyntaxTree,
            &[CommandArgument::String("not-a-uri".to_string())]
        )
        .unwrap_err(),
        "uri must be a valid absolute URI"
    );
    assert_eq!(
        parse_diagnostic_code_argument(&[CommandArgument::String("   ".to_string())]),
        Err("diagnostic code must not be empty".to_string())
    );
    assert_eq!(
        parse_diagnostic_code_argument(&[CommandArgument::Object(vec![(
            "code".to_string(),
            Some("  L002 ".to_string())
        )])]),
        Ok("L002".to_string())
    );
}

#[test]
fn uri_argument_keeps_the_sent_text_and_its_parts() {
    let uri = parse_uri_argument(
        Command::ShowSyntaxTree,
        &[CommandArgument::String("file:///workspace/a.luma".to_string())],
    )
    .unwrap();
    assert_eq!(uri.text, "file:///workspace/a.luma");
    assert_eq!(uri.scheme, "file");
    assert_eq!(uri.path, "/workspace/a.luma");
}
