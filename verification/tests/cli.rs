use lymals::cli::{command_mode, Cli, CommandMode};

fn cli(stdio: bool, version: bool, print_config_schema: bool) -> Cli {
    Cli { stdio, version, print_config_schema, log_file: None }
}

#[test]
fn default_stdio_mode_does_not_write_to_stdout() {
    let cli = cli(false, false, false);
    assert_eq!(command_mode(&cli), CommandMode::Stdio);
}

#[test]
fn explicit_stdio_flag_is_a_quiet_synonym() {
    let cli = cli(true, false, false);
    assert_eq!(command_mode(&cli), CommandMode::Stdio);
}

#[test]
fn version_takes_priority_over_stdio_mode() {
    let cli = cli(true, true, false);
    assert_eq!(command_mode(&cli), CommandMode::Version);
}

#[test]
fn config_schema_takes_priority_over_stdio_mode() {
    let cli = cli(true, false, true);
    assert_eq!(command_mode(&cli), CommandMode::PrintConfigSchema);
}

#[test]
fn version_wins_over_config_schema() {
    assert_eq!(command_mode(&cli(false, true, true)), CommandMode::Version);
    assert_eq!(lymals::version_banner(), "lymals 0.1.0");
}
