//! Command-line flags and the mode they select.
use vstd::prelude::*;

verus! {

/// The flags of the server's command line.
#[derive(Debug, Clone, PartialEq, Eq)]
pub struct Cli {
    /// Explicit stdio transport synonym for editor/client configuration.
    pub stdio: bool,
    /// Print the binary version and exit.
    pub version: bool,
    /// Print the JSON config schema and exit.
    pub print_config_schema: bool,
    /// Write structured logs to a file instead of stderr.
    pub log_file: Option<String>,
}

/// What the binary does for a command line.
#[derive(Debug, Clone, Copy, PartialEq, Eq, Structural)]
pub enum CommandMode {
    Stdio,
    Version,
    PrintConfigSchema,
}

/// `--version` wins over `--print-config-schema`, which wins over serving on stdio.
pub fn command_mode(cli: &Cli) -> (mode: CommandMode)
    ensures
        mode == (if cli.version {
            CommandMode::Version
        } else if cli.print_config_schema {
            CommandMode::PrintConfigSchema
        } else {
            CommandMode::Stdio
        }),
{
    if cli.version {
        CommandMode::Version
    } else if cli.print_config_schema {
        CommandMode::PrintConfigSchema
    } else {
        CommandMode::Stdio
    }
}

} // verus!
