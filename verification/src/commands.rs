//! Workspace commands that the server registers, their arguments, and the
//! explanations of the diagnostic codes.
use vstd::prelude::*;


use crate::text::{
    concat2, lemma_skip_ws_back_boundary, lemma_skip_ws_boundary, lemma_str_valid, skip_ws,
    skip_ws_back, str_eq, substring, trim_end_at, trim_start_at, utf8,
};
use crate::uri::{parse_url_parts, parsed_url};

verus! {

pub const RESTART_INDEX: &'static str = "lumals.restartIndex";

pub const SHOW_SYNTAX_TREE: &'static str = "lumals.showSyntaxTree";

pub const SHOW_CONFIG: &'static str = "lumals.showConfig";

pub const FORMAT_WORKSPACE_FILE: &'static str = "lumals.formatWorkspaceFile";

pub const EXPLAIN_DIAGNOSTIC: &'static str = "lumals.explainDiagnostic";

#[derive(Debug, Clone, Copy, PartialEq, Eq, Structural)]
pub enum Command {
    RestartIndex,
    ShowSyntaxTree,
    ShowConfig,
    FormatWorkspaceFile,
    ExplainDiagnostic,
}

/// The registered name of a command.
pub open spec fn command_name(command: Command) -> Seq<char> {
    match command {
        Command::RestartIndex => RESTART_INDEX@,
        Command::ShowSyntaxTree => SHOW_SYNTAX_TREE@,
        Command::ShowConfig => SHOW_CONFIG@,
        Command::FormatWorkspaceFile => FORMAT_WORKSPACE_FILE@,
        Command::ExplainDiagnostic => EXPLAIN_DIAGNOSTIC@,
    }
}

/// The command registered under `name`, if any.
pub open spec fn command_named(name: Seq<char>) -> Option<Command> {
    if name == RESTART_INDEX@ {
        Some(Command::RestartIndex)
    } else if name == SHOW_SYNTAX_TREE@ {
        Some(Command::ShowSyntaxTree)
    } else if name == SHOW_CONFIG@ {
        Some(Command::ShowConfig)
    } else if name == FORMAT_WORKSPACE_FILE@ {
        Some(Command::FormatWorkspaceFile)
    } else if name == EXPLAIN_DIAGNOSTIC@ {
        Some(Command::ExplainDiagnostic)
    } else {
        None
    }
}

/// Every registered command name, in registration order.
pub open spec fn all_command_names() -> Seq<Seq<char>> {
    seq![
        RESTART_INDEX@,
        SHOW_SYNTAX_TREE@,
        SHOW_CONFIG@,
        FORMAT_WORKSPACE_FILE@,
        EXPLAIN_DIAGNOSTIC@,
    ]
}

impl Command {
    pub fn parse(name: &str) -> (command: Option<Self>)
        ensures
            command == command_named(name@),
    {
        if str_eq(name, RESTART_INDEX) {
            Some(Command::RestartIndex)
        } else if str_eq(name, SHOW_SYNTAX_TREE) {
            Some(Command::ShowSyntaxTree)
        } else if str_eq(name, SHOW_CONFIG) {
            Some(Command::ShowConfig)
        } else if str_eq(name, FORMAT_WORKSPACE_FILE) {
            Some(Command::FormatWorkspaceFile)
        } else if str_eq(name, EXPLAIN_DIAGNOSTIC) {
            Some(Command::ExplainDiagnostic)
        } else {
            None
        }
    }

    /// The names to register with the client.
    pub fn registration() -> (names: Vec<String>)
        ensures
            names@.len() == all_command_names().len(),
            forall|i: int| 0 <= i < names@.len() ==> #[trigger] names@[i]@ == all_command_names()[i],
    {
        let mut names: Vec<String> = Vec::new();
        names.push(RESTART_INDEX.to_owned());
        names.push(SHOW_SYNTAX_TREE.to_owned());
        names.push(SHOW_CONFIG.to_owned());
        names.push(FORMAT_WORKSPACE_FILE.to_owned());
        names.push(EXPLAIN_DIAGNOSTIC.to_owned());
        names
    }

    pub fn name(self) -> (name: &'static str)
        ensures
            name@ == command_name(self),
    {
        match self {
            Command::RestartIndex => RESTART_INDEX,
            Command::ShowSyntaxTree => SHOW_SYNTAX_TREE,
            Command::ShowConfig => SHOW_CONFIG,
            Command::FormatWorkspaceFile => FORMAT_WORKSPACE_FILE,
            Command::ExplainDiagnostic => EXPLAIN_DIAGNOSTIC,
        }
    }
}

/// Parsing the name of a command gives the command back, and the registered names are
/// exactly the names of the commands.
pub proof fn lemma_command_name_roundtrip(command: Command)
    ensures
        command_named(command_name(command)) == Some(command),
        all_command_names().contains(command_name(command)),
{
    reveal_strlit("lumals.restartIndex");
    reveal_strlit("lumals.showSyntaxTree");
    reveal_strlit("lumals.showConfig");
    reveal_strlit("lumals.formatWorkspaceFile");
    reveal_strlit("lumals.explainDiagnostic");
    let names = all_command_names();
    match command {
        Command::RestartIndex => assert(names[0] == command_name(command)),
        Command::ShowSyntaxTree => {
            assert(RESTART_INDEX@[7] != SHOW_SYNTAX_TREE@[7]);
            assert(names[1] == command_name(command));
        },
        Command::ShowConfig => {
            assert(RESTART_INDEX@[7] != SHOW_CONFIG@[7]);
            assert(SHOW_SYNTAX_TREE@.len() != SHOW_CONFIG@.len());
            assert(names[2] == command_name(command));
        },
        Command::FormatWorkspaceFile => {
            assert(RESTART_INDEX@[7] != FORMAT_WORKSPACE_FILE@[7]);
            assert(SHOW_SYNTAX_TREE@[7] != FORMAT_WORKSPACE_FILE@[7]);
            assert(SHOW_CONFIG@[7] != FORMAT_WORKSPACE_FILE@[7]);
            assert(names[3] == command_name(command));
        },
        Command::ExplainDiagnostic => {
            assert(RESTART_INDEX@[7] != EXPLAIN_DIAGNOSTIC@[7]);
            assert(SHOW_SYNTAX_TREE@[7] != EXPLAIN_DIAGNOSTIC@[7]);
            assert(SHOW_CONFIG@[7] != EXPLAIN_DIAGNOSTIC@[7]);
            assert(FORMAT_WORKSPACE_FILE@[7] != EXPLAIN_DIAGNOSTIC@[7]);
            assert(names[4] == command_name(command));
        },
    }
}

/// Title and advice for a diagnostic code of the validator, if it is one.
pub open spec fn explanation_of(code: Seq<char>) -> Option<(Seq<char>, Seq<char>)> {
    if code == "L001"@ {
        Some(("NUL byte"@, "Remove embedded NUL bytes from the source file."@))
    } else if code == "L002"@ {
        Some(("Duplicate mapping key"@, "Rename or remove the later key so each mapping key is unique."@))
    } else if code == "L003"@ {
        Some(("Tab indentation"@, "Replace indentation tabs with spaces; lumals expects multiples of two spaces."@))
    } else if code == "L004"@ {
        Some(("Odd indentation width"@, "Use indentation levels in multiples of two spaces."@))
    } else if code == "L005"@ {
        Some(("Invalid indentation increase"@, "Only indent one level deeper when the previous line starts a child block."@))
    } else if code == "L006"@ {
        Some(("Unmatched indentation"@, "Dedent to a previously established indentation level."@))
    } else if code == "L007"@ {
        Some(("Malformed directive"@, "Use @name with an ASCII alphanumeric directive name."@))
    } else if code == "L008"@ {
        Some(("Missing import target"@, "Provide a relative path or file: URI after the directive."@))
    } else if code == "L009"@ {
        Some(("Unknown directive"@, "Use a supported directive such as @luma, @schema, @import, or @include."@))
    } else if code == "L010"@ {
        Some(("Disallowed import scheme"@, "Use a relative path or an allowed file: URI only."@))
    } else if code == "L011"@ {
        Some(("Parent traversal in file URI"@, "Remove .. segments so the resolved file stays within allowed roots."@))
    } else if code == "L012"@ {
        Some(("Absolute path blocked"@, "Use a workspace-relative import path unless absolute file URIs are enabled."@))
    } else if code == "L013"@ {
        Some(("Relative path escapes root"@, "Keep relative import paths inside the configured workspace roots."@))
    } else if code == "L014"@ {
        Some(("let alias blocked"@, "Parse-only mode does not support let aliases; rewrite without 'as'."@))
    } else if code == "L015"@ {
        Some(("Unterminated string"@, "Close the quoted string before the end of the line."@))
    } else if code == "L016"@ {
        Some(("Unterminated lua block"@, "Close lua{ ... } blocks on the same logical block."@))
    } else if code == "L017"@ {
        Some(("Unterminated fenced lua block"@, "Add a closing ``` fence for the lua block."@))
    } else {
        None
    }
}

/// The codes `L001` to `L017` that the validator reports.
pub open spec fn is_validation_code(code: Seq<char>) -> bool {
    &&& code.len() == 4
    &&& code[0] == 'L'
    &&& code[1] == '0'
    &&& ((code[2] == '0' && '1' <= code[3] <= '9') || (code[2] == '1' && '0' <= code[3] <= '7'))
}

/// Title and advice for a diagnostic code.
pub fn diagnostic_explanation(code: &str) -> (r: Option<(&'static str, &'static str)>)
    ensures
        match explanation_of(code@) {
            None => r is None,
            Some((title, advice)) => r matches Some((t, a)) && t@ == title && a@ == advice,
        },
{
    if str_eq(code, "L001") {
        Some(("NUL byte", "Remove embedded NUL bytes from the source file."))
    } else if str_eq(code, "L002") {
        Some(("Duplicate mapping key", "Rename or remove the later key so each mapping key is unique."))
    } else if str_eq(code, "L003") {
        Some(("Tab indentation", "Replace indentation tabs with spaces; lumals expects multiples of two spaces."))
    } else if str_eq(code, "L004") {
        Some(("Odd indentation width", "Use indentation levels in multiples of two spaces."))
    } else if str_eq(code, "L005") {
        Some(("Invalid indentation increase", "Only indent one level deeper when the previous line starts a child block."))
    } else if str_eq(code, "L006") {
        Some(("Unmatched indentation", "Dedent to a previously established indentation level."))
    } else if str_eq(code, "L007") {
        Some(("Malformed directive", "Use @name with an ASCII alphanumeric directive name."))
    } else if str_eq(code, "L008") {
        Some(("Missing import target", "Provide a relative path or file: URI after the directive."))
    } else if str_eq(code, "L009") {
        Some(("Unknown directive", "Use a supported directive such as @luma, @schema, @import, or @include."))
    } else if str_eq(code, "L010") {
        Some(("Disallowed import scheme", "Use a relative path or an allowed file: URI only."))
    } else if str_eq(code, "L011") {
        Some(("Parent traversal in file URI", "Remove .. segments so the resolved file stays within allowed roots."))
    } else if str_eq(code, "L012") {
        Some(("Absolute path blocked", "Use a workspace-relative import path unless absolute file URIs are enabled."))
    } else if str_eq(code, "L013") {
        Some(("Relative path escapes root", "Keep relative import paths inside the configured workspace roots."))
    } else if str_eq(code, "L014") {
        Some(("let alias blocked", "Parse-only mode does not support let aliases; rewrite without 'as'."))
    } else if str_eq(code, "L015") {
        Some(("Unterminated string", "Close the quoted string before the end of the line."))
    } else if str_eq(code, "L016") {
        Some(("Unterminated lua block", "Close lua{ ... } blocks on the same logical block."))
    } else if str_eq(code, "L017") {
        Some(("Unterminated fenced lua block", "Add a closing ``` fence for the lua block."))
    } else {
        None
    }
}

/// A code has an explanation exactly when it is one of the validator's codes.
pub proof fn lemma_explanation_known(code: Seq<char>)
    ensures
        explanation_of(code) is Some <==> is_validation_code(code),
{
    reveal_strlit("L001");
    reveal_strlit("L002");
    reveal_strlit("L003");
    reveal_strlit("L004");
    reveal_strlit("L005");
    reveal_strlit("L006");
    reveal_strlit("L007");
    reveal_strlit("L008");
    reveal_strlit("L009");
    reveal_strlit("L010");
    reveal_strlit("L011");
    reveal_strlit("L012");
    reveal_strlit("L013");
    reveal_strlit("L014");
    reveal_strlit("L015");
    reveal_strlit("L016");
    reveal_strlit("L017");
    if is_validation_code(code) {
        if code[2] == '0' && code[3] == '1' {
            assert(code =~= "L001"@);
        } else if code[2] == '0' && code[3] == '2' {
            assert(code =~= "L002"@);
        } else if code[2] == '0' && code[3] == '3' {
            assert(code =~= "L003"@);
        } else if code[2] == '0' && code[3] == '4' {
            assert(code =~= "L004"@);
        } else if code[2] == '0' && code[3] == '5' {
            assert(code =~= "L005"@);
        } else if code[2] == '0' && code[3] == '6' {
            assert(code =~= "L006"@);
        } else if code[2] == '0' && code[3] == '7' {
            assert(code =~= "L007"@);
        } else if code[2] == '0' && code[3] == '8' {
            assert(code =~= "L008"@);
        } else if code[2] == '0' && code[3] == '9' {
            assert(code =~= "L009"@);
        } else if code[2] == '1' && code[3] == '0' {
            assert(code =~= "L010"@);
        } else if code[2] == '1' && code[3] == '1' {
            assert(code =~= "L011"@);
        } else if code[2] == '1' && code[3] == '2' {
            assert(code =~= "L012"@);
        } else if code[2] == '1' && code[3] == '3' {
            assert(code =~= "L013"@);
        } else if code[2] == '1' && code[3] == '4' {
            assert(code =~= "L014"@);
        } else if code[2] == '1' && code[3] == '5' {
            assert(code =~= "L015"@);
        } else if code[2] == '1' && code[3] == '6' {
            assert(code =~= "L016"@);
        } else if code[2] == '1' && code[3] == '7' {
            assert(code =~= "L017"@);
        }
    }
}

/// A JSON argument of a command, as far as argument checking reads it.
pub enum CommandArgument {
    String(String),
    /// An object: each key with its value's text where that value is a JSON string.
    Object(Vec<(String, Option<String>)>),
    Other,
}

/// The text under `key` in the fields from index `k` on, `None` when absent or not a string.
pub open spec fn field_text(fields: Seq<(String, Option<String>)>, key: Seq<char>, k: int) -> Option<
    Seq<char>,
>
    decreases fields.len() - k,
{
    if k < 0 || k >= fields.len() {
        None
    } else if fields[k].0@ == key {
        match fields[k].1 {
            Some(text) => Some(text@),
            None => None,
        }
    } else {
        field_text(fields, key, k + 1)
    }
}

/// The text an argument gives: a string itself, or the string under `key` of an object.
pub open spec fn argument_text(argument: CommandArgument, key: Seq<char>) -> Option<Seq<char>> {
    match argument {
        CommandArgument::String(text) => Some(text@),
        CommandArgument::Object(fields) => field_text(fields@, key, 0),
        CommandArgument::Other => None,
    }
}

/// The text of the only argument, read under `key`.
pub open spec fn single_argument_text(arguments: Seq<CommandArgument>, key: Seq<char>) -> Option<
    Seq<char>,
> {
    if arguments.len() != 1 {
        None
    } else {
        argument_text(arguments[0], key)
    }
}

fn lookup_field<'a>(fields: &'a Vec<(String, Option<String>)>, key: &str) -> (r: Option<&'a str>)
    ensures
        match field_text(fields@, key@, 0) {
            None => r is None,
            Some(text) => r matches Some(t) && t@ == text,
        },
{
    let mut k: usize = 0;
    while k < fields.len()
        invariant
            k <= fields@.len(),
            field_text(fields@, key@, k as int) == field_text(fields@, key@, 0),
        decreases fields@.len() - k,
    {
        if str_eq(fields[k].0.as_str(), key) {
            return match &fields[k].1 {
                Some(text) => Some(text.as_str()),
                None => None,
            };
        }
        k = k + 1;
    }
    None
}

fn single_text<'a>(arguments: &'a [CommandArgument], key: &str) -> (r: Option<&'a str>)
    ensures
        match single_argument_text(arguments@, key@) {
            None => r is None,
            Some(text) => r matches Some(t) && t@ == text,
        },
{
    if arguments.len() != 1 {
        return None;
    }
    match &arguments[0] {
        CommandArgument::String(text) => Some(text.as_str()),
        CommandArgument::Object(fields) => lookup_field(fields, key),
        CommandArgument::Other => None,
    }
}

/// Fails with an invalid-params message when a command that takes no arguments gets some.
pub fn expect_no_arguments(command: Command, arguments: &[CommandArgument]) -> (r: Result<(), String>)
    ensures
        arguments@.len() == 0 ==> r is Ok,
        arguments@.len() != 0 ==> (r matches Err(m) && m@ == command_name(command)
            + " does not accept arguments"@),
{
    if arguments.len() == 0 {
        Ok(())
    } else {
        Err(concat2(command.name(), " does not accept arguments"))
    }
}

/// A URI that a client sent, as it was sent, with the scheme and the path that parsing it gives.
#[derive(Debug, Clone, PartialEq, Eq)]
pub struct ParsedUri {
    pub text: String,
    pub scheme: String,
    pub path: String,
}

/// The URI that a command's single argument gives, as a string or as an object's `uri`.
pub fn parse_uri_argument(command: Command, arguments: &[CommandArgument]) -> (r: Result<ParsedUri, String>)
    ensures
        match single_argument_text(arguments@, "uri"@) {
            None => r matches Err(m) && m@ == command_name(command)
                + " expects a single uri argument"@,
            Some(text) => match parsed_url(text) {
                None => r matches Err(m) && m@ == "uri must be a valid absolute URI"@,
                Some((_, scheme, path)) => r matches Ok(u) && u.text@ == text && u.scheme@ == scheme
                    && u.path@ == path,
            },
        },
{
    match single_text(arguments, "uri") {
        None => Err(concat2(command.name(), " expects a single uri argument")),
        Some(text) => match parse_url_parts(text) {
            Some((_, scheme, path)) => Ok(ParsedUri { text: text.to_owned(), scheme, path }),
            None => Err("uri must be a valid absolute URI".to_owned()),
        },
    }
}

/// The byte bounds of a string with white space trimmed on both sides.
pub open spec fn trimmed_bounds(b: Seq<u8>) -> (int, int) {
    let s = skip_ws(b, 0, b.len() as int);
    (s, skip_ws_back(b, s, b.len() as int))
}

/// The diagnostic code that the single argument of the explain command gives, trimmed.
pub fn parse_diagnostic_code_argument(arguments: &[CommandArgument]) -> (r: Result<String, String>)
    ensures
        match single_argument_text(arguments@, "code"@) {
            None => r matches Err(m) && m@
                == "lumals.explainDiagnostic expects a single diagnostic code argument"@,
            Some(text) => {
                let (s, e) = trimmed_bounds(utf8(text));
                if s == e {
                    r matches Err(m) && m@ == "diagnostic code must not be empty"@
                } else {
                    r matches Ok(code) && utf8(code@) == utf8(text).subrange(s, e)
                }
            },
        },
{
    let text = match single_text(arguments, "code") {
        None => {
            return Err(
                "lumals.explainDiagnostic expects a single diagnostic code argument".to_owned(),
            );
        },
        Some(text) => text,
    };
    let b = text.as_bytes();
    proof {
        lemma_str_valid(text@);
    }
    let s = trim_start_at(b, 0, b.len());
    let e = trim_end_at(b, s, b.len());
    if s == e {
        return Err("diagnostic code must not be empty".to_owned());
    }
    proof {
        lemma_skip_ws_boundary(b@, 0, b@.len() as int);
        lemma_skip_ws_back_boundary(b@, s as int, b@.len() as int);
    }
    Ok(substring(b, s, e))
}

} // verus!
