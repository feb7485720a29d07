//! The data model of the command-line surface: one verb per
//! invocation, each with its options. Parsing the actual arguments
//! into these types is the outer program's business.

use vstd::prelude::*;

verus! {

/// The whole invocation: global flags and at most one verb.
pub struct Opts {
    pub help: bool,
    pub verbose: bool,
    pub command: Option<Command>,
}

/// The verbs of one-shot invocations.
pub enum Command {
    Add(AddOpts),
    Edit(EditOpts),
    List(ListOpts),
    Open(OpenOpts),
    Rm(RmOpts),
    Config(ConfigOpts),
    Update(UpdateOpts),
}

/// `add [name]`: bookmark the current working directory.
pub struct AddOpts {
    pub help: bool,
    pub name: Option<String>,
}

/// `edit`: open the store file in a text editor.
pub struct EditOpts {
    pub help: bool,
}

/// `list`: print all stored bookmarks.
pub struct ListOpts {
    pub help: bool,
}

/// `open`: pick a bookmark and open a terminal there.
pub struct OpenOpts {
    pub help: bool,
    pub show_paths: bool,
    pub cmd: Option<String>,
    pub terminal: Option<String>,
}

/// `rm <name>`: remove the bookmark of that name.
pub struct RmOpts {
    pub help: bool,
    pub name: String,
}

/// `config <subcommand>`: manage the configuration.
pub struct ConfigOpts {
    pub help: bool,
    pub command: Option<ConfigCommand>,
}

/// `update`: regenerate the shell alias file.
pub struct UpdateOpts {
    pub help: bool,
}

/// The subcommands of `config`.
pub enum ConfigCommand {
    Show(ConfigShow),
    Create(ConfigCreate),
    Edit(ConfigEdit),
    SourceCmd(ConfigSourceCmd),
}

/// `config show`: print the current configuration.
pub struct ConfigShow {
    pub help: bool,
}

/// `config create`: write a settings file with the default values.
pub struct ConfigCreate {
    pub help: bool,
}

/// `config edit`: open the settings file in a text editor.
pub struct ConfigEdit {
    pub help: bool,
    pub editor: Option<String>,
}

/// `config source-cmd`: print the command that sources the alias file.
pub struct ConfigSourceCmd {
    pub help: bool,
}

} // verus!
