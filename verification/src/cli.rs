//! The commands the program understands.
use vstd::prelude::*;

verus! {

/// A parsed command line.
pub struct Cli {
    pub command: Command,
}

/// What to do.
pub enum Command {
    /// Run the startup sequence (reads `startup.json`, assigns workspaces 1,
    /// 2, ...); `force` applies it even where workspaces already have windows.
    Startup { force: bool },
    /// Run the profile `name`: build its workspaces (or, for a single
    /// definition, launch it into the next free workspace number); `force`
    /// applies it even where workspaces already have windows.
    Run { name: String, force: bool },
    /// List the available profiles.
    List,
    /// Write the keybindings of the startup entries and profiles that name a
    /// shortcut, then reload Sway.
    SyncShortcuts,
    /// Keep re-applying the startup workspaces' layouts.
    Daemon,
    /// The spawn wrapper: carries workspace and tree position on its command
    /// line and runs `cmd`.
    Spawn { workspace: String, path: String, cmd: Vec<String> },
}

} // verus!
