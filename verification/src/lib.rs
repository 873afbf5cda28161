//! Declarative layout manager for the Sway window manager: the verified core.
//!
//! A workspace definition is a JSON tree of containers (`splith`, `splitv`,
//! `tabbed`, `stacking`) whose leaves are app commands. The library parses
//! definitions into layout trees, lists the apps to launch, recognises their
//! windows by the spawn wrapper on their process's command line, and computes
//! the Sway commands that arrange the windows into the declared tree.
pub mod text;
pub mod json;
pub mod config;
pub mod ipc;
pub mod proc;
pub mod layout;
pub mod shortcuts;
pub mod spawn;
pub mod cli;
