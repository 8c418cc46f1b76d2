//! The plugin: the commands that it offers to its host.

use vstd::prelude::*;

verus! {

/// The version of the plugin.
pub const VERSION: &'static str = "0.1.0";

/// A command of the plugin.
#[derive(Debug, Clone, Copy, PartialEq, Eq, Structural)]
pub enum Command {
    /// `from kdl`
    FromKdl,
    /// `query kdl`
    QueryKdl,
}

/// The plugin.
pub struct FromMorePlugin;

impl FromMorePlugin {
    /// The version of the plugin.
    pub fn version(&self) -> (r: String)
        ensures
            r@ == VERSION@,
    {
        VERSION.to_owned()
    }

    /// The commands of the plugin, in the order in which the host lists
    /// them.
    pub fn commands(&self) -> (r: Vec<Command>)
        ensures
            r@ == seq![Command::FromKdl, Command::QueryKdl],
    {
        let mut out: Vec<Command> = Vec::new();
        out.push(Command::FromKdl);
        out.push(Command::QueryKdl);
        assert(out@ =~= seq![Command::FromKdl, Command::QueryKdl]);
        out
    }
}

} // verus!
