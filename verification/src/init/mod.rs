//! The `init` command: asking for settings and writing a starter config.

use crate::cli::InitArgs;
use vstd::prelude::*;

pub mod interview;
pub mod template;

verus! {

/// A config that is not overwritten.
#[derive(Debug)]
pub struct ConfigExists {
    pub path: String,
}

impl ConfigExists {
    /// What to tell the user.
    pub fn message(&self) -> (r: String)
        ensures
            r@ == self.path@ + " already exists — re-run with --force to overwrite"@,
    {
        self.path.clone().concat(" already exists — re-run with --force to overwrite")
    }
}

/// Decides whether a config may be written to a path, given whether something is there already: an
/// existing file is only replaced by force.
pub fn write_config(path: &str, present: bool, force: bool) -> (r: Result<(), ConfigExists>)
    ensures
        r is Ok <==> !present || force,
        r matches Err(e) ==> e.path@ == path@,
{
    if present && !force {
        return Err(ConfigExists { path: path.to_string() });
    }
    Ok(())
}

/// What is printed once the config is written.
pub fn written_notice(args: &InitArgs) -> (r: String)
    ensures
        r@ == "wrote "@ + args.output@
            + "\nnext: semanticastindexer --dry-run   # preview what would be indexed\n"@,
{
    "wrote ".to_string().concat(args.output.as_str()).concat(
        "\nnext: semanticastindexer --dry-run   # preview what would be indexed\n",
    )
}

} // verus!
