//! The command surface, as plain data: each subcommand with its
//! options, and the passes it runs over the translation data.  The
//! surrounding binary parses the real command line into these values.

use vstd::prelude::*;

verus! {

/// The parsed command line.
pub struct Cli {
    /// The chosen subcommand.
    pub command: Commands,
}

/// One subcommand with its options.
pub enum Commands {
    /// Scaffold a configuration file, refusing to overwrite unless
    /// forced.
    Init { output: String, force: bool },
    /// Collect keys into the per-language files.
    Collect { config: String, verbose: bool },
    /// Compile the dictionary artifact.
    Generate { config: String, verbose: bool },
    /// Prune unused keys from the per-language files.
    Clean { config: String, verbose: bool },
    /// Collect, then generate.
    Cg { config: String, verbose: bool },
    /// Collect, then generate, then clean.
    Gc { config: String, verbose: bool },
}

/// One pass over the translation data.
#[derive(Clone, Copy, PartialEq, Eq, Structural, Debug)]
pub enum Pass {
    Collect,
    Generate,
    Clean,
}

/// The passes a command runs, in order.
pub open spec fn spec_passes(cmd: Commands) -> Seq<Pass> {
    match cmd {
        Commands::Init { .. } => Seq::empty(),
        Commands::Collect { .. } => seq![Pass::Collect],
        Commands::Generate { .. } => seq![Pass::Generate],
        Commands::Clean { .. } => seq![Pass::Clean],
        Commands::Cg { .. } => seq![Pass::Collect, Pass::Generate],
        Commands::Gc { .. } => seq![Pass::Collect, Pass::Generate, Pass::Clean],
    }
}

/// The passes a command runs, in order: the composite commands expand
/// to collect-then-generate and collect-then-generate-then-clean.
pub fn passes_of(cmd: &Commands) -> (r: Vec<Pass>)
    ensures
        r@ == spec_passes(*cmd),
{
    let mut r: Vec<Pass> = Vec::new();
    match cmd {
        Commands::Init { .. } => {
        },
        Commands::Collect { .. } => {
            r.push(Pass::Collect);
        },
        Commands::Generate { .. } => {
            r.push(Pass::Generate);
        },
        Commands::Clean { .. } => {
            r.push(Pass::Clean);
        },
        Commands::Cg { .. } => {
            r.push(Pass::Collect);
            r.push(Pass::Generate);
        },
        Commands::Gc { .. } => {
            r.push(Pass::Collect);
            r.push(Pass::Generate);
            r.push(Pass::Clean);
        },
    }
    proof {
        assert(r@ =~= spec_passes(*cmd));
    }
    r
}

} // verus!
