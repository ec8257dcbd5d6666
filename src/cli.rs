//! The command-line options, as plain values.
use vstd::prelude::*;

verus! {

/// The options the proxy is started with.
#[derive(Clone, Debug)]
pub struct CliInputs {
    /// Verbosity level: the number of `-v` flags given.
    pub verbosity_level: usize,
    /// Update frequency, in seconds, of the forwarding configuration.
    pub update_frequency: u64,
}

/// The verbosity level the proxy was started with.
pub fn verbosity_level(args: &CliInputs) -> (r: usize)
    ensures
        r == args.verbosity_level,
{
    args.verbosity_level
}

} // verus!
