use vstd::prelude::*;

verus! {

/// Stable identity of a configured node: its zero-based position in the
/// weight list the balancer was built from.
#[derive(Clone, Copy, Debug, PartialEq, Eq, Hash, Structural)]
pub struct Token(pub u8);

/// Passive health checking: after `max_fails` consecutive reported failures a
/// node is left out of selection for `fail_timeout_secs` seconds.
#[derive(Clone, Copy, Debug, PartialEq, Eq, Hash, Structural)]
pub struct HealthCheckConfig {
    pub max_fails: u32,
    pub fail_timeout_secs: u32,
}

/// Why a balancer could not be built.
#[derive(Clone, Copy, Debug, PartialEq, Eq, Structural)]
pub enum BuildError {
    /// More nodes than tokens can name.
    TooManyNodes,
}

} // verus!
