//! Service kinds that partition the fleet.

use vstd::prelude::*;

verus! {

/// A family of upstream nodes. Each service is watched by its own monitor.
#[derive(Debug, Clone, Copy, PartialEq, Eq, PartialOrd, Ord, Hash, Structural)]
pub enum Service {
    Kaspa,
    Sparkle,
}

impl Service {
    /// The lower-case name of the service as it appears in paths and templates.
    pub open spec fn name(self) -> Seq<char> {
        match self {
            Service::Kaspa => "kaspa"@,
            Service::Sparkle => "sparkle"@,
        }
    }

    /// Returns the service name.
    pub fn as_str(&self) -> (s: &'static str)
        ensures
            s@ == self.name(),
    {
        match self {
            Service::Kaspa => "kaspa",
            Service::Sparkle => "sparkle",
        }
    }
}

} // verus!
