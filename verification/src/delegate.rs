//! The key under which connections to one physical node are grouped.

use vstd::prelude::*;
use vstd::string::StringExecFns;
use crate::network::NetworkId;
use crate::text::format_hex16;
use crate::text::hex16;

verus! {

/// Identifies one physical node on one network. Connections that report the
/// same key share a single authoritative health probe.
#[derive(Debug, Clone, Copy, PartialEq, Eq, Hash, Structural)]
pub struct Delegate {
    pub system_id: u64,
    pub network_id: NetworkId,
}

impl Delegate {
    /// The text form of the key: the system identifier as sixteen hexadecimal
    /// digits, a colon, and the network.
    pub open spec fn name(self) -> Seq<char> {
        hex16(self.system_id) + seq![':'] + self.network_id.name()
    }

    /// Builds the key of a system on a network.
    pub fn new(system_id: u64, network_id: NetworkId) -> (key: Delegate)
        ensures
            key == (Delegate { system_id, network_id }),
    {
        Delegate { system_id, network_id }
    }

    /// Renders the key as text.
    pub fn to_string(&self) -> (s: String)
        ensures
            s@ == self.name(),
    {
        proof {
            reveal_strlit(":");
        }
        let mut out = format_hex16(self.system_id);
        out.append(":");
        let network = self.network_id.to_string();
        out.append(network.as_str());
        assert(out@ =~= self.name());
        out
    }
}

} // verus!
