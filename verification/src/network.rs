//! Network identifiers.

use vstd::prelude::*;
use vstd::string::StringExecFns;
use vstd::string::StrSliceExecFns;
use crate::text::decimal;
use crate::text::find_char;
use crate::text::format_decimal;
use crate::text::parse_u64;
use crate::text::parsed_u64;
use crate::text::position_of;
use crate::text::same_text;

verus! {

/// The kind of network a node takes part in.
#[derive(Debug, Clone, Copy, PartialEq, Eq, PartialOrd, Ord, Hash, Structural)]
pub enum NetworkType {
    Mainnet,
    Testnet,
    Devnet,
    Simnet,
}

impl NetworkType {
    /// The lower-case name of the network kind.
    pub open spec fn name(self) -> Seq<char> {
        match self {
            NetworkType::Mainnet => "mainnet"@,
            NetworkType::Testnet => "testnet"@,
            NetworkType::Devnet => "devnet"@,
            NetworkType::Simnet => "simnet"@,
        }
    }

    /// The network kind of a name, if it is one.
    pub open spec fn named(name: Seq<char>) -> Option<NetworkType> {
        if name == "mainnet"@ {
            Some(NetworkType::Mainnet)
        } else if name == "testnet"@ {
            Some(NetworkType::Testnet)
        } else if name == "devnet"@ {
            Some(NetworkType::Devnet)
        } else if name == "simnet"@ {
            Some(NetworkType::Simnet)
        } else {
            None
        }
    }

    /// Reads the name of a network kind.
    pub fn parse(name: &str) -> (kind: Option<NetworkType>)
        ensures
            kind == NetworkType::named(name@),
    {
        if same_text(name, "mainnet") {
            Some(NetworkType::Mainnet)
        } else if same_text(name, "testnet") {
            Some(NetworkType::Testnet)
        } else if same_text(name, "devnet") {
            Some(NetworkType::Devnet)
        } else if same_text(name, "simnet") {
            Some(NetworkType::Simnet)
        } else {
            None
        }
    }

    /// Returns the name of the network kind.
    pub fn as_str(&self) -> (s: &'static str)
        ensures
            s@ == self.name(),
    {
        match self {
            NetworkType::Mainnet => "mainnet",
            NetworkType::Testnet => "testnet",
            NetworkType::Devnet => "devnet",
            NetworkType::Simnet => "simnet",
        }
    }
}

/// A network identifier: a network kind and, for numbered networks, a suffix,
/// such as `mainnet` or `testnet-10`.
#[derive(Debug, Clone, Copy, PartialEq, Eq, PartialOrd, Ord, Hash, Structural)]
pub struct NetworkId {
    pub network_type: NetworkType,
    pub suffix: Option<u32>,
}

impl NetworkId {
    /// The text form of the identifier: the kind's name, followed by a hyphen
    /// and the suffix in decimal where there is one.
    pub open spec fn name(self) -> Seq<char> {
        match self.suffix {
            Some(n) => self.network_type.name() + seq!['-'] + decimal(n as nat),
            None => self.network_type.name(),
        }
    }

    /// An identifier without a suffix.
    pub fn new(network_type: NetworkType) -> (id: NetworkId)
        ensures
            id == (NetworkId { network_type, suffix: None }),
    {
        NetworkId { network_type, suffix: None }
    }

    /// An identifier with a numeric suffix.
    pub fn with_suffix(network_type: NetworkType, suffix: u32) -> (id: NetworkId)
        ensures
            id == (NetworkId { network_type, suffix: Some(suffix) }),
    {
        NetworkId { network_type, suffix: Some(suffix) }
    }

    /// The identifier that a text stands for: the name of a network kind,
    /// alone or followed by a hyphen and a number that fits in 32 bits.
    pub open spec fn named(text: Seq<char>) -> Option<NetworkId> {
        let at = position_of(text, '-', 0);
        match NetworkType::named(text.subrange(0, at)) {
            None => None,
            Some(network_type) => if at >= text.len() {
                Some(NetworkId { network_type, suffix: None })
            } else {
                match parsed_u64(text.subrange(at + 1, text.len() as int)) {
                    Some(n) => if n <= u32::MAX {
                        Some(NetworkId { network_type, suffix: Some(n as u32) })
                    } else {
                        None
                    },
                    None => None,
                }
            },
        }
    }

    /// Reads an identifier from its text form.
    pub fn parse(text: &str) -> (id: Option<NetworkId>)
        ensures
            id == NetworkId::named(text@),
    {
        let n = text.unicode_len();
        let at = find_char(text, '-', 0);
        let network_type = match NetworkType::parse(text.substring_char(0, at)) {
            Some(t) => t,
            None => {
                return None;
            },
        };
        if at >= n {
            return Some(NetworkId { network_type, suffix: None });
        }
        match parse_u64(text.substring_char(at + 1, n)) {
            Some(v) => if v <= 0xffff_ffff {
                Some(NetworkId { network_type, suffix: Some(v as u32) })
            } else {
                None
            },
            None => None,
        }
    }

    /// Renders the identifier as text.
    pub fn to_string(&self) -> (s: String)
        ensures
            s@ == self.name(),
    {
        let mut out = String::from_str(self.network_type.as_str());
        match self.suffix {
            Some(n) => {
                proof {
                    reveal_strlit("-");
                }
                out.append("-");
                let digits = format_decimal(n as u64);
                out.append(digits.as_str());
                assert(out@ =~= self.name());
            },
            None => {},
        }
        out
    }
}

} // verus!
