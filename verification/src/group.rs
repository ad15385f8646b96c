//! Groups of nodes that share a host name pattern.

use vstd::prelude::*;
use crate::network::NetworkId;
use crate::services::Service;

verus! {

/// A group entry of the configuration: a host name with a wildcard, the
/// transports and services offered under it, and for each network the names
/// that take the place of the wildcard.
#[derive(Debug)]
pub struct Group {
    /// Whether the group is in use; an absent flag means that it is.
    pub enable: Option<bool>,
    /// The host name pattern; `*` stands for the name of a node.
    pub fqdn: String,
    /// The names of the transports of every node of the group.
    pub transports: Vec<String>,
    /// The services of every node of the group.
    pub services: Vec<Service>,
    /// For each network, the names of the nodes on it.
    pub network: Vec<(NetworkId, Vec<String>)>,
}

/// The mathematical value of a [`Group`].
pub struct GroupView {
    pub enable: Option<bool>,
    pub fqdn: Seq<char>,
    pub transports: Seq<Seq<char>>,
    pub services: Seq<Service>,
    pub network: Seq<(NetworkId, Seq<Seq<char>>)>,
}

/// The texts of a list of strings.
pub open spec fn texts(list: Seq<String>) -> Seq<Seq<char>> {
    list.map_values(|s: String| s@)
}

impl View for Group {
    type V = GroupView;

    open spec fn view(&self) -> GroupView {
        GroupView {
            enable: self.enable,
            fqdn: self.fqdn@,
            transports: texts(self.transports@),
            services: self.services@,
            network: self.network@.map_values(|e: (NetworkId, Vec<String>)| (e.0, texts(e.1@))),
        }
    }
}

impl GroupView {
    /// Whether the group is in use.
    pub open spec fn enabled(self) -> bool {
        match self.enable {
            Some(b) => b,
            None => true,
        }
    }

    /// Whether the host name pattern has a wildcard to be replaced.
    pub open spec fn valid(self) -> bool {
        self.fqdn.contains('*')
    }
}

impl Group {
    /// Renders the group as its host name pattern.
    pub fn to_string(&self) -> (s: String)
        ensures
            s@ == self@.fqdn,
    {
        self.fqdn.clone()
    }
}

} // verus!
