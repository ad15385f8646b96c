//! The records shown for a connection on the status pages.

use vstd::prelude::*;
use vstd::string::StringExecFns;
use crate::connection::Connection;
use crate::connection::ConnectionView;
use crate::fleet::delegators_of;
use crate::fleet::resolved;
use crate::fleet::Fleet;
use crate::network::NetworkId;
use crate::text::format_hex16;
use crate::text::hex16;
use crate::transport::EncodingKind;
use crate::transport::ProtocolKind;
use crate::transport::TlsKind;

verus! {

/// The full record of a connection, shown to operators.
#[derive(Debug)]
pub struct Status {
    pub version: String,
    pub sid: u64,
    pub uid: u64,
    pub url: String,
    pub fqdn: String,
    pub service: String,
    pub protocol: ProtocolKind,
    pub encoding: EncodingKind,
    pub encryption: TlsKind,
    pub network: NetworkId,
    pub cores: u64,
    pub memory: u64,
    pub status: &'static str,
    pub peers: u64,
    pub clients: u64,
    pub capacity: u64,
    pub delegates: Option<Vec<String>>,
}

/// The mathematical value of a [`Status`].
pub struct StatusView {
    /// The version of the node software; `n/a` while unknown.
    pub version: Seq<char>,
    /// The identifier of the physical host; zero while unknown.
    pub sid: u64,
    /// The identity of the connection.
    pub uid: u64,
    pub url: Seq<char>,
    pub fqdn: Seq<char>,
    pub service: Seq<char>,
    pub protocol: ProtocolKind,
    pub encoding: EncodingKind,
    pub encryption: TlsKind,
    pub network: NetworkId,
    pub cores: u64,
    pub memory: u64,
    pub status: Seq<char>,
    pub peers: u64,
    pub clients: u64,
    /// The client limit of the node; zero while unknown.
    pub capacity: u64,
    /// The connections deferred to, nearest first; absent if there is none.
    pub delegates: Option<Seq<Seq<char>>>,
}

impl View for Status {
    type V = StatusView;

    open spec fn view(&self) -> StatusView {
        StatusView {
            version: self.version@,
            sid: self.sid,
            uid: self.uid,
            url: self.url@,
            fqdn: self.fqdn@,
            service: self.service@,
            protocol: self.protocol,
            encoding: self.encoding,
            encryption: self.encryption,
            network: self.network,
            cores: self.cores,
            memory: self.memory,
            status: self.status@,
            peers: self.peers,
            clients: self.clients,
            capacity: self.capacity,
            delegates: match self.delegates {
                Some(d) => Some(d@.map_values(|s: String| s@)),
                None => None,
            },
        }
    }
}

/// The line that names a connection deferred to: the identifier of its host
/// in brackets and its address.
pub open spec fn delegate_line(c: ConnectionView) -> Seq<char> {
    seq!['['] + hex16(c.system_id()) + seq![']', ' '] + c.node.address
}

/// The version shown for a connection that may or may not know its node.
pub open spec fn shown_version(c: ConnectionView) -> Seq<char> {
    match c.caps {
        Some(caps) => caps.version,
        None => "n/a"@,
    }
}

/// The full record of the connection `c` of a fleet: what identifies it is
/// its own; counts, version and limits are those of the connection it
/// ultimately defers to.
pub open spec fn status_of(conns: Seq<ConnectionView>, c: ConnectionView) -> StatusView {
    let d = resolved(conns, c);
    let chain = delegators_of(conns, c.uid());
    StatusView {
        version: shown_version(d),
        sid: d.system_id(),
        uid: c.uid(),
        url: c.node.address,
        fqdn: c.node.fqdn,
        service: c.node.service.name(),
        protocol: c.node.params.protocol,
        encoding: c.node.params.encoding,
        encryption: c.node.params.tls,
        network: c.node.network,
        cores: match d.caps {
            Some(caps) => caps.cpu_physical_cores,
            None => 0,
        },
        memory: match d.caps {
            Some(caps) => caps.total_memory,
            None => 0,
        },
        status: c.status(),
        peers: d.peers,
        clients: d.clients,
        capacity: match d.caps {
            Some(caps) => caps.clients_limit,
            None => 0,
        },
        delegates: if chain.len() == 0 {
            None
        } else {
            Some(chain.map_values(|x: ConnectionView| delegate_line(x)))
        },
    }
}

/// Renders the line that names a connection deferred to.
pub fn format_delegate(c: &Connection) -> (s: String)
    ensures
        s@ == delegate_line(c@),
{
    proof {
        reveal_strlit("[");
        reveal_strlit("] ");
    }
    let mut out = String::from_str("[");
    let id = format_hex16(c.system_id());
    out.append(id.as_str());
    out.append("] ");
    out.append(c.address());
    assert(out@ =~= delegate_line(c@));
    out
}

impl Status {
    /// Builds the full record of a connection.
    pub fn from_connection(connection: &Connection, fleet: &Fleet) -> (out: Status)
        requires
            fleet.wf(),
        ensures
            out@ == status_of(fleet@, connection@),
    {
        let delegate = connection.delegate(fleet);
        let node = connection.node();
        let (version, sid, capacity, cores, memory) = match delegate.caps() {
            Some(caps) => (
                String::from_str(caps.version()),
                caps.system_id(),
                caps.clients_limit(),
                caps.cpu_physical_cores(),
                caps.total_memory(),
            ),
            None => (String::from_str("n/a"), 0, 0, 0, 0),
        };
        let chain = connection.resolve_delegators(fleet);
        let mut lines: Vec<String> = Vec::new();
        let mut k: usize = 0;
        while k < chain.len()
            invariant
                k <= chain.len(),
                lines@.len() == k,
                forall|x: int| 0 <= x < k ==> (#[trigger] lines@[x])@ == delegate_line(chain@[x]@),
            decreases chain.len() - k,
        {
            lines.push(format_delegate(chain[k]));
            k += 1;
        }
        let ghost expected = delegators_of(fleet@, connection@.uid());
        let delegates = if lines.len() == 0 {
            None
        } else {
            proof {
                assert(lines@.map_values(|s: String| s@) =~= expected.map_values(
                    |x: ConnectionView| delegate_line(x),
                ));
            }
            Some(lines)
        };
        Status {
            sid,
            uid: node.uid(),
            version,
            fqdn: String::from_str(node.fqdn()),
            service: String::from_str(node.service().as_str()),
            url: String::from_str(node.address()),
            protocol: node.params().protocol(),
            encoding: node.params().encoding(),
            encryption: node.params().tls(),
            network: node.network(),
            cores,
            memory,
            status: connection.status(),
            clients: delegate.clients(),
            peers: delegate.peers(),
            capacity,
            delegates,
        }
    }
}

/// The record of a connection shown to the public.
#[derive(Debug)]
pub struct Public {
    pub version: String,
    pub sid: u64,
    pub uid: u64,
    pub service: String,
    pub protocol: ProtocolKind,
    pub encoding: EncodingKind,
    pub encryption: TlsKind,
    pub network: NetworkId,
    pub status: &'static str,
    pub peers: u64,
    pub clients: u64,
    pub capacity: u64,
}

/// The mathematical value of a [`Public`] record.
pub struct PublicView {
    pub version: Seq<char>,
    pub sid: u64,
    pub uid: u64,
    pub service: Seq<char>,
    pub protocol: ProtocolKind,
    pub encoding: EncodingKind,
    pub encryption: TlsKind,
    pub network: NetworkId,
    pub status: Seq<char>,
    pub peers: u64,
    pub clients: u64,
    pub capacity: u64,
}

impl View for Public {
    type V = PublicView;

    open spec fn view(&self) -> PublicView {
        PublicView {
            version: self.version@,
            sid: self.sid,
            uid: self.uid,
            service: self.service@,
            protocol: self.protocol,
            encoding: self.encoding,
            encryption: self.encryption,
            network: self.network,
            status: self.status@,
            peers: self.peers,
            clients: self.clients,
            capacity: self.capacity,
        }
    }
}

/// The public record of the connection `c` of a fleet: the full record
/// without address, host name, host size and the connections deferred to.
pub open spec fn public_of(conns: Seq<ConnectionView>, c: ConnectionView) -> PublicView {
    let s = status_of(conns, c);
    PublicView {
        version: s.version,
        sid: s.sid,
        uid: s.uid,
        service: s.service,
        protocol: s.protocol,
        encoding: s.encoding,
        encryption: s.encryption,
        network: s.network,
        status: s.status,
        peers: s.peers,
        clients: s.clients,
        capacity: s.capacity,
    }
}

impl Public {
    /// Builds the public record of a connection.
    pub fn from_connection(connection: &Connection, fleet: &Fleet) -> (out: Public)
        requires
            fleet.wf(),
        ensures
            out@ == public_of(fleet@, connection@),
    {
        let delegate = connection.delegate(fleet);
        let node = connection.node();
        let (version, sid, capacity) = match delegate.caps() {
            Some(caps) => (String::from_str(caps.version()), caps.system_id(), caps.clients_limit()),
            None => (String::from_str("n/a"), 0, 0),
        };
        Public {
            sid,
            uid: node.uid(),
            version,
            service: String::from_str(node.service().as_str()),
            protocol: node.params().protocol(),
            encoding: node.params().encoding(),
            encryption: node.params().tls(),
            network: node.network(),
            status: connection.status(),
            clients: delegate.clients(),
            peers: delegate.peers(),
            capacity,
        }
    }
}

} // verus!
