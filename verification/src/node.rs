//! Node descriptors: the immutable record of one upstream endpoint.

use vstd::prelude::*;
use vstd::std_specs::cmp::PartialEqSpecImpl;
use vstd::string::StringExecFns;
use crate::hash::xxh3_64;
use crate::hash::xxh3_64_of;
use crate::network::NetworkId;
use crate::params::params_of;
use crate::params::PathParams;
use crate::services::Service;
use crate::text::format_hex16;
use crate::text::hex16;
use crate::text::starts_with;
use crate::transport::address_of;
use crate::transport::TlsKind;
use crate::transport::Transport;
use crate::transport::TransportKind;

verus! {

/// One node entry of the configuration, before it is expanded.
#[derive(Debug)]
pub struct NodeConfig {
    /// The service the node belongs to.
    pub service: Service,
    /// The public address of the node; derived from the other fields if absent.
    pub address: Option<String>,
    /// Whether the derived address uses TLS.
    pub tls: bool,
    /// Protocol and encoding of the endpoint.
    pub transport_kind: TransportKind,
    /// The network of the node.
    pub network: NetworkId,
    /// Whether the entry is in use; an absent flag means that it is.
    pub enable: Option<bool>,
    /// The host name of the node.
    pub fqdn: String,
}

/// The mathematical value of a [`NodeConfig`].
pub struct NodeConfigView {
    pub service: Service,
    pub address: Option<Seq<char>>,
    pub tls: bool,
    pub transport_kind: TransportKind,
    pub network: NetworkId,
    pub enable: Option<bool>,
    pub fqdn: Seq<char>,
}

impl View for NodeConfig {
    type V = NodeConfigView;

    open spec fn view(&self) -> NodeConfigView {
        NodeConfigView {
            service: self.service,
            address: match self.address {
                Some(a) => Some(a@),
                None => None,
            },
            tls: self.tls,
            transport_kind: self.transport_kind,
            network: self.network,
            enable: self.enable,
            fqdn: self.fqdn@,
        }
    }
}

impl NodeConfigView {
    /// Whether the entry is in use.
    pub open spec fn enabled(self) -> bool {
        match self.enable {
            Some(b) => b,
            None => true,
        }
    }
}

/// The immutable descriptor of one upstream endpoint.
#[derive(Debug)]
pub struct Node {
    uid: u64,
    uid_string: String,
    network_node_uid: u64,
    params: PathParams,
    service: Service,
    address: String,
    transport_kind: TransportKind,
    network: NetworkId,
    fqdn: String,
}

/// The mathematical value of a [`Node`].
pub struct NodeView {
    /// Hash of the address; the identity of the node.
    pub uid: u64,
    /// The identity as sixteen hexadecimal digits.
    pub uid_string: Seq<char>,
    /// Hash of host name, network and TLS use; equal for nodes that
    /// physically coincide.
    pub network_node_uid: u64,
    /// The bucket the node belongs to.
    pub params: PathParams,
    pub service: Service,
    pub address: Seq<char>,
    pub transport_kind: TransportKind,
    pub network: NetworkId,
    pub fqdn: Seq<char>,
}

/// The values of a list of node descriptors.
pub open spec fn node_views(list: Seq<Node>) -> Seq<NodeView> {
    list.map_values(|n: Node| n@)
}

/// The way a truth value is written inside the text that identifies a
/// physical node.
pub open spec fn bool_text(b: bool) -> Seq<char> {
    if b {
        "true"@
    } else {
        "false"@
    }
}

/// The descriptor of the endpoint with the given properties.
pub open spec fn node_of(
    service: Service,
    network: NetworkId,
    kind: TransportKind,
    tls: bool,
    fqdn: Seq<char>,
    address: Seq<char>,
) -> NodeView {
    NodeView {
        uid: xxh3_64_of(address),
        uid_string: hex16(xxh3_64_of(address)),
        network_node_uid: xxh3_64_of(fqdn + network.name() + bool_text(tls)),
        params: params_of(kind, TlsKind::of(tls), network),
        service,
        address,
        transport_kind: kind,
        network,
        fqdn,
    }
}

/// The template from which the address of a node entry without an address
/// is made.
pub open spec fn default_template(tls: bool) -> Seq<char> {
    (if tls {
        "wss://"@
    } else {
        "ws://"@
    }) + "${fqdn}/${service}/${network}/${protocol}/${encoding}"@
}

/// The address of a node entry: the one it gives, else the one made from the
/// default template.
pub open spec fn config_address(c: NodeConfigView) -> Seq<char> {
    match c.address {
        Some(a) => a,
        None => address_of(default_template(c.tls), c.transport_kind, c.fqdn, c.service, c.network),
    }
}

/// The descriptor of a node entry. Whether it uses TLS is read off its
/// address.
pub open spec fn node_of_config(c: NodeConfigView) -> NodeView {
    node_of(
        c.service,
        c.network,
        c.transport_kind,
        "wss://"@.is_prefix_of(config_address(c)),
        c.fqdn,
        config_address(c),
    )
}

impl NodeView {
    /// The derived fields agree with the fields they are derived from.
    pub open spec fn wf(self) -> bool {
        &&& self.params.tls != TlsKind::Any
        &&& self == node_of(
            self.service,
            self.network,
            self.transport_kind,
            self.params.tls == TlsKind::Tls,
            self.fqdn,
            self.address,
        )
    }
}

impl View for Node {
    type V = NodeView;

    closed spec fn view(&self) -> NodeView {
        NodeView {
            uid: self.uid,
            uid_string: self.uid_string@,
            network_node_uid: self.network_node_uid,
            params: self.params,
            service: self.service,
            address: self.address@,
            transport_kind: self.transport_kind,
            network: self.network,
            fqdn: self.fqdn@,
        }
    }
}

impl Node {
    #[verifier::type_invariant]
    spec fn consistent(&self) -> bool {
        self@.wf()
    }
}

impl Clone for Node {
    fn clone(&self) -> (copy: Self)
        ensures
            copy@ == self@,
    {
        proof {
            use_type_invariant(self);
        }
        Node {
            uid: self.uid,
            uid_string: self.uid_string.clone(),
            network_node_uid: self.network_node_uid,
            params: self.params,
            service: self.service,
            address: self.address.clone(),
            transport_kind: self.transport_kind,
            network: self.network,
            fqdn: self.fqdn.clone(),
        }
    }
}

impl PartialEq for Node {
    fn eq(&self, other: &Self) -> (r: bool) {
        self.uid == other.uid
    }
}

impl Eq for Node {

}

impl PartialEqSpecImpl for Node {
    open spec fn obeys_eq_spec() -> bool {
        true
    }

    /// Two descriptors are the same node when their identities agree.
    open spec fn eq_spec(&self, other: &Node) -> bool {
        self@.uid == other@.uid
    }
}

fn build_node(
    service: Service,
    network: NetworkId,
    kind: TransportKind,
    tls: bool,
    fqdn: String,
    address: String,
) -> (node: Node)
    ensures
        node@ == node_of(service, network, kind, tls, fqdn@, address@),
        node@.wf(),
{
    let uid = xxh3_64(address.as_str());
    let uid_string = format_hex16(uid);
    let mut key = fqdn.clone();
    let network_text = network.to_string();
    key.append(network_text.as_str());
    key.append(if tls {
        "true"
    } else {
        "false"
    });
    let network_node_uid = xxh3_64(key.as_str());
    let tls_kind = if tls {
        TlsKind::Tls
    } else {
        TlsKind::Plain
    };
    let params = PathParams::new(kind, tls_kind, network);
    Node {
        uid,
        uid_string,
        service,
        params,
        fqdn,
        address,
        transport_kind: kind,
        network,
        network_node_uid,
    }
}

impl Node {
    /// Builds the descriptor of an endpoint of `transport` at `address`.
    pub fn new(
        service: &Service,
        network: NetworkId,
        transport: &Transport,
        fqdn: &str,
        address: &str,
    ) -> (node: Node)
        ensures
            node@ == node_of(*service, network, transport@.kind, transport@.tls, fqdn@, address@),
            node@.wf(),
    {
        build_node(
            *service,
            network,
            transport.kind,
            transport.tls,
            String::from_str(fqdn),
            String::from_str(address),
        )
    }

    /// Builds the descriptor of a node entry of the configuration.
    pub fn from_config(config: &NodeConfig) -> (node: Node)
        ensures
            node@ == node_of_config(config@),
            node@.wf(),
    {
        let tls = config.tls;
        let address = match &config.address {
            Some(a) => a.clone(),
            None => {
                let mut template = String::from_str(
                    if tls {
                        "wss://"
                    } else {
                        "ws://"
                    },
                );
                template.append("${fqdn}/${service}/${network}/${protocol}/${encoding}");
                let transport = Transport::new(config.transport_kind, tls, template);
                transport.make_address(config.fqdn.as_str(), &config.service, &config.network)
            },
        };
        let tls = starts_with(address.as_str(), "wss://");
        build_node(
            config.service,
            config.network,
            config.transport_kind,
            tls,
            config.fqdn.clone(),
            address,
        )
    }

    /// Recalls that every descriptor is consistent; does nothing when run.
    pub fn attest(&self)
        ensures
            self@.wf(),
    {
        proof {
            use_type_invariant(self);
        }
    }

    /// Returns the bucket the node belongs to.
    pub fn params(&self) -> (p: &PathParams)
        ensures
            *p == self@.params,
    {
        &self.params
    }

    /// Returns the service the node belongs to.
    pub fn service(&self) -> (s: Service)
        ensures
            s == self@.service,
    {
        self.service
    }

    /// Returns the identity of the node.
    pub fn uid(&self) -> (uid: u64)
        ensures
            uid == self@.uid,
    {
        self.uid
    }

    /// Returns the transport of the node.
    pub fn transport_kind(&self) -> (kind: TransportKind)
        ensures
            kind == self@.transport_kind,
    {
        self.transport_kind
    }

    /// Returns the network of the node.
    pub fn network(&self) -> (network: NetworkId)
        ensures
            network == self@.network,
    {
        self.network
    }

    /// Returns the identity of the physical node behind the endpoint.
    pub fn network_node_uid(&self) -> (uid: u64)
        ensures
            uid == self@.network_node_uid,
    {
        self.network_node_uid
    }

    /// Returns the identity of the node as sixteen hexadecimal digits.
    pub fn uid_as_str(&self) -> (s: &str)
        ensures
            s@ == self@.uid_string,
    {
        self.uid_string.as_str()
    }

    /// Returns the address of the node.
    pub fn address(&self) -> (s: &str)
        ensures
            s@ == self@.address,
    {
        self.address.as_str()
    }

    /// Returns the host name of the node.
    pub fn fqdn(&self) -> (s: &str)
        ensures
            s@ == self@.fqdn,
    {
        self.fqdn.as_str()
    }

    /// Renders the node as its identity in brackets followed by its address.
    pub fn to_string(&self) -> (s: String)
        ensures
            s@ == seq!['['] + self@.uid_string + seq![']', ' '] + self@.address,
    {
        proof {
            reveal_strlit("[");
            reveal_strlit("] ");
        }
        let mut out = String::from_str("[");
        out.append(self.uid_string.as_str());
        out.append("] ");
        out.append(self.address.as_str());
        assert(out@ =~= seq!['['] + self@.uid_string + seq![']', ' '] + self@.address);
        out
    }
}

} // verus!
