//! Transport kinds, their protocol and encoding, and address templates.

use vstd::prelude::*;
use crate::network::NetworkId;
use crate::services::Service;
use crate::text::same_text;
use crate::tpl::rendered;
use crate::tpl::Tpl;

verus! {

/// Whether a bucket holds TLS endpoints, plain endpoints, or both.
#[derive(Debug, Clone, Copy, PartialEq, Eq, PartialOrd, Ord, Hash, Structural)]
pub enum TlsKind {
    /// Endpoints reached over TLS.
    Tls,
    /// Endpoints reached without TLS; its text form is `none`.
    Plain,
    /// The aggregate of both concrete kinds.
    Any,
}

impl TlsKind {
    /// The lower-case name of the kind.
    pub open spec fn name(self) -> Seq<char> {
        match self {
            TlsKind::Tls => "tls"@,
            TlsKind::Plain => "none"@,
            TlsKind::Any => "any"@,
        }
    }

    /// The concrete kind of an endpoint that uses TLS or does not.
    pub open spec fn of(tls: bool) -> TlsKind {
        if tls {
            TlsKind::Tls
        } else {
            TlsKind::Plain
        }
    }

    /// Returns the name of the kind.
    pub fn as_str(&self) -> (s: &'static str)
        ensures
            s@ == self.name(),
    {
        match self {
            TlsKind::Tls => "tls",
            TlsKind::Plain => "none",
            TlsKind::Any => "any",
        }
    }
}

impl From<bool> for TlsKind {
    fn from(b: bool) -> (kind: TlsKind) {
        if b {
            TlsKind::Tls
        } else {
            TlsKind::Plain
        }
    }
}

impl vstd::std_specs::convert::FromSpecImpl<bool> for TlsKind {
    open spec fn obeys_from_spec() -> bool {
        true
    }

    open spec fn from_spec(b: bool) -> TlsKind {
        TlsKind::of(b)
    }
}

/// The wire protocol of a transport.
#[derive(Debug, Clone, Copy, PartialEq, Eq, PartialOrd, Ord, Hash, Structural)]
pub enum ProtocolKind {
    Wrpc,
    Grpc,
}

impl ProtocolKind {
    /// The lower-case name of the protocol.
    pub open spec fn name(self) -> Seq<char> {
        match self {
            ProtocolKind::Wrpc => "wrpc"@,
            ProtocolKind::Grpc => "grpc"@,
        }
    }

    /// Returns the name of the protocol.
    pub fn as_str(&self) -> (s: &'static str)
        ensures
            s@ == self.name(),
    {
        match self {
            ProtocolKind::Wrpc => "wrpc",
            ProtocolKind::Grpc => "grpc",
        }
    }
}

/// The payload encoding of a transport.
#[derive(Debug, Clone, Copy, PartialEq, Eq, PartialOrd, Ord, Hash, Structural)]
pub enum EncodingKind {
    Borsh,
    Json,
    Protobuf,
}

impl EncodingKind {
    /// The lower-case name of the encoding.
    pub open spec fn name(self) -> Seq<char> {
        match self {
            EncodingKind::Borsh => "borsh"@,
            EncodingKind::Json => "json"@,
            EncodingKind::Protobuf => "protobuf"@,
        }
    }

    /// Returns the name of the encoding.
    pub fn as_str(&self) -> (s: &'static str)
        ensures
            s@ == self.name(),
    {
        match self {
            EncodingKind::Borsh => "borsh",
            EncodingKind::Json => "json",
            EncodingKind::Protobuf => "protobuf",
        }
    }
}

/// A transport: one protocol together with one encoding.
#[derive(Debug, Clone, Copy, PartialEq, Eq, PartialOrd, Ord, Hash, Structural)]
pub enum TransportKind {
    WrpcBorsh,
    WrpcJson,
    Grpc,
}

impl TransportKind {
    /// The lower-case name of the transport.
    pub open spec fn name(self) -> Seq<char> {
        match self {
            TransportKind::WrpcBorsh => "wrpc-borsh"@,
            TransportKind::WrpcJson => "wrpc-json"@,
            TransportKind::Grpc => "grpc"@,
        }
    }

    /// The protocol this transport speaks.
    pub open spec fn spec_protocol(&self) -> ProtocolKind {
        match self {
            TransportKind::WrpcBorsh => ProtocolKind::Wrpc,
            TransportKind::WrpcJson => ProtocolKind::Wrpc,
            TransportKind::Grpc => ProtocolKind::Grpc,
        }
    }

    /// The encoding this transport uses.
    pub open spec fn spec_encoding(&self) -> EncodingKind {
        match self {
            TransportKind::WrpcBorsh => EncodingKind::Borsh,
            TransportKind::WrpcJson => EncodingKind::Json,
            TransportKind::Grpc => EncodingKind::Protobuf,
        }
    }

    /// Returns the name of the transport.
    pub fn as_str(&self) -> (s: &'static str)
        ensures
            s@ == self.name(),
    {
        match self {
            TransportKind::WrpcBorsh => "wrpc-borsh",
            TransportKind::WrpcJson => "wrpc-json",
            TransportKind::Grpc => "grpc",
        }
    }

    /// Returns the protocol this transport speaks.
    #[verifier::when_used_as_spec(spec_protocol)]
    pub fn protocol(&self) -> (p: ProtocolKind)
        ensures
            p == self.spec_protocol(),
    {
        match self {
            TransportKind::WrpcBorsh => ProtocolKind::Wrpc,
            TransportKind::WrpcJson => ProtocolKind::Wrpc,
            TransportKind::Grpc => ProtocolKind::Grpc,
        }
    }

    /// Returns the encoding this transport uses.
    #[verifier::when_used_as_spec(spec_encoding)]
    pub fn encoding(&self) -> (e: EncodingKind)
        ensures
            e == self.spec_encoding(),
    {
        match self {
            TransportKind::WrpcBorsh => EncodingKind::Borsh,
            TransportKind::WrpcJson => EncodingKind::Json,
            TransportKind::Grpc => EncodingKind::Protobuf,
        }
    }
}

/// A reusable address template that stands for several transports at once.
#[derive(Debug)]
pub struct TransportTemplate {
    pub kind: Vec<TransportKind>,
    pub tls: bool,
    pub template: String,
}

/// An address template for one transport.
#[derive(Debug)]
pub struct Transport {
    pub kind: TransportKind,
    pub tls: bool,
    pub template: String,
}

/// The mathematical value of a [`Transport`].
pub struct TransportView {
    pub kind: TransportKind,
    pub tls: bool,
    pub template: Seq<char>,
}

impl View for Transport {
    type V = TransportView;

    open spec fn view(&self) -> TransportView {
        TransportView { kind: self.kind, tls: self.tls, template: self.template@ }
    }
}

/// The variables offered to an address template.
pub open spec fn address_vars(
    service: Service,
    fqdn: Seq<char>,
    network: NetworkId,
    kind: TransportKind,
) -> Map<Seq<char>, Seq<char>> {
    Map::<Seq<char>, Seq<char>>::empty().insert("service"@, service.name()).insert(
        "fqdn"@,
        fqdn,
    ).insert("network"@, network.name()).insert("protocol"@, kind.spec_protocol().name()).insert(
        "encoding"@,
        kind.spec_encoding().name(),
    )
}

/// The address that a template yields for one service, host and network.
pub open spec fn address_of(
    template: Seq<char>,
    kind: TransportKind,
    fqdn: Seq<char>,
    service: Service,
    network: NetworkId,
) -> Seq<char> {
    rendered(template, address_vars(service, fqdn, network, kind))
}

impl Transport {
    /// Builds a transport from its parts.
    pub fn new(kind: TransportKind, tls: bool, template: String) -> (t: Transport)
        ensures
            t@ == (TransportView { kind, tls, template: template@ }),
    {
        Transport { kind, tls, template }
    }

    /// Expands the template into the address of one node: the variables
    /// `service`, `fqdn`, `network`, `protocol` and `encoding` are replaced.
    pub fn make_address(&self, fqdn: &str, service: &Service, network_id: &NetworkId) -> (address:
        String)
        ensures
            address@ == address_of(self@.template, self@.kind, fqdn@, *service, *network_id),
    {
        let mut tpl = Tpl::new();
        tpl.insert("service", service.as_str());
        tpl.insert("fqdn", fqdn);
        let network = network_id.to_string();
        tpl.insert("network", network.as_str());
        tpl.insert("protocol", self.kind.protocol().as_str());
        tpl.insert("encoding", self.kind.encoding().as_str());
        tpl.render(self.template.as_str())
    }
}

/// Address templates by name.
#[derive(Debug)]
pub struct TransportDictionary {
    entries: Vec<(String, Transport)>,
}

/// The transports held by a list of named entries; a later entry overrides an
/// earlier one of the same name.
pub open spec fn transports_by_name(entries: Seq<(String, Transport)>) -> Map<
    Seq<char>,
    TransportView,
>
    decreases entries.len(),
{
    if entries.len() == 0 {
        Map::empty()
    } else {
        transports_by_name(entries.drop_last()).insert(entries.last().0@, entries.last().1@)
    }
}

impl View for TransportDictionary {
    type V = Map<Seq<char>, TransportView>;

    /// The transport stored under each name.
    closed spec fn view(&self) -> Map<Seq<char>, TransportView> {
        transports_by_name(self.entries@)
    }
}

impl TransportDictionary {
    /// An empty dictionary.
    pub fn new() -> (d: TransportDictionary)
        ensures
            d@ == Map::<Seq<char>, TransportView>::empty(),
    {
        TransportDictionary { entries: Vec::new() }
    }

    /// Stores `transport` under `key`, replacing an earlier entry of that name.
    pub fn insert(&mut self, key: String, transport: Transport)
        ensures
            final(self)@ == old(self)@.insert(key@, transport@),
    {
        self.entries.push((key, transport));
        proof {
            assert(self.entries@.drop_last() =~= old(self).entries@);
        }
    }

    /// Looks up the transport stored under `key`.
    pub fn get(&self, key: &str) -> (found: Option<&Transport>)
        ensures
            found matches Some(t) ==> self@.contains_key(key@) && self@[key@] == t@,
            found is None ==> !self@.contains_key(key@),
    {
        let mut i: usize = self.entries.len();
        proof {
            assert(self.entries@.subrange(0, i as int) =~= self.entries@);
        }
        while i > 0
            invariant
                i <= self.entries.len(),
                transports_by_name(self.entries@).contains_key(key@) ==> transports_by_name(
                    self.entries@.subrange(0, i as int),
                ).contains_key(key@),
                transports_by_name(self.entries@).contains_key(key@) ==> transports_by_name(
                    self.entries@,
                )[key@] == transports_by_name(self.entries@.subrange(0, i as int))[key@],
                transports_by_name(self.entries@.subrange(0, i as int)).contains_key(key@)
                    ==> transports_by_name(self.entries@).contains_key(key@),
            decreases i,
        {
            let ghost prefix = self.entries@.subrange(0, i as int);
            proof {
                assert(prefix.drop_last() =~= self.entries@.subrange(0, i as int - 1));
                assert(prefix.last() == self.entries@[i as int - 1]);
            }
            i -= 1;
            if same_text(self.entries[i].0.as_str(), key) {
                return Some(&self.entries[i].1);
            }
        }
        proof {
            assert(self.entries@.subrange(0, 0) =~= Seq::<(String, Transport)>::empty());
        }
        None
    }
}

} // verus!
