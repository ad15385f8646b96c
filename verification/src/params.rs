//! Path parameters: the key of an election bucket.

use vstd::prelude::*;
use vstd::string::StringExecFns;
use crate::network::NetworkId;
use crate::network::NetworkType;
use crate::transport::EncodingKind;
use crate::transport::ProtocolKind;
use crate::transport::TlsKind;
use crate::transport::TransportKind;

verus! {

/// The networks for which buckets are kept, in bucket order.
pub open spec fn networks() -> Seq<NetworkId> {
    seq![
        NetworkId { network_type: NetworkType::Mainnet, suffix: None },
        NetworkId { network_type: NetworkType::Testnet, suffix: Some(10u32) },
        NetworkId { network_type: NetworkType::Testnet, suffix: Some(11u32) },
    ]
}

/// The transports for which buckets are kept, in bucket order.
pub open spec fn transports() -> Seq<TransportKind> {
    seq![TransportKind::WrpcBorsh, TransportKind::WrpcJson, TransportKind::Grpc]
}

/// The TLS kinds in bucket order; the first two are the concrete ones.
pub open spec fn tls_kinds() -> Seq<TlsKind> {
    seq![TlsKind::Tls, TlsKind::Plain, TlsKind::Any]
}

/// The key of an election bucket.
#[derive(Debug, Clone, Copy, PartialEq, Eq, PartialOrd, Ord, Hash, Structural)]
pub struct PathParams {
    pub protocol: ProtocolKind,
    pub encoding: EncodingKind,
    pub network: NetworkId,
    pub tls: TlsKind,
}

/// The bucket key of a transport on a network with a TLS kind.
pub open spec fn params_of(kind: TransportKind, tls: TlsKind, network: NetworkId) -> PathParams {
    PathParams { protocol: kind.spec_protocol(), encoding: kind.spec_encoding(), network, tls }
}

/// The keys of all buckets of concrete TLS kind: for each network, every
/// transport with TLS, then every transport without.
pub open spec fn strict_params() -> Seq<PathParams> {
    Seq::new(
        18,
        |i: int| params_of(transports()[i % 3], tls_kinds()[(i % 6) / 3], networks()[i / 6]),
    )
}

/// The keys of all buckets, the aggregating `any` buckets included: for each
/// network, every transport with TLS, then without, then with either.
pub open spec fn all_params() -> Seq<PathParams> {
    Seq::new(
        27,
        |i: int| params_of(transports()[i % 3], tls_kinds()[(i % 9) / 3], networks()[i / 9]),
    )
}

/// Every path of concrete TLS kind has a bucket, and so has the path that
/// aggregates both TLS kinds of it.
pub proof fn lemma_strict_has_buckets(p: PathParams)
    requires
        strict_params().contains(p),
    ensures
        p.spec_is_tls_strict(),
        all_params().contains(p),
        all_params().contains(p.spec_to_tls(TlsKind::Any)),
{
    let i = choose|i: int| 0 <= i < strict_params().len() && strict_params()[i] == p;
    let own = (i / 6) * 9 + i % 6;
    let any = (i / 6) * 9 + 6 + i % 3;
    assert(0 <= own < 27 && own / 9 == i / 6 && own % 9 == i % 6 && own % 3 == i % 3);
    assert(0 <= any < 27 && any / 9 == i / 6 && any % 9 == 6 + i % 3 && any % 3 == i % 3);
    assert(all_params()[own] == p);
    assert(all_params()[any] == p.spec_to_tls(TlsKind::Any));
}

impl PathParams {
    /// The same key with another TLS kind.
    pub open spec fn spec_to_tls(self, tls: TlsKind) -> PathParams {
        PathParams { tls, ..self }
    }

    /// Whether the key names a bucket of concrete TLS kind.
    pub open spec fn spec_is_tls_strict(&self) -> bool {
        self.tls == TlsKind::Tls || self.tls == TlsKind::Plain
    }

    /// The text form of the key: TLS kind, protocol, encoding and network,
    /// separated by colons.
    pub open spec fn name(self) -> Seq<char> {
        self.tls.name() + seq![':'] + self.protocol.name() + seq![':'] + self.encoding.name()
            + seq![':'] + self.network.name()
    }

    /// Builds the key for a transport, a TLS kind and a network.
    pub fn new(transport_kind: TransportKind, tls: TlsKind, network: NetworkId) -> (p: PathParams)
        ensures
            p == params_of(transport_kind, tls, network),
    {
        let protocol = transport_kind.protocol();
        let encoding = transport_kind.encoding();
        PathParams { protocol, encoding, tls, network }
    }

    /// Lists the keys of all buckets of concrete TLS kind.
    pub fn iter_tls_strict() -> (list: Vec<PathParams>)
        ensures
            list@ == strict_params(),
    {
        let nets = bucket_networks();
        let kinds = bucket_transports();
        let mut out: Vec<PathParams> = Vec::new();
        let mut n: usize = 0;
        while n < 3
            invariant
                n <= 3,
                nets@ == networks(),
                kinds@ == transports(),
                out@.len() == 6 * n,
                forall|i: int| 0 <= i < out@.len() ==> out@[i] == strict_params()[i],
            decreases 3 - n,
        {
            out.push(PathParams::new(kinds[0], TlsKind::Tls, nets[n]));
            out.push(PathParams::new(kinds[1], TlsKind::Tls, nets[n]));
            out.push(PathParams::new(kinds[2], TlsKind::Tls, nets[n]));
            out.push(PathParams::new(kinds[0], TlsKind::Plain, nets[n]));
            out.push(PathParams::new(kinds[1], TlsKind::Plain, nets[n]));
            out.push(PathParams::new(kinds[2], TlsKind::Plain, nets[n]));
            n += 1;
        }
        assert(out@ =~= strict_params());
        out
    }

    /// Lists the keys of all buckets, the `any` buckets included.
    pub fn iter_tls_any() -> (list: Vec<PathParams>)
        ensures
            list@ == all_params(),
    {
        let nets = bucket_networks();
        let kinds = bucket_transports();
        let mut out: Vec<PathParams> = Vec::new();
        let mut n: usize = 0;
        while n < 3
            invariant
                n <= 3,
                nets@ == networks(),
                kinds@ == transports(),
                out@.len() == 9 * n,
                forall|i: int| 0 <= i < out@.len() ==> out@[i] == all_params()[i],
            decreases 3 - n,
        {
            out.push(PathParams::new(kinds[0], TlsKind::Tls, nets[n]));
            out.push(PathParams::new(kinds[1], TlsKind::Tls, nets[n]));
            out.push(PathParams::new(kinds[2], TlsKind::Tls, nets[n]));
            out.push(PathParams::new(kinds[0], TlsKind::Plain, nets[n]));
            out.push(PathParams::new(kinds[1], TlsKind::Plain, nets[n]));
            out.push(PathParams::new(kinds[2], TlsKind::Plain, nets[n]));
            out.push(PathParams::new(kinds[0], TlsKind::Any, nets[n]));
            out.push(PathParams::new(kinds[1], TlsKind::Any, nets[n]));
            out.push(PathParams::new(kinds[2], TlsKind::Any, nets[n]));
            n += 1;
        }
        assert(out@ =~= all_params());
        out
    }

    /// Returns the protocol of the key.
    pub fn protocol(&self) -> (p: ProtocolKind)
        ensures
            p == self.protocol,
    {
        self.protocol
    }

    /// Returns the encoding of the key.
    pub fn encoding(&self) -> (e: EncodingKind)
        ensures
            e == self.encoding,
    {
        self.encoding
    }

    /// Returns the TLS kind of the key.
    pub fn tls(&self) -> (t: TlsKind)
        ensures
            t == self.tls,
    {
        self.tls
    }

    /// Returns the same key with another TLS kind.
    #[verifier::when_used_as_spec(spec_to_tls)]
    pub fn to_tls(self, tls: TlsKind) -> (p: PathParams)
        ensures
            p == self.spec_to_tls(tls),
    {
        PathParams { tls, ..self }
    }

    /// Tells whether the key names a bucket of concrete TLS kind.
    #[verifier::when_used_as_spec(spec_is_tls_strict)]
    pub fn is_tls_strict(&self) -> (b: bool)
        ensures
            b == self.spec_is_tls_strict(),
    {
        match self.tls {
            TlsKind::Tls => true,
            TlsKind::Plain => true,
            TlsKind::Any => false,
        }
    }

    /// Renders the key as text.
    pub fn to_string(&self) -> (s: String)
        ensures
            s@ == self.name(),
    {
        proof {
            reveal_strlit(":");
        }
        let mut out = String::from_str(self.tls.as_str());
        out.append(":");
        out.append(self.protocol.as_str());
        out.append(":");
        out.append(self.encoding.as_str());
        out.append(":");
        let network = self.network.to_string();
        out.append(network.as_str());
        assert(out@ =~= self.name());
        out
    }
}

/// Returns the networks for which buckets are kept.
pub fn bucket_networks() -> (list: Vec<NetworkId>)
    ensures
        list@ == networks(),
{
    let mut out: Vec<NetworkId> = Vec::new();
    out.push(NetworkId::new(NetworkType::Mainnet));
    out.push(NetworkId::with_suffix(NetworkType::Testnet, 10));
    out.push(NetworkId::with_suffix(NetworkType::Testnet, 11));
    assert(out@ =~= networks());
    out
}

/// Returns the transports for which buckets are kept.
pub fn bucket_transports() -> (list: Vec<TransportKind>)
    ensures
        list@ == transports(),
{
    let mut out: Vec<TransportKind> = Vec::new();
    out.push(TransportKind::WrpcBorsh);
    out.push(TransportKind::WrpcJson);
    out.push(TransportKind::Grpc);
    assert(out@ =~= transports());
    out
}

} // verus!
