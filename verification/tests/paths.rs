use kaspa_resolver::network::NetworkId;
use kaspa_resolver::network::NetworkType;
use kaspa_resolver::params::bucket_networks;
use kaspa_resolver::params::bucket_transports;
use kaspa_resolver::params::PathParams;
use kaspa_resolver::services::Service;
use kaspa_resolver::transport::EncodingKind;
use kaspa_resolver::transport::ProtocolKind;
use kaspa_resolver::transport::TlsKind;
use kaspa_resolver::transport::TransportKind;

fn mainnet() -> NetworkId {
    NetworkId::new(NetworkType::Mainnet)
}

#[test]
fn strict_paths_cover_every_network_and_transport() {
    let list = PathParams::iter_tls_strict();
    assert_eq!(list.len(), 18);
    assert!(list.iter().all(|p| p.is_tls_strict()));
    let first = PathParams::new(TransportKind::WrpcBorsh, TlsKind::Tls, mainnet());
    assert_eq!(list[0], first);
    assert_eq!(list[1], PathParams::new(TransportKind::WrpcJson, TlsKind::Tls, mainnet()));
    assert_eq!(list[2], PathParams::new(TransportKind::Grpc, TlsKind::Tls, mainnet()));
    assert_eq!(list[3], PathParams::new(TransportKind::WrpcBorsh, TlsKind::Plain, mainnet()));
    assert_eq!(list[4], PathParams::new(TransportKind::WrpcJson, TlsKind::Plain, mainnet()));
    assert_eq!(list[5], PathParams::new(TransportKind::Grpc, TlsKind::Plain, mainnet()));
    assert_eq!(
        list[6],
        PathParams::new(
            TransportKind::WrpcBorsh,
            TlsKind::Tls,
            NetworkId::with_suffix(NetworkType::Testnet, 10)
        )
    );
    for (i, a) in list.iter().enumerate() {
        for (j, b) in list.iter().enumerate() {
            assert_eq!(a == b, i == j);
        }
    }
    for kind in bucket_transports() {
        for tls in [TlsKind::Tls, TlsKind::Plain] {
            for network in bucket_networks() {
                let p = PathParams::new(kind, tls, network);
                assert_eq!(list.iter().filter(|x| **x == p).count(), 1);
            }
        }
    }
    assert_eq!(list.iter().filter(|p| p.protocol() == ProtocolKind::Grpc).count(), 6);
}

#[test]
fn all_paths_add_the_aggregate_of_both_tls_kinds() {
    let strict = PathParams::iter_tls_strict();
    let all = PathParams::iter_tls_any();
    assert_eq!(all.len(), 27);
    for p in strict.iter() {
        assert!(all.contains(p));
        assert!(all.contains(&p.to_tls(TlsKind::Any)));
    }
    assert_eq!(all.iter().filter(|p| !p.is_tls_strict()).count(), 9);
    assert_eq!(all[6], PathParams::new(TransportKind::WrpcBorsh, TlsKind::Any, mainnet()));
    assert_eq!(all[8], PathParams::new(TransportKind::Grpc, TlsKind::Any, mainnet()));
    for (i, a) in all.iter().enumerate() {
        for (j, b) in all.iter().enumerate() {
            assert_eq!(a == b, i == j);
        }
    }
}

#[test]
fn path_parts_follow_the_transport() {
    let p = PathParams::new(TransportKind::WrpcJson, TlsKind::Plain, mainnet());
    assert_eq!(p.protocol(), ProtocolKind::Wrpc);
    assert_eq!(p.encoding(), EncodingKind::Json);
    assert_eq!(p.tls(), TlsKind::Plain);
    assert!(p.is_tls_strict());
    let any = p.to_tls(TlsKind::Any);
    assert!(!any.is_tls_strict());
    assert_eq!(any.protocol(), ProtocolKind::Wrpc);
    assert_eq!(any.encoding(), EncodingKind::Json);
    assert_eq!(any.network, mainnet());
    let g = PathParams::new(TransportKind::Grpc, TlsKind::Tls, mainnet());
    assert_eq!(g.protocol(), ProtocolKind::Grpc);
    assert_eq!(g.encoding(), EncodingKind::Protobuf);
}

#[test]
fn paths_and_kinds_have_their_text_forms() {
    let p = PathParams::new(
        TransportKind::WrpcBorsh,
        TlsKind::Tls,
        NetworkId::with_suffix(NetworkType::Testnet, 11),
    );
    assert_eq!(p.to_string(), "tls:wrpc:borsh:testnet-11");
    assert_eq!(p.to_tls(TlsKind::Plain).to_string(), "none:wrpc:borsh:testnet-11");
    assert_eq!(p.to_tls(TlsKind::Any).to_string(), "any:wrpc:borsh:testnet-11");
    assert_eq!(TransportKind::WrpcBorsh.as_str(), "wrpc-borsh");
    assert_eq!(TransportKind::WrpcJson.as_str(), "wrpc-json");
    assert_eq!(TransportKind::Grpc.as_str(), "grpc");
    assert_eq!(EncodingKind::Protobuf.as_str(), "protobuf");
    assert_eq!(ProtocolKind::Grpc.as_str(), "grpc");
    assert_eq!(Service::Kaspa.as_str(), "kaspa");
    assert_eq!(Service::Sparkle.as_str(), "sparkle");
    assert_eq!(TlsKind::from(true), TlsKind::Tls);
    assert_eq!(TlsKind::from(false), TlsKind::Plain);
}

#[test]
fn network_identifiers_render_with_their_suffix() {
    assert_eq!(mainnet().to_string(), "mainnet");
    assert_eq!(NetworkId::with_suffix(NetworkType::Testnet, 10).to_string(), "testnet-10");
    assert_eq!(NetworkId::with_suffix(NetworkType::Testnet, 0).to_string(), "testnet-0");
    assert_eq!(
        NetworkId::with_suffix(NetworkType::Devnet, 4294967295).to_string(),
        "devnet-4294967295"
    );
    assert_eq!(NetworkId::new(NetworkType::Simnet).to_string(), "simnet");
    let nets = bucket_networks();
    assert_eq!(nets.len(), 3);
    assert_eq!(nets[0], mainnet());
    assert_eq!(nets[2], NetworkId::with_suffix(NetworkType::Testnet, 11));
    assert_eq!(
        bucket_transports(),
        vec![TransportKind::WrpcBorsh, TransportKind::WrpcJson, TransportKind::Grpc]
    );
}

#[test]
fn paths_are_ordered_field_by_field() {
    let a = PathParams::new(TransportKind::WrpcBorsh, TlsKind::Any, mainnet());
    let b = PathParams::new(TransportKind::WrpcJson, TlsKind::Tls, mainnet());
    let c = PathParams::new(TransportKind::Grpc, TlsKind::Tls, mainnet());
    let d = PathParams::new(TransportKind::WrpcBorsh, TlsKind::Tls, NetworkId::with_suffix(NetworkType::Testnet, 10));
    assert!(a < b);
    assert!(b < c);
    assert!(a < d);
    assert!(d < b);
    assert!(a.to_tls(TlsKind::Tls) < a);
    assert!(Service::Kaspa < Service::Sparkle);
    assert!(NetworkId::with_suffix(NetworkType::Testnet, 10) < NetworkId::with_suffix(NetworkType::Testnet, 11));
    assert!(mainnet() < NetworkId::new(NetworkType::Testnet));
    let mut set = std::collections::HashSet::new();
    assert!(set.insert(a));
    assert!(!set.insert(a));
    assert!(set.insert(b));
}

#[test]
fn network_identifiers_are_read_from_their_text_form() {
    assert_eq!(NetworkId::parse("mainnet"), Some(mainnet()));
    assert_eq!(NetworkId::parse("testnet-10"), Some(NetworkId::with_suffix(NetworkType::Testnet, 10)));
    assert_eq!(NetworkId::parse("devnet-4294967295"), Some(NetworkId::with_suffix(NetworkType::Devnet, u32::MAX)));
    assert_eq!(NetworkId::parse("simnet"), Some(NetworkId::new(NetworkType::Simnet)));
    assert_eq!(NetworkId::parse("testnet-4294967296"), None);
    assert_eq!(NetworkId::parse("testnet-"), None);
    assert_eq!(NetworkId::parse("testnet-x"), None);
    assert_eq!(NetworkId::parse("testnet-1-2"), None);
    assert_eq!(NetworkId::parse("Mainnet"), None);
    assert_eq!(NetworkId::parse(""), None);
    assert_eq!(NetworkId::parse("-10"), None);
    assert_eq!(NetworkType::parse("devnet"), Some(NetworkType::Devnet));
    assert_eq!(NetworkType::parse("net"), None);
    for id in bucket_networks() {
        assert_eq!(NetworkId::parse(&id.to_string()), Some(id));
    }
}
