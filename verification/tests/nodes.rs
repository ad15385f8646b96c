use kaspa_resolver::network::NetworkId;
use kaspa_resolver::network::NetworkType;
use kaspa_resolver::node::Node;
use kaspa_resolver::node::NodeConfig;
use kaspa_resolver::params::PathParams;
use kaspa_resolver::services::Service;
use kaspa_resolver::transport::EncodingKind;
use kaspa_resolver::transport::ProtocolKind;
use kaspa_resolver::transport::TlsKind;
use kaspa_resolver::transport::Transport;
use kaspa_resolver::transport::TransportDictionary;
use kaspa_resolver::transport::TransportKind;

fn mainnet() -> NetworkId {
    NetworkId::new(NetworkType::Mainnet)
}

fn borsh(tls: bool) -> Transport {
    Transport::new(
        TransportKind::WrpcBorsh,
        tls,
        "wss://${fqdn}/${service}/${network}/${protocol}/${encoding}".to_string(),
    )
}

#[test]
fn transport_kinds_project_to_protocol_and_encoding() {
    assert_eq!(TransportKind::WrpcBorsh.protocol(), ProtocolKind::Wrpc);
    assert_eq!(TransportKind::WrpcBorsh.encoding(), EncodingKind::Borsh);
    assert_eq!(TransportKind::WrpcJson.protocol(), ProtocolKind::Wrpc);
    assert_eq!(TransportKind::WrpcJson.encoding(), EncodingKind::Json);
    assert_eq!(TransportKind::Grpc.protocol(), ProtocolKind::Grpc);
    assert_eq!(TransportKind::Grpc.encoding(), EncodingKind::Protobuf);
}

#[test]
fn make_address_fills_in_all_five_variables() {
    let t = borsh(true);
    let address = t.make_address(
        "n1.example.org",
        &Service::Kaspa,
        &NetworkId::with_suffix(NetworkType::Testnet, 10),
    );
    assert_eq!(address, "wss://n1.example.org/kaspa/testnet-10/wrpc/borsh");
    let j = Transport::new(TransportKind::WrpcJson, false, "ws://${fqdn}:18110/${encoding}".to_string());
    assert_eq!(j.make_address("h", &Service::Sparkle, &mainnet()), "ws://h:18110/json");
    let odd = Transport::new(TransportKind::Grpc, false, "${unknown}/${ protocol }".to_string());
    assert_eq!(odd.make_address("h", &Service::Kaspa, &mainnet()), "${unknown}/grpc");
}

#[test]
fn dictionary_finds_transports_by_name() {
    let mut d = TransportDictionary::new();
    assert!(d.get("a").is_none());
    d.insert("a".to_string(), borsh(true));
    d.insert("b".to_string(), Transport::new(TransportKind::WrpcJson, false, "x".to_string()));
    assert_eq!(d.get("a").unwrap().kind, TransportKind::WrpcBorsh);
    assert_eq!(d.get("b").unwrap().kind, TransportKind::WrpcJson);
    assert!(d.get("c").is_none());
    d.insert("a".to_string(), Transport::new(TransportKind::Grpc, false, "y".to_string()));
    assert_eq!(d.get("a").unwrap().kind, TransportKind::Grpc);
}

#[test]
fn node_identity_is_the_hash_of_its_address() {
    let t = borsh(true);
    let n = Node::new(&Service::Kaspa, mainnet(), &t, "n1.example.org", "wss://n1.example.org/a");
    assert_eq!(n.uid(), xxhash_rust::xxh3::xxh3_64("wss://n1.example.org/a".as_bytes()));
    assert_eq!(n.uid_as_str(), format!("{:016x}", n.uid()));
    assert_eq!(n.uid_as_str().len(), 16);
    assert_eq!(n.address(), "wss://n1.example.org/a");
    assert_eq!(n.fqdn(), "n1.example.org");
    assert_eq!(n.service(), Service::Kaspa);
    assert_eq!(n.transport_kind(), TransportKind::WrpcBorsh);
    assert_eq!(n.network(), mainnet());
    assert_eq!(*n.params(), PathParams::new(TransportKind::WrpcBorsh, TlsKind::Tls, mainnet()));
    assert_eq!(n.to_string(), format!("[{:016x}] wss://n1.example.org/a", n.uid()));
    let empty = Node::new(&Service::Kaspa, mainnet(), &t, "h", "");
    assert_eq!(empty.uid(), 0x2d06800538d394c2);
    assert_eq!(empty.uid_as_str(), "2d06800538d394c2");
}

#[test]
fn nodes_are_equal_when_their_addresses_are() {
    let t = borsh(true);
    let a = Node::new(&Service::Kaspa, mainnet(), &t, "h1", "wss://h1/x");
    let b = Node::new(&Service::Sparkle, mainnet(), &t, "other", "wss://h1/x");
    let c = Node::new(&Service::Kaspa, mainnet(), &t, "h1", "wss://h1/y");
    assert!(a == b);
    assert!(a != c);
    let d = a.clone();
    assert!(a == d);
    assert_eq!(d.address(), a.address());
    assert_eq!(d.network_node_uid(), a.network_node_uid());
}

#[test]
fn physical_identity_hashes_host_network_and_tls() {
    let tls = borsh(true);
    let plain = borsh(false);
    let json = Transport::new(TransportKind::WrpcJson, true, "t".to_string());
    let a = Node::new(&Service::Kaspa, mainnet(), &tls, "h1.example.org", "wss://h1/borsh");
    let b = Node::new(&Service::Kaspa, mainnet(), &json, "h1.example.org", "wss://h1/json");
    let c = Node::new(&Service::Kaspa, mainnet(), &plain, "h1.example.org", "ws://h1/borsh");
    let d = Node::new(
        &Service::Kaspa,
        NetworkId::with_suffix(NetworkType::Testnet, 10),
        &tls,
        "h1.example.org",
        "wss://h1/t10",
    );
    assert_eq!(a.network_node_uid(), b.network_node_uid());
    assert_ne!(a.network_node_uid(), c.network_node_uid());
    assert_ne!(a.network_node_uid(), d.network_node_uid());
    assert_eq!(
        a.network_node_uid(),
        xxhash_rust::xxh3::xxh3_64("h1.example.orgmainnettrue".as_bytes())
    );
    assert_eq!(
        c.network_node_uid(),
        xxhash_rust::xxh3::xxh3_64("h1.example.orgmainnetfalse".as_bytes())
    );
    assert_eq!(c.params().tls(), TlsKind::Plain);
}

#[test]
fn node_entries_without_address_get_the_default_one() {
    let secure = NodeConfig {
        service: Service::Kaspa,
        address: None,
        tls: true,
        transport_kind: TransportKind::WrpcJson,
        network: mainnet(),
        enable: None,
        fqdn: "n2.example.org".to_string(),
    };
    let n = Node::from_config(&secure);
    assert_eq!(n.address(), "wss://n2.example.org/kaspa/mainnet/wrpc/json");
    assert_eq!(n.params().tls(), TlsKind::Tls);
    let open = NodeConfig { tls: false, ..secure };
    let m = Node::from_config(&open);
    assert_eq!(m.address(), "ws://n2.example.org/kaspa/mainnet/wrpc/json");
    assert_eq!(m.params().tls(), TlsKind::Plain);
    assert_ne!(n.uid(), m.uid());
}

#[test]
fn node_entries_read_tls_off_their_address() {
    let c = NodeConfig {
        service: Service::Sparkle,
        address: Some("wss://custom.example.org:443".to_string()),
        tls: false,
        transport_kind: TransportKind::WrpcBorsh,
        network: NetworkId::with_suffix(NetworkType::Testnet, 11),
        enable: Some(true),
        fqdn: "custom.example.org".to_string(),
    };
    let n = Node::from_config(&c);
    assert_eq!(n.address(), "wss://custom.example.org:443");
    assert_eq!(n.params().tls(), TlsKind::Tls);
    assert_eq!(
        n.network_node_uid(),
        xxhash_rust::xxh3::xxh3_64("custom.example.orgtestnet-11true".as_bytes())
    );
    let d = NodeConfig { address: Some("ws://custom.example.org".to_string()), tls: true, ..c };
    assert_eq!(Node::from_config(&d).params().tls(), TlsKind::Plain);
}
