use kaspa_resolver::config::Config;
use kaspa_resolver::error::Error;
use kaspa_resolver::group::Group;
use kaspa_resolver::network::NetworkId;
use kaspa_resolver::network::NetworkType;
use kaspa_resolver::node::NodeConfig;
use kaspa_resolver::services::Service;
use kaspa_resolver::transport::TlsKind;
use kaspa_resolver::transport::Transport;
use kaspa_resolver::transport::TransportDictionary;
use kaspa_resolver::transport::TransportKind;

fn mainnet() -> NetworkId {
    NetworkId::new(NetworkType::Mainnet)
}

fn dictionary() -> TransportDictionary {
    let mut d = TransportDictionary::new();
    d.insert(
        "borsh-tls".to_string(),
        Transport::new(TransportKind::WrpcBorsh, true, "wss://${fqdn}/${service}/${network}/wrpc/borsh".to_string()),
    );
    d.insert(
        "json".to_string(),
        Transport::new(TransportKind::WrpcJson, false, "ws://${fqdn}:18110".to_string()),
    );
    d
}

fn group(fqdn: &str) -> Group {
    Group {
        enable: None,
        fqdn: fqdn.to_string(),
        transports: vec!["borsh-tls".to_string(), "json".to_string()],
        services: vec![Service::Kaspa],
        network: vec![(mainnet(), vec!["N1".to_string(), "n2".to_string()])],
    }
}

fn entry(fqdn: &str, enable: Option<bool>) -> NodeConfig {
    NodeConfig {
        service: Service::Kaspa,
        address: None,
        tls: true,
        transport_kind: TransportKind::WrpcBorsh,
        network: mainnet(),
        enable,
        fqdn: fqdn.to_string(),
    }
}

#[test]
fn an_empty_configuration_has_no_nodes() {
    let c = Config { transports: None, groups: None, nodes: None };
    assert!(c.into_nodes().unwrap().is_empty());
    let d = Config { transports: Some(dictionary()), groups: Some(vec![]), nodes: Some(vec![]) };
    assert!(d.into_nodes().unwrap().is_empty());
}

#[test]
fn node_entries_that_are_switched_off_are_dropped() {
    let c = Config {
        transports: None,
        groups: None,
        nodes: Some(vec![entry("a", None), entry("b", Some(false)), entry("c", Some(true))]),
    };
    let nodes = c.into_nodes().unwrap();
    assert_eq!(nodes.iter().map(|n| n.fqdn().to_string()).collect::<Vec<_>>(), vec!["a", "c"]);
    assert_eq!(nodes[0].address(), "wss://a/kaspa/mainnet/wrpc/borsh");
}

#[test]
fn a_group_expands_to_one_node_for_each_combination() {
    let mut g = group("*.example.org");
    g.services = vec![Service::Kaspa, Service::Sparkle];
    g.network.push((NetworkId::with_suffix(NetworkType::Testnet, 10), vec!["T1".to_string()]));
    let c = Config { transports: Some(dictionary()), groups: Some(vec![g]), nodes: Some(vec![entry("single", None)]) };
    let nodes = c.into_nodes().unwrap();
    assert_eq!(nodes.len(), 1 + 2 * (2 * 2 + 2 * 1));
    assert_eq!(nodes[0].fqdn(), "single");
    let addresses: Vec<&str> = nodes.iter().map(|n| n.address()).collect();
    assert_eq!(
        &addresses[1..7],
        &[
            "wss://n1.example.org/kaspa/mainnet/wrpc/borsh",
            "wss://n2.example.org/kaspa/mainnet/wrpc/borsh",
            "ws://n1.example.org:18110",
            "ws://n2.example.org:18110",
            "wss://t1.example.org/kaspa/testnet-10/wrpc/borsh",
            "ws://t1.example.org:18110",
        ]
    );
    assert_eq!(addresses[7], "wss://n1.example.org/sparkle/mainnet/wrpc/borsh");
    assert_eq!(nodes[1].fqdn(), "n1.example.org");
    assert_eq!(nodes[1].service(), Service::Kaspa);
    assert_eq!(nodes[1].transport_kind(), TransportKind::WrpcBorsh);
    assert_eq!(nodes[1].params().tls(), TlsKind::Tls);
    assert_eq!(nodes[3].transport_kind(), TransportKind::WrpcJson);
    assert_eq!(nodes[3].params().tls(), TlsKind::Plain);
    assert_eq!(nodes[5].network(), NetworkId::with_suffix(NetworkType::Testnet, 10));
    assert_eq!(nodes[7].service(), Service::Sparkle);
    assert_eq!(nodes[1].uid(), xxhash_rust::xxh3::xxh3_64(nodes[1].address().as_bytes()));
}

#[test]
fn unknown_transports_and_groups_without_wildcard_are_passed_over() {
    let mut g = group("*.example.org");
    g.transports = vec!["missing".to_string(), "json".to_string()];
    let fixed = group("fixed.example.org");
    let mut off = group("*.off.example.org");
    off.enable = Some(false);
    let c = Config { transports: Some(dictionary()), groups: Some(vec![fixed, g, off]), nodes: None };
    let nodes = c.into_nodes().unwrap();
    assert_eq!(
        nodes.iter().map(|n| n.address().to_string()).collect::<Vec<_>>(),
        vec!["ws://n1.example.org:18110", "ws://n2.example.org:18110"]
    );
    let no_dictionary = Config { transports: None, groups: Some(vec![group("*.example.org")]), nodes: None };
    assert!(no_dictionary.into_nodes().unwrap().is_empty());
}

#[test]
fn two_groups_with_one_host_name_pattern_are_an_error() {
    let c = Config {
        transports: Some(dictionary()),
        groups: Some(vec![group("*.a.org"), group("*.b.org"), group("*.a.org"), group("*.b.org")]),
        nodes: Some(vec![entry("single", None)]),
    };
    match c.into_nodes() {
        Err(Error::Config(message)) => assert_eq!(message, "Duplicate group: *.a.org"),
        other => panic!("unexpected: {other:?}"),
    }
    assert_eq!(Error::config("x").to_string(), "Configuration error");
    assert!(matches!(Error::config("why"), Error::Config(m) if m == "why"));
    assert_eq!(Error::LocalConfigNotFound.to_string(), "Could not locate local config");
}

#[test]
fn groups_that_are_switched_off_do_not_count_as_duplicates() {
    let mut off = group("*.a.org");
    off.enable = Some(false);
    let c = Config { transports: Some(dictionary()), groups: Some(vec![group("*.a.org"), off]), nodes: None };
    assert_eq!(c.into_nodes().unwrap().len(), 4);
    assert_eq!(group("*.a.org").to_string(), "*.a.org");
}
