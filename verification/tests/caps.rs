use kaspa_resolver::args::Action;
use kaspa_resolver::args::Args;
use kaspa_resolver::connection::Connection;
use kaspa_resolver::connection::Transition;
use kaspa_resolver::error::Error;
use kaspa_resolver::network::NetworkId;
use kaspa_resolver::network::NetworkType;
use kaspa_resolver::node::Node;
use kaspa_resolver::rpc::Caps;
use kaspa_resolver::rpc::Connections;
use kaspa_resolver::rpc::FD_MARGIN;
use kaspa_resolver::rpc::SOCKETS_PER_CORE;
use kaspa_resolver::services::Service;
use kaspa_resolver::transport::Transport;
use kaspa_resolver::transport::TransportKind;

fn args(verbose: bool) -> Args {
    Args {
        listen: "127.0.0.1:8989".to_string(),
        rate_limit: None,
        verbose,
        trace: false,
        auto_update: false,
        public: false,
        user_config: None,
        action: Action::Run,
    }
}

fn node(kind: TransportKind, address: &str) -> Node {
    let t = Transport::new(kind, true, "unused".to_string());
    Node::new(&Service::Kaspa, NetworkId::new(NetworkType::Mainnet), &t, "h1.example.org", address)
}

fn caps(cores: u16, fd_limit: u32) -> Caps {
    Caps::from_system_info("v1.0.0".to_string(), None, None, cores, 1 << 30, fd_limit)
}

#[test]
fn capacity_is_the_smaller_of_both_limits() {
    assert_eq!(FD_MARGIN, 1024);
    assert_eq!(SOCKETS_PER_CORE, 768);
    let c = caps(4, 10000);
    assert_eq!(c.fd_limit(), 8976);
    assert_eq!(c.clients_limit(), 3072);
    assert_eq!(c.capacity(), 3072);
    assert_eq!(c.cpu_physical_cores(), 4);
    assert_eq!(c.total_memory(), 1 << 30);
    assert_eq!(c.version(), "v1.0.0");
    let d = caps(16, 4096);
    assert_eq!(d.fd_limit(), 3072);
    assert_eq!(d.clients_limit(), 12288);
    assert_eq!(d.capacity(), 3072);
    let e = caps(1, 1024 + 768);
    assert_eq!(e.capacity(), 768);
}

#[test]
fn descriptor_limits_below_the_margin_fall_back() {
    assert_eq!(caps(4, 1023).fd_limit(), 32);
    assert_eq!(caps(4, 1023).capacity(), 32);
    assert_eq!(caps(4, 0).fd_limit(), 32);
    assert_eq!(caps(4, 1024).fd_limit(), 0);
    assert_eq!(caps(4, 1024).capacity(), 0);
    assert_eq!(caps(0, 10000).capacity(), 0);
    let top = caps(u16::MAX, u32::MAX);
    assert_eq!(top.fd_limit(), u32::MAX as u64 - 1024);
    assert_eq!(top.clients_limit(), 65535 * 768);
    assert_eq!(top.capacity(), 65535 * 768);
}

#[test]
fn system_identifier_is_read_from_the_first_eight_bytes() {
    let id = vec![0x01, 0x23, 0x45, 0x67, 0x89, 0xab, 0xcd, 0xef, 0xff, 0xff];
    let c = Caps::from_system_info("v".to_string(), Some(id), Some(vec![0xde, 0xad, 0x01]), 1, 0, 2048);
    assert_eq!(c.system_id(), 0x0123_4567_89ab_cdef);
    assert_eq!(c.git_hash(), Some("dead01"));
    let short = Caps::from_system_info("v".to_string(), Some(vec![1, 2, 3]), None, 1, 0, 2048);
    assert_eq!(short.system_id(), 0);
    assert_eq!(short.git_hash(), None);
    let none = Caps::from_system_info("v".to_string(), None, None, 1, 0, 2048);
    assert_eq!(none.system_id(), 0);
    let top = Caps::from_system_info("v".to_string(), Some(vec![0xff; 8]), None, 1, 0, 2048);
    assert_eq!(top.system_id(), u64::MAX);
}

#[test]
fn new_connections_are_offline_and_defer_to_nobody() {
    let c = Connection::try_new(node(TransportKind::WrpcBorsh, "wss://h1/a"), &args(true)).unwrap();
    assert!(c.verbose());
    assert!(!c.is_connected());
    assert!(!c.is_online());
    assert!(!c.is_synced());
    assert_eq!(c.clients(), 0);
    assert_eq!(c.peers(), 0);
    assert_eq!(c.sockets(), 0);
    assert!(c.caps().is_none());
    assert_eq!(c.system_id(), 0);
    assert!(c.is_delegate());
    assert_eq!(c.link(), None);
    assert_eq!(c.status(), "offline");
    assert_eq!(c.address(), "wss://h1/a");
    assert_eq!(c.uid(), c.node().uid());
    assert_eq!(c.params(), *c.node().params());
    assert_eq!(c.network_id(), NetworkId::new(NetworkType::Mainnet));
    assert!(!c.has_room());
    assert!(!Connection::try_new(node(TransportKind::WrpcJson, "x"), &args(false)).unwrap().verbose());
}

#[test]
fn connections_cannot_be_made_over_grpc() {
    let r = Connection::try_new(node(TransportKind::Grpc, "grpc://h1"), &args(false));
    assert!(matches!(r, Err(Error::ConnectionProtocolEncoding)));
    assert_eq!(
        Error::ConnectionProtocolEncoding.to_string(),
        "Incompatible connection protocol encoding"
    );
}

#[test]
fn status_follows_connection_link_and_sync() {
    let mut c = Connection::try_new(node(TransportKind::WrpcBorsh, "wss://h1/a"), &args(false)).unwrap();
    assert_eq!(c.status(), "offline");
    c.apply(Transition::Connected { now: 5, ttl: 100 });
    assert!(c.is_connected());
    assert_eq!(c.status(), "syncing");
    c.apply(Transition::Synced(true));
    assert_eq!(c.status(), "online");
    c.bind_delegate(Some(77));
    assert!(!c.is_delegate());
    assert_eq!(c.link(), Some(77));
    assert_eq!(c.status(), "delegator");
    c.apply(Transition::Synced(false));
    assert_eq!(c.status(), "delegator");
    c.bind_delegate(None);
    assert_eq!(c.status(), "syncing");
    c.apply(Transition::Disconnected);
    assert_eq!(c.status(), "offline");
    assert!(!c.is_online());
}

#[test]
fn transitions_change_what_they_name() {
    let mut c = Connection::try_new(node(TransportKind::WrpcBorsh, "wss://h1/a"), &args(false)).unwrap();
    c.apply(Transition::Caps(caps(4, 10000)));
    assert_eq!(c.caps().unwrap().capacity(), 3072);
    c.apply(Transition::Counts(Connections { clients: 10, peers: 5 }));
    assert_eq!(c.clients(), 10);
    assert_eq!(c.peers(), 5);
    assert_eq!(c.sockets(), 15);
    c.apply(Transition::Online(true));
    assert!(c.is_online());
    assert!(!c.is_connected());
    c.apply(Transition::Connected { now: 1000, ttl: 60 });
    assert!(c.caps().is_none());
    assert!(c.is_online());
    c.apply(Transition::Caps(caps(1, 2048)));
    c.apply(Transition::Expired);
    assert!(c.caps().is_none());
    assert!(!c.expired(u64::MAX));
    c.apply(Transition::Caps(caps(1, 2048)));
    c.apply(Transition::ClearCaps);
    assert!(c.caps().is_none());
    c.apply(Transition::Online(false));
    assert!(!c.is_online());
}

#[test]
fn socket_count_is_capped() {
    let mut c = Connection::try_new(node(TransportKind::WrpcBorsh, "wss://h1/a"), &args(false)).unwrap();
    c.apply(Transition::Counts(Connections { clients: u64::MAX, peers: 1 }));
    assert_eq!(c.sockets(), u64::MAX);
    c.apply(Transition::Counts(Connections { clients: u64::MAX - 1, peers: 1 }));
    assert_eq!(c.sockets(), u64::MAX);
    c.apply(Transition::Counts(Connections { clients: 2, peers: 0 }));
    assert_eq!(c.sockets(), 2);
}

#[test]
fn room_needs_both_limits_to_hold() {
    let mut c = Connection::try_new(node(TransportKind::WrpcBorsh, "wss://h1/a"), &args(false)).unwrap();
    c.apply(Transition::Counts(Connections { clients: 0, peers: 0 }));
    assert!(!c.has_room());
    c.apply(Transition::Caps(caps(1, 1024 + 1000)));
    assert!(c.has_room());
    c.apply(Transition::Counts(Connections { clients: 767, peers: 0 }));
    assert!(c.has_room());
    c.apply(Transition::Counts(Connections { clients: 768, peers: 0 }));
    assert!(!c.has_room());
    c.apply(Transition::Counts(Connections { clients: 500, peers: 499 }));
    assert!(c.has_room());
    c.apply(Transition::Counts(Connections { clients: 500, peers: 500 }));
    assert!(!c.has_room());
    c.apply(Transition::Counts(Connections { clients: 1, peers: u64::MAX }));
    assert!(!c.has_room());
}

#[test]
fn epochs_expire_after_their_time_to_live() {
    let mut c = Connection::try_new(node(TransportKind::WrpcBorsh, "wss://h1/a"), &args(false)).unwrap();
    assert!(!c.expired(1_000_000));
    c.apply(Transition::Connected { now: 1000, ttl: 60_000 });
    assert!(!c.expired(1000));
    assert!(!c.expired(61_000));
    assert!(c.expired(61_001));
    assert!(!c.expired(0));
    c.apply(Transition::Disconnected);
    assert!(!c.expired(61_001));
}
