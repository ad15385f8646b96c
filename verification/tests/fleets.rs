use kaspa_resolver::args::Action;
use kaspa_resolver::args::Args;
use kaspa_resolver::connection::Connection;
use kaspa_resolver::connection::Transition;
use kaspa_resolver::fleet::Fleet;
use kaspa_resolver::network::NetworkId;
use kaspa_resolver::network::NetworkType;
use kaspa_resolver::node::Node;
use kaspa_resolver::rpc::Caps;
use kaspa_resolver::rpc::Connections;
use kaspa_resolver::services::Service;
use kaspa_resolver::status::format_delegate;
use kaspa_resolver::status::Public;
use kaspa_resolver::status::Status;
use kaspa_resolver::transport::EncodingKind;
use kaspa_resolver::transport::ProtocolKind;
use kaspa_resolver::transport::TlsKind;
use kaspa_resolver::transport::Transport;
use kaspa_resolver::transport::TransportKind;

fn args() -> Args {
    Args {
        listen: String::new(),
        rate_limit: None,
        verbose: false,
        trace: false,
        auto_update: false,
        public: false,
        user_config: None,
        action: Action::Run,
    }
}

fn conn(name: &str) -> Connection {
    let t = Transport::new(TransportKind::WrpcBorsh, true, "unused".to_string());
    let address = format!("wss://{name}.example.org");
    let fqdn = format!("{name}.example.org");
    let node = Node::new(&Service::Kaspa, NetworkId::new(NetworkType::Mainnet), &t, &fqdn, &address);
    Connection::try_new(node, &args()).unwrap()
}

fn fleet(names: &[&str]) -> (Fleet, Vec<u64>) {
    let mut f = Fleet::new();
    let mut uids = Vec::new();
    for n in names {
        let c = conn(n);
        uids.push(c.uid());
        f.push(c);
    }
    (f, uids)
}

#[test]
fn a_fleet_finds_its_connections_by_identity() {
    let (f, u) = fleet(&["a", "b", "c"]);
    assert_eq!(f.len(), 3);
    assert_eq!(f.find(u[0]), Some(0));
    assert_eq!(f.find(u[2]), Some(2));
    assert_eq!(f.find(12345), None);
    assert_eq!(f.get(1).uid(), u[1]);
    assert_eq!(f.lookup(u[1]).unwrap().address(), "wss://b.example.org");
    assert!(f.lookup(12345).is_none());
    let all = f.connections();
    assert_eq!(all.len(), 3);
    assert_eq!(all[2].uid(), u[2]);
    assert_eq!(Fleet::new().len(), 0);
}

#[test]
fn links_are_followed_to_the_connection_that_defers_to_nobody() {
    let (mut f, u) = fleet(&["a", "b", "c", "d"]);
    assert!(f.bind(u[0], Some(u[1])));
    assert!(f.bind(u[1], Some(u[2])));
    assert_eq!(f.terminal_index(0), 2);
    assert_eq!(f.terminal_index(1), 2);
    assert_eq!(f.terminal_index(2), 2);
    assert_eq!(f.terminal_index(3), 3);
    let a = f.get(0);
    assert_eq!(a.delegate(&f).uid(), u[2]);
    assert!(a.delegate(&f).is_delegate());
    assert_eq!(f.get(3).delegate(&f).uid(), u[3]);
    let chain = a.resolve_delegators(&f);
    assert_eq!(chain.iter().map(|c| c.uid()).collect::<Vec<_>>(), vec![u[1], u[2]]);
    assert!(chain.len() < f.len());
    assert!(f.get(2).resolve_delegators(&f).is_empty());
    assert_eq!(f.delegators(1).len(), 1);
}

#[test]
fn a_link_that_would_close_a_cycle_is_refused() {
    let (mut f, u) = fleet(&["a", "b", "c"]);
    assert!(!f.bind(u[0], Some(u[0])));
    assert!(f.bind(u[0], Some(u[1])));
    assert!(!f.bind(u[1], Some(u[0])));
    assert!(f.bind(u[1], Some(u[2])));
    assert!(!f.bind(u[2], Some(u[0])));
    assert!(!f.bind(u[2], Some(u[1])));
    assert_eq!(f.get(2).link(), None);
    assert_eq!(f.get(1).link(), Some(u[2]));
    for i in 0..f.len() {
        let t = f.terminal_index(i);
        assert!(f.get(t).is_delegate());
        assert!(f.get(i).resolve_delegators(&f).len() < f.len());
    }
    assert!(f.bind(u[0], Some(u[2])));
    assert_eq!(f.get(0).link(), Some(u[2]));
    assert!(f.bind(u[1], None));
    assert!(f.bind(u[2], Some(u[1])));
    assert_eq!(f.terminal_index(0), 1);
}

#[test]
fn links_to_unknown_connections_are_refused() {
    let (mut f, u) = fleet(&["a", "b"]);
    assert!(!f.bind(u[0], Some(999)));
    assert!(!f.bind(999, Some(u[0])));
    assert!(!f.bind(999, None));
    assert_eq!(f.get(0).link(), None);
    assert!(!f.apply(999, Transition::Online(true)));
    assert!(f.apply(u[0], Transition::Online(true)));
    assert!(f.get(0).is_online());
    assert!(!f.get(1).is_online());
}

#[test]
fn removing_a_connection_releases_those_that_deferred_to_it() {
    let (mut f, u) = fleet(&["a", "b", "c", "d"]);
    f.apply(u[0], Transition::Caps(Caps::from_system_info("v".to_string(), None, None, 1, 0, 4096)));
    f.apply(u[3], Transition::Caps(Caps::from_system_info("v".to_string(), None, None, 1, 0, 4096)));
    assert!(f.bind(u[0], Some(u[1])));
    assert!(f.bind(u[2], Some(u[1])));
    assert!(f.bind(u[3], Some(u[2])));
    let gone = f.remove(u[1]).unwrap();
    assert_eq!(gone.uid(), u[1]);
    assert_eq!(f.len(), 3);
    assert_eq!(f.find(u[1]), None);
    let a = f.lookup(u[0]).unwrap();
    assert!(a.is_delegate());
    assert!(a.caps().is_none());
    assert!(f.lookup(u[2]).unwrap().is_delegate());
    let d = f.lookup(u[3]).unwrap();
    assert_eq!(d.link(), Some(u[2]));
    assert!(d.caps().is_some());
    assert!(f.remove(u[1]).is_none());
    assert_eq!(f.len(), 3);
}

#[test]
fn score_and_availability_are_those_of_the_delegate() {
    let (mut f, u) = fleet(&["a", "b"]);
    f.apply(u[1], Transition::Caps(Caps::from_system_info("v".to_string(), None, None, 1, 0, 2048)));
    f.apply(u[1], Transition::Counts(Connections { clients: 10, peers: 5 }));
    f.apply(u[1], Transition::Online(true));
    f.apply(u[0], Transition::Counts(Connections { clients: 1, peers: 1 }));
    assert!(f.bind(u[0], Some(u[1])));
    let a = f.get(0);
    let b = f.get(1);
    assert_eq!(a.score(&f), 15);
    assert_eq!(b.score(&f), 15);
    assert!(!a.is_available(&f));
    assert!(!b.is_available(&f));
    f.apply(u[0], Transition::Connected { now: 0, ttl: 0 });
    assert!(f.get(0).is_available(&f));
    assert!(!f.get(1).is_available(&f));
    f.apply(u[1], Transition::Online(false));
    assert!(!f.get(0).is_available(&f));
    f.apply(u[1], Transition::Online(true));
    f.apply(u[1], Transition::Counts(Connections { clients: 768, peers: 0 }));
    assert!(!f.get(0).is_available(&f));
    f.apply(u[1], Transition::Counts(Connections { clients: 700, peers: 324 }));
    assert!(!f.get(0).is_available(&f));
    f.apply(u[1], Transition::Counts(Connections { clients: 700, peers: 323 }));
    assert!(f.get(0).is_available(&f));
    let d = f.get(0).delegate(&f);
    assert!(d.is_online());
    assert!(d.clients() < d.caps().unwrap().capacity());
    assert!(d.clients() + d.peers() < d.caps().unwrap().fd_limit());
}

#[test]
fn a_connection_outside_the_fleet_resolves_to_itself() {
    let (f, _) = fleet(&["a"]);
    let mut lone = conn("z");
    lone.apply(Transition::Counts(Connections { clients: 3, peers: 4 }));
    assert_eq!(lone.delegate(&f).uid(), lone.uid());
    assert_eq!(lone.score(&f), 7);
    assert!(!lone.is_available(&f));
    assert!(lone.resolve_delegators(&f).is_empty());
}

#[test]
fn records_show_the_state_of_the_delegate() {
    let (mut f, u) = fleet(&["a", "b"]);
    let id = vec![0, 0, 0, 0, 0, 0, 0, 0x42];
    f.apply(
        u[1],
        Transition::Caps(Caps::from_system_info("v0.15.2".to_string(), Some(id), None, 8, 1 << 34, 65536)),
    );
    f.apply(u[1], Transition::Counts(Connections { clients: 20, peers: 8 }));
    f.apply(u[0], Transition::Connected { now: 0, ttl: 0 });
    assert!(f.bind(u[0], Some(u[1])));
    let s = Status::from_connection(f.get(0), &f);
    assert_eq!(s.version, "v0.15.2");
    assert_eq!(s.sid, 0x42);
    assert_eq!(s.uid, u[0]);
    assert_eq!(s.url, "wss://a.example.org");
    assert_eq!(s.fqdn, "a.example.org");
    assert_eq!(s.service, "kaspa");
    assert_eq!(s.protocol, ProtocolKind::Wrpc);
    assert_eq!(s.encoding, EncodingKind::Borsh);
    assert_eq!(s.encryption, TlsKind::Tls);
    assert_eq!(s.network, NetworkId::new(NetworkType::Mainnet));
    assert_eq!(s.cores, 8);
    assert_eq!(s.memory, 1 << 34);
    assert_eq!(s.status, "delegator");
    assert_eq!(s.clients, 20);
    assert_eq!(s.peers, 8);
    assert_eq!(s.capacity, 8 * 768);
    assert_eq!(s.delegates, Some(vec!["[0000000000000042] wss://b.example.org".to_string()]));
    assert_eq!(format_delegate(f.get(0)), "[0000000000000000] wss://a.example.org");
    let own = Status::from_connection(f.get(1), &f);
    assert_eq!(own.status, "offline");
    assert_eq!(own.delegates, None);
    let p = Public::from_connection(f.get(0), &f);
    assert_eq!(p.version, "v0.15.2");
    assert_eq!(p.sid, 0x42);
    assert_eq!(p.uid, u[0]);
    assert_eq!(p.status, "delegator");
    assert_eq!(p.capacity, 6144);
    assert_eq!(p.clients, 20);
    assert_eq!(p.peers, 8);
}

#[test]
fn records_of_unknown_nodes_show_placeholders() {
    let (f, u) = fleet(&["a"]);
    let s = Status::from_connection(f.get(0), &f);
    assert_eq!(s.version, "n/a");
    assert_eq!(s.sid, 0);
    assert_eq!(s.capacity, 0);
    assert_eq!(s.cores, 0);
    assert_eq!(s.memory, 0);
    assert_eq!(s.uid, u[0]);
    let p = Public::from_connection(f.get(0), &f);
    assert_eq!(p.version, "n/a");
    assert_eq!(p.service, "kaspa");
    assert_eq!(p.encryption, TlsKind::Tls);
}
