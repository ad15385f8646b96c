use kaspa_resolver::args::Action;
use kaspa_resolver::args::Args;
use kaspa_resolver::delegate::Delegate;
use kaspa_resolver::error::Error;
use kaspa_resolver::monitor::claim;
use kaspa_resolver::monitor::Monitor;
use kaspa_resolver::network::NetworkId;
use kaspa_resolver::network::NetworkType;
use kaspa_resolver::node::Node;
use kaspa_resolver::params::PathParams;
use kaspa_resolver::probe::PollAction;
use kaspa_resolver::probe::Reply;
use kaspa_resolver::probe::Request;
use kaspa_resolver::probe::Step;
use kaspa_resolver::rpc::Caps;
use kaspa_resolver::rpc::Connections;
use kaspa_resolver::services::Service;
use kaspa_resolver::transport::TlsKind;
use kaspa_resolver::transport::Transport;
use kaspa_resolver::transport::TransportKind;

fn args() -> Args {
    Args {
        listen: String::new(),
        rate_limit: None,
        verbose: false,
        trace: false,
        auto_update: false,
        public: false,
        user_config: None,
        action: Action::Run,
    }
}

fn mainnet() -> NetworkId {
    NetworkId::new(NetworkType::Mainnet)
}

fn node_on(service: Service, kind: TransportKind, tls: bool, network: NetworkId, host: &str) -> Node {
    let t = Transport::new(
        kind,
        tls,
        if tls {
            "wss://${fqdn}/${encoding}".to_string()
        } else {
            "ws://${fqdn}/${encoding}".to_string()
        },
    );
    let address = t.make_address(host, &service, &network);
    Node::new(&service, network, &t, host, &address)
}

fn node(kind: TransportKind, host: &str) -> Node {
    node_on(Service::Kaspa, kind, true, mainnet(), host)
}

fn caps(system_id: u64) -> Caps {
    Caps::from_system_info(
        "v1".to_string(),
        Some(system_id.to_be_bytes().to_vec()),
        None,
        4,
        1 << 30,
        10000,
    )
}

fn borsh_tls() -> PathParams {
    PathParams::new(TransportKind::WrpcBorsh, TlsKind::Tls, mainnet())
}

fn json_tls() -> PathParams {
    PathParams::new(TransportKind::WrpcJson, TlsKind::Tls, mainnet())
}

fn uids(m: &Monitor, params: &PathParams) -> Vec<u64> {
    m.bucket(params).unwrap().iter().map(|c| c.uid()).collect()
}

/// Runs a whole refresh of one connection against a node that answers as
/// given and tells how it ended.
fn refresh(m: &mut Monitor, uid: u64, caps_id: u64, synced: Option<bool>, counts: Option<(u64, u64)>) -> Result<(), Error> {
    let mut step = m.update_state(uid);
    let mut calls = 0;
    loop {
        calls += 1;
        assert!(calls <= 5);
        let request = match step {
            Step::Done(result) => return result,
            Step::Call(request) => request,
        };
        let reply = match request {
            Request::Ping => Reply::Ping(true),
            Request::GetCaps => Reply::Caps(Some(caps(caps_id))),
            Request::GetSync => Reply::Sync(synced),
            Request::GetActiveConnections => {
                Reply::Metrics(counts.map(|(clients, peers)| Connections { clients, peers }))
            }
        };
        step = m.update_state_reply(uid, reply);
    }
}

/// Connects a connection and brings it online against a healthy node.
fn bring_up(m: &mut Monitor, uid: u64, system_id: u64, clients: u64, peers: u64) {
    m.on_connect(uid, 0, 60_000);
    let ok = refresh(m, uid, system_id, Some(true), Some((clients, peers))).is_ok();
    m.after_connect(uid, ok);
}

#[test]
fn a_new_monitor_has_an_empty_bucket_for_each_path() {
    let m = Monitor::new(&args(), Service::Kaspa);
    assert_eq!(m.service(), Service::Kaspa);
    assert!(!m.verbose());
    assert!(m.delegates().is_empty());
    assert_eq!(m.fleet().len(), 0);
    let all = m.connections();
    assert_eq!(all.len(), 27);
    let paths = PathParams::iter_tls_any();
    for (i, (params, list)) in all.iter().enumerate() {
        assert_eq!(*params, paths[i]);
        assert!(list.is_empty());
        assert!(!m.is_sort_scheduled(params));
    }
    assert!(m.to_vec().is_empty());
    assert!(m.followers().is_empty());
    assert!(m.election(&borsh_tls()).is_none());
    let devnet = PathParams::new(TransportKind::WrpcBorsh, TlsKind::Tls, NetworkId::new(NetworkType::Devnet));
    assert!(m.bucket(&devnet).is_none());
    assert!(m.find_bucket(&devnet).is_none());
    assert_eq!(m.find_bucket(&borsh_tls()), Some(0));
}

#[test]
fn claim_takes_the_nodes_of_one_service() {
    let mut list = vec![
        node_on(Service::Kaspa, TransportKind::WrpcBorsh, true, mainnet(), "a"),
        node_on(Service::Sparkle, TransportKind::WrpcBorsh, true, mainnet(), "b"),
        node_on(Service::Kaspa, TransportKind::WrpcJson, true, mainnet(), "c"),
    ];
    let mine = claim(&mut list, Service::Kaspa);
    assert_eq!(mine.iter().map(|n| n.fqdn().to_string()).collect::<Vec<_>>(), vec!["a", "c"]);
    assert_eq!(list.len(), 1);
    assert_eq!(list[0].fqdn(), "b");
    let none = claim(&mut list, Service::Kaspa);
    assert!(none.is_empty());
    assert_eq!(list.len(), 1);
}

#[test]
fn every_connection_is_in_its_bucket_and_in_the_aggregate() {
    let mut m = Monitor::new(&args(), Service::Kaspa);
    let t10 = NetworkId::with_suffix(NetworkType::Testnet, 10);
    let mut list = vec![
        node_on(Service::Kaspa, TransportKind::WrpcBorsh, true, mainnet(), "a"),
        node_on(Service::Kaspa, TransportKind::WrpcBorsh, false, mainnet(), "b"),
        node_on(Service::Kaspa, TransportKind::WrpcJson, true, t10, "c"),
        node_on(Service::Sparkle, TransportKind::WrpcJson, true, t10, "d"),
    ];
    let ids: Vec<u64> = list.iter().map(|n| n.uid()).collect();
    let delta = m.update_nodes(&mut list).unwrap();
    assert_eq!(delta.started, vec![ids[0], ids[1], ids[2]]);
    assert!(delta.stopped.is_empty());
    assert_eq!(list.len(), 1);
    assert_eq!(list[0].uid(), ids[3]);
    assert_eq!(m.fleet().len(), 3);
    for c in m.fleet().connections() {
        let own = c.params();
        let any = own.to_tls(TlsKind::Any);
        for (params, bucket) in m.connections().iter() {
            let listed = bucket.iter().filter(|x| x.uid() == c.uid()).count();
            if *params == own || *params == any {
                assert_eq!(listed, 1);
            } else {
                assert_eq!(listed, 0);
            }
        }
    }
    let any = borsh_tls().to_tls(TlsKind::Any);
    assert_eq!(uids(&m, &any), vec![ids[0], ids[1]]);
    assert_eq!(uids(&m, &borsh_tls()), vec![ids[0]]);
    assert_eq!(m.to_vec().iter().map(|c| c.uid()).collect::<Vec<_>>(), vec![ids[0], ids[1], ids[2]]);
}

#[test]
fn nodes_without_a_bucket_get_no_connection() {
    let mut m = Monitor::new(&args(), Service::Kaspa);
    let mut list = vec![
        node_on(Service::Kaspa, TransportKind::Grpc, true, NetworkId::new(NetworkType::Devnet), "g"),
        node_on(Service::Kaspa, TransportKind::WrpcBorsh, true, NetworkId::new(NetworkType::Devnet), "d"),
        node_on(Service::Kaspa, TransportKind::WrpcBorsh, true, mainnet(), "a"),
        node_on(Service::Kaspa, TransportKind::WrpcBorsh, true, mainnet(), "a"),
    ];
    let a = list[2].uid();
    assert!(!m.refuses(&list));
    let delta = m.update_nodes(&mut list).unwrap();
    assert!(list.is_empty());
    assert_eq!(delta.started, vec![a]);
    assert_eq!(m.fleet().len(), 1);
    assert!(matches!(m.enlist(node(TransportKind::WrpcBorsh, "a")), Ok(false)));
    assert!(matches!(
        m.enlist(node_on(Service::Sparkle, TransportKind::WrpcBorsh, true, mainnet(), "s")),
        Ok(false)
    ));
    assert!(matches!(
        m.enlist(node_on(Service::Kaspa, TransportKind::Grpc, true, NetworkId::new(NetworkType::Devnet), "g")),
        Ok(false)
    ));
    assert!(matches!(m.enlist(node(TransportKind::WrpcBorsh, "b")), Ok(true)));
    assert_eq!(m.fleet().len(), 2);
}

#[test]
fn a_node_that_no_connection_can_be_made_for_is_an_error() {
    let mut m = Monitor::new(&args(), Service::Kaspa);
    let n = |h: &str| node(TransportKind::WrpcBorsh, h);
    m.update_nodes(&mut vec![n("n1"), n("n2")]).unwrap();
    bring_up(&mut m, n("n1").uid(), 1, 3, 3);
    bring_up(&mut m, n("n2").uid(), 1, 3, 3);
    let snapshot = |m: &Monitor| {
        let buckets: Vec<Vec<u64>> =
            m.connections().iter().map(|(_, l)| l.iter().map(|c| c.uid()).collect()).collect();
        let state: Vec<(u64, Option<u64>, bool, u64)> = m
            .fleet()
            .connections()
            .iter()
            .map(|c| (c.uid(), c.link(), c.is_online(), c.system_id()))
            .collect();
        (buckets, state, m.delegates().clone())
    };
    let before = snapshot(&m);
    let mut list = vec![
        n("n2"),
        node_on(Service::Sparkle, TransportKind::WrpcBorsh, true, mainnet(), "s"),
        n("n3"),
        node(TransportKind::Grpc, "g1"),
        n("n4"),
    ];
    assert!(m.refuses(&list));
    let result = m.update_nodes(&mut list);
    assert!(matches!(result, Err(Error::ConnectionProtocolEncoding)));
    assert_eq!(snapshot(&m), before);
    assert_eq!(list.len(), 1);
    assert_eq!(list[0].service(), Service::Sparkle);
    assert!(matches!(m.enlist(node(TransportKind::Grpc, "g1")), Err(Error::ConnectionProtocolEncoding)));
    assert_eq!(snapshot(&m), before);
    let plain = node_on(Service::Kaspa, TransportKind::Grpc, false, mainnet(), "g2");
    assert!(matches!(m.update_nodes(&mut vec![plain]), Err(Error::ConnectionProtocolEncoding)));
    assert_eq!(snapshot(&m), before);
    let other = node_on(Service::Sparkle, TransportKind::Grpc, true, mainnet(), "g3");
    let delta = m.update_nodes(&mut vec![n("n1"), n("n2"), other]).unwrap();
    assert!(delta.started.is_empty() && delta.stopped.is_empty());
    assert_eq!(snapshot(&m), before);
}

#[test]
fn a_configuration_change_stops_and_starts_only_what_changed() {
    let mut m = Monitor::new(&args(), Service::Kaspa);
    let n = |h: &str| node(TransportKind::WrpcBorsh, h);
    let (n1, n2, n3, n4) = (n("n1").uid(), n("n2").uid(), n("n3").uid(), n("n4").uid());
    let first = m.update_nodes(&mut vec![n("n1"), n("n2"), n("n3")]).unwrap();
    assert_eq!(first.started, vec![n1, n2, n3]);
    bring_up(&mut m, n2, 2, 7, 1);
    bring_up(&mut m, n3, 3, 9, 2);
    let second = m.update_nodes(&mut vec![n("n2"), n("n3"), n("n4")]).unwrap();
    assert_eq!(second.stopped, vec![n1]);
    assert_eq!(second.started, vec![n4]);
    assert_eq!(uids(&m, &borsh_tls()), vec![n2, n3, n4]);
    assert_eq!(uids(&m, &borsh_tls().to_tls(TlsKind::Any)), vec![n2, n3, n4]);
    assert!(m.connection(n1).is_none());
    let kept = m.connection(n2).unwrap();
    assert!(kept.is_connected());
    assert!(kept.is_online());
    assert_eq!(kept.clients(), 7);
    assert_eq!(kept.peers(), 1);
    assert_eq!(kept.system_id(), 2);
    assert!(m.connection(n3).unwrap().is_online());
    let fresh = m.connection(n4).unwrap();
    assert!(!fresh.is_connected());
    assert!(fresh.caps().is_none());
}

#[test]
fn reconciling_twice_with_the_same_list_changes_nothing() {
    let mut m = Monitor::new(&args(), Service::Kaspa);
    let list = || {
        vec![
            node(TransportKind::WrpcBorsh, "h1"),
            node(TransportKind::WrpcJson, "h1"),
            node(TransportKind::WrpcJson, "h2"),
            node(TransportKind::WrpcBorsh, "h3"),
        ]
    };
    m.update_nodes(&mut vec![node(TransportKind::WrpcJson, "h0"), node(TransportKind::WrpcJson, "h1")]).unwrap();
    let first = m.update_nodes(&mut list()).unwrap();
    assert_eq!(first.stopped.len(), 1);
    assert_eq!(first.started.len(), 3);
    let ids: Vec<u64> = list().iter().map(|n| n.uid()).collect();
    bring_up(&mut m, ids[0], 1, 3, 3);
    bring_up(&mut m, ids[2], 2, 1, 1);
    let once = m.update_nodes(&mut list()).unwrap();
    assert!(once.started.is_empty());
    assert!(once.stopped.is_empty());
    let snapshot = |m: &Monitor| {
        m.fleet()
            .connections()
            .iter()
            .map(|c| (c.uid(), c.link(), c.is_online(), c.clients(), c.system_id()))
            .collect::<Vec<_>>()
    };
    let before = snapshot(&m);
    let buckets: Vec<Vec<u64>> = m.connections().iter().map(|(_, l)| l.iter().map(|c| c.uid()).collect()).collect();
    let registry = m.delegates().clone();
    let again = m.update_nodes(&mut list()).unwrap();
    assert!(again.started.is_empty());
    assert!(again.stopped.is_empty());
    assert_eq!(snapshot(&m), before);
    let after: Vec<Vec<u64>> = m.connections().iter().map(|(_, l)| l.iter().map(|c| c.uid()).collect()).collect();
    assert_eq!(after, buckets);
    assert_eq!(*m.delegates(), registry);
    assert_eq!(m.connection(ids[1]).unwrap().link(), Some(ids[0]));
    assert_eq!(m.connection(ids[2]).unwrap().link(), None);
}

#[test]
fn two_transports_to_one_host_share_one_delegate() {
    let mut m = Monitor::new(&args(), Service::Kaspa);
    let a = node(TransportKind::WrpcBorsh, "h1");
    let b = node(TransportKind::WrpcJson, "h1");
    let (ua, ub) = (a.uid(), b.uid());
    let (uid_a, address_a) = (a.uid_as_str().to_string(), a.address().to_string());
    m.update_nodes(&mut vec![a, b]).unwrap();
    assert_eq!(m.followers(), vec![(ub, ua)]);
    bring_up(&mut m, ua, 0x42, 10, 5);
    bring_up(&mut m, ub, 0x42, 10, 5);
    assert_eq!(*m.delegates(), vec![(Delegate::new(0x42, mainnet()), ua)]);
    let ca = m.connection(ua).unwrap();
    let cb = m.connection(ub).unwrap();
    assert!(ca.is_delegate());
    assert!(!cb.is_delegate());
    assert_eq!(cb.link(), Some(ua));
    assert_eq!(cb.delegate(m.fleet()).uid(), ua);
    assert_eq!(ca.status(), "online");
    assert_eq!(cb.status(), "delegator");
    assert!(cb.is_available(m.fleet()));
    assert_eq!(cb.score(m.fleet()), 15);
    let json = m.election(&borsh_tls()).unwrap();
    assert_eq!(json, format!("{{\"uid\":\"{uid_a}\",\"url\":\"{address_a}\"}}"));
    assert_eq!(m.elect(&borsh_tls(), 0).unwrap().uid(), ua);
    assert!(m.election(&json_tls()).is_none());
    assert!(m.candidates(&json_tls()).is_empty());
    assert_eq!(m.candidates(&borsh_tls().to_tls(TlsKind::Any)).len(), 1);
}

#[test]
fn connections_to_one_system_defer_to_the_first_that_learned_of_it() {
    let mut m = Monitor::new(&args(), Service::Kaspa);
    let hosts = ["h1", "h2", "h3"];
    let ids: Vec<u64> = hosts.iter().map(|h| node(TransportKind::WrpcBorsh, h).uid()).collect();
    m.update_nodes(&mut hosts.iter().map(|h| node(TransportKind::WrpcBorsh, h)).collect()).unwrap();
    bring_up(&mut m, ids[1], 7, 4, 4);
    bring_up(&mut m, ids[0], 7, 4, 4);
    bring_up(&mut m, ids[2], 8, 1, 1);
    assert_eq!(
        *m.delegates(),
        vec![(Delegate::new(7, mainnet()), ids[1]), (Delegate::new(8, mainnet()), ids[2])]
    );
    assert_eq!(m.connection(ids[0]).unwrap().link(), Some(ids[1]));
    assert!(m.connection(ids[1]).unwrap().is_delegate());
    assert!(m.connection(ids[2]).unwrap().is_delegate());
    for (key, uid) in m.delegates().iter() {
        let speakers: Vec<u64> = m
            .fleet()
            .connections()
            .iter()
            .filter(|c| c.is_delegate() && c.caps().is_some())
            .filter(|c| Delegate::new(c.system_id(), c.network_id()) == *key)
            .map(|c| c.uid())
            .collect();
        assert_eq!(speakers, vec![*uid]);
    }
    assert_eq!(Delegate::new(7, mainnet()).to_string(), "0000000000000007:mainnet");
}

#[test]
fn a_refresh_asks_for_what_the_connection_lacks() {
    let mut m = Monitor::new(&args(), Service::Kaspa);
    let a = node(TransportKind::WrpcBorsh, "h1").uid();
    let b = node(TransportKind::WrpcJson, "h1").uid();
    m.update_nodes(&mut vec![node(TransportKind::WrpcBorsh, "h1"), node(TransportKind::WrpcJson, "h1")]).unwrap();
    assert!(matches!(m.update_state(b), Step::Call(Request::Ping)));
    assert!(matches!(m.update_state_reply(b, Reply::Ping(false)), Step::Done(Ok(()))));
    assert!(matches!(m.update_state(a), Step::Call(Request::GetCaps)));
    assert!(matches!(m.update_state_reply(a, Reply::Caps(Some(caps(1)))), Step::Call(Request::GetSync)));
    assert!(matches!(m.update_state(a), Step::Call(Request::GetSync)));
    assert!(matches!(
        m.update_state_reply(a, Reply::Sync(Some(true))),
        Step::Call(Request::GetActiveConnections)
    ));
    assert!(m.connection(a).unwrap().is_synced());
    assert!(matches!(
        m.update_state_reply(a, Reply::Metrics(Some(Connections { clients: 2, peers: 1 }))),
        Step::Done(Ok(()))
    ));
    assert_eq!(m.connection(a).unwrap().sockets(), 3);
    assert!(matches!(m.update_state(12345), Step::Done(Err(Error::Status))));
}

#[test]
fn failed_calls_end_a_refresh_with_their_error() {
    let mut m = Monitor::new(&args(), Service::Kaspa);
    let a = node(TransportKind::WrpcBorsh, "h1").uid();
    m.update_nodes(&mut vec![node(TransportKind::WrpcBorsh, "h1")]).unwrap();
    assert!(matches!(m.update_state_reply(a, Reply::Caps(None)), Step::Done(Err(Error::Rpc))));
    assert!(m.connection(a).unwrap().caps().is_none());
    assert!(matches!(m.update_state_reply(a, Reply::Sync(None)), Step::Done(Err(Error::Status))));
    assert!(matches!(m.update_state_reply(a, Reply::Sync(Some(false))), Step::Done(Err(Error::Sync))));
    assert!(matches!(m.update_state_reply(a, Reply::Metrics(None)), Step::Done(Err(Error::Metrics))));
    assert!(matches!(refresh(&mut m, a, 1, None, None), Err(Error::Status)));
    assert!(matches!(refresh(&mut m, a, 1, Some(true), None), Err(Error::Metrics)));
    assert!(matches!(refresh(&mut m, a, 1, Some(false), None), Err(Error::Sync)));
    assert_eq!(Error::Sync.to_string(), "Sync");
    assert_eq!(Error::Metrics.to_string(), "Metrics");
    assert_eq!(Error::Status.to_string(), "Status");
    assert_eq!(Error::Rpc.to_string(), "RPC error");
}

#[test]
fn capabilities_that_were_not_asked_for_are_dropped() {
    let mut m = Monitor::new(&args(), Service::Kaspa);
    let a = node(TransportKind::WrpcBorsh, "h1").uid();
    m.update_nodes(&mut vec![node(TransportKind::WrpcBorsh, "h1")]).unwrap();
    bring_up(&mut m, a, 1, 0, 0);
    assert!(matches!(m.update_state_reply(a, Reply::Caps(Some(caps(9)))), Step::Call(Request::GetSync)));
    assert_eq!(m.connection(a).unwrap().system_id(), 1);
    assert_eq!(*m.delegates(), vec![(Delegate::new(1, mainnet()), a)]);
    assert!(matches!(m.update_state_reply(999, Reply::Caps(Some(caps(9)))), Step::Done(Err(Error::Status))));
}

#[test]
fn an_unsynced_delegate_makes_its_followers_unavailable() {
    let mut m = Monitor::new(&args(), Service::Kaspa);
    let a = node(TransportKind::WrpcBorsh, "h1").uid();
    let b = node(TransportKind::WrpcBorsh, "h2").uid();
    m.update_nodes(&mut vec![node(TransportKind::WrpcBorsh, "h1"), node(TransportKind::WrpcBorsh, "h2")]).unwrap();
    bring_up(&mut m, a, 5, 1, 1);
    bring_up(&mut m, b, 5, 1, 1);
    assert_eq!(m.connection(b).unwrap().link(), Some(a));
    assert!(m.connection(b).unwrap().is_available(m.fleet()));
    assert!(m.election(&borsh_tls()).is_some());
    assert_eq!(m.on_poll(a, 10, true), PollAction::Refresh);
    let ok = refresh(&mut m, a, 5, Some(false), None).is_ok();
    assert!(!ok);
    assert!(m.after_poll(a, ok));
    let ca = m.connection(a).unwrap();
    assert!(!ca.is_synced());
    assert!(!ca.is_online());
    assert_eq!(ca.status(), "syncing");
    assert!(!ca.is_available(m.fleet()));
    assert!(!m.connection(b).unwrap().is_available(m.fleet()));
    assert!(m.election(&borsh_tls()).is_none());
    assert!(m.is_sort_scheduled(&borsh_tls()));
    assert_eq!(m.on_poll(a, 20, true), PollAction::Refresh);
    let ok = refresh(&mut m, a, 5, Some(true), Some((2, 2))).is_ok();
    assert!(m.after_poll(a, ok));
    assert!(m.connection(a).unwrap().is_available(m.fleet()));
    assert!(m.connection(b).unwrap().is_available(m.fleet()));
    assert!(m.election(&borsh_tls()).is_some());
    assert!(!m.after_poll(a, true));
}

#[test]
fn an_epoch_that_outlived_its_time_to_live_ends_with_a_reconnect() {
    let mut m = Monitor::new(&args(), Service::Kaspa);
    let a = node(TransportKind::WrpcBorsh, "h1").uid();
    m.update_nodes(&mut vec![node(TransportKind::WrpcBorsh, "h1")]).unwrap();
    m.on_connect(a, 1_000, 66_000);
    let ok = refresh(&mut m, a, 0x42, Some(true), Some((1, 1))).is_ok();
    m.after_connect(a, ok);
    assert_eq!(m.delegates().len(), 1);
    assert_eq!(m.on_poll(a, 67_000, true), PollAction::Refresh);
    assert_eq!(m.on_poll(a, 67_001, false), PollAction::Refresh);
    assert!(m.connection(a).unwrap().caps().is_some());
    assert_eq!(m.on_poll(a, 67_001, true), PollAction::Reconnect);
    assert!(m.connection(a).unwrap().caps().is_none());
    assert!(m.delegates().is_empty());
    assert_eq!(m.on_poll(a, 70_000, true), PollAction::Refresh);
    m.on_disconnect(a);
    assert_eq!(m.on_poll(a, 70_000, true), PollAction::Idle);
    m.on_connect(a, 70_500, 54_000);
    let ok = refresh(&mut m, a, 0x42, Some(true), Some((1, 1))).is_ok();
    m.after_connect(a, ok);
    assert_eq!(*m.delegates(), vec![(Delegate::new(0x42, mainnet()), a)]);
    assert!(m.connection(a).unwrap().is_delegate());
    assert!(m.connection(a).unwrap().is_online());
    assert_eq!(m.on_poll(a, 124_500, true), PollAction::Refresh);
    assert_eq!(m.on_poll(a, 124_501, true), PollAction::Reconnect);
    assert_eq!(m.on_poll(12345, 0, true), PollAction::Idle);
}

#[test]
fn an_expired_epoch_of_a_disconnected_connection_calls_for_nothing() {
    let mut m = Monitor::new(&args(), Service::Kaspa);
    let a = node(TransportKind::WrpcBorsh, "h1").uid();
    m.update_nodes(&mut vec![node(TransportKind::WrpcBorsh, "h1")]).unwrap();
    assert_eq!(m.on_poll(a, 5, true), PollAction::Idle);
    m.on_connect(a, 0, 10);
    m.on_disconnect(a);
    assert_eq!(m.on_poll(a, 1000, true), PollAction::Idle);
    assert!(!m.connection(a).unwrap().is_connected());
}

#[test]
fn connect_and_disconnect_ask_for_a_sort() {
    let mut m = Monitor::new(&args(), Service::Kaspa);
    let a = node(TransportKind::WrpcBorsh, "h1").uid();
    m.update_nodes(&mut vec![node(TransportKind::WrpcBorsh, "h1")]).unwrap();
    let any = borsh_tls().to_tls(TlsKind::Any);
    assert!(!m.is_sort_scheduled(&borsh_tls()));
    m.on_connect(a, 0, 0);
    assert!(!m.is_sort_scheduled(&borsh_tls()));
    m.after_connect(a, false);
    assert!(m.is_sort_scheduled(&borsh_tls()));
    assert!(!m.connection(a).unwrap().is_online());
    m.sort_pending();
    m.after_connect(a, true);
    assert!(m.connection(a).unwrap().is_online());
    assert!(m.is_sort_scheduled(&borsh_tls()));
    assert!(m.is_sort_scheduled(&any));
    assert!(!m.is_sort_scheduled(&json_tls()));
    m.sort_pending();
    assert!(!m.is_sort_scheduled(&borsh_tls()));
    assert!(!m.is_sort_scheduled(&any));
    m.on_disconnect(a);
    assert!(m.is_sort_scheduled(&borsh_tls()));
    assert!(m.is_sort_scheduled(&any));
    let c = m.connection(a).unwrap();
    assert!(!c.is_connected());
    assert!(!c.is_online());
    m.on_disconnect(999);
    m.after_connect(999, true);
    assert!(!m.after_poll(999, true));
}

#[test]
fn scheduling_a_sort_marks_the_bucket_and_its_aggregate() {
    let mut m = Monitor::new(&args(), Service::Kaspa);
    let plain = borsh_tls().to_tls(TlsKind::Plain);
    let any = borsh_tls().to_tls(TlsKind::Any);
    m.schedule_sort(&plain);
    assert!(m.is_sort_scheduled(&plain));
    assert!(m.is_sort_scheduled(&any));
    assert!(!m.is_sort_scheduled(&borsh_tls()));
    let marked = PathParams::iter_tls_any().iter().filter(|p| m.is_sort_scheduled(p)).count();
    assert_eq!(marked, 2);
    m.schedule_sort(&plain);
    let marked = PathParams::iter_tls_any().iter().filter(|p| m.is_sort_scheduled(p)).count();
    assert_eq!(marked, 2);
    let grpc = PathParams::new(TransportKind::Grpc, TlsKind::Tls, mainnet());
    m.schedule_sort(&grpc);
    assert!(m.is_sort_scheduled(&grpc));
    assert!(m.is_sort_scheduled(&grpc.to_tls(TlsKind::Any)));
    let marked = PathParams::iter_tls_any().iter().filter(|p| m.is_sort_scheduled(p)).count();
    assert_eq!(marked, 4);
    m.schedule_sort(&any);
    assert!(!m.is_sort_scheduled(&borsh_tls()));
    let marked = PathParams::iter_tls_any().iter().filter(|p| m.is_sort_scheduled(p)).count();
    assert_eq!(marked, 4);
}

#[test]
fn buckets_are_sorted_by_score_and_ties_keep_their_order() {
    let mut m = Monitor::new(&args(), Service::Kaspa);
    let hosts = ["c1", "c2", "c3", "c4"];
    let ids: Vec<u64> = hosts.iter().map(|h| node(TransportKind::WrpcBorsh, h).uid()).collect();
    m.update_nodes(&mut hosts.iter().map(|h| node(TransportKind::WrpcBorsh, h)).collect()).unwrap();
    bring_up(&mut m, ids[0], 1, 10, 5);
    bring_up(&mut m, ids[1], 2, 2, 1);
    bring_up(&mut m, ids[2], 3, 2, 0);
    bring_up(&mut m, ids[3], 4, 1, 2);
    assert_eq!(uids(&m, &borsh_tls()), ids);
    m.sort_pending();
    let sorted = vec![ids[2], ids[1], ids[3], ids[0]];
    assert_eq!(uids(&m, &borsh_tls()), sorted);
    assert_eq!(uids(&m, &borsh_tls().to_tls(TlsKind::Any)), sorted);
    let scores: Vec<u64> = m.bucket(&borsh_tls()).unwrap().iter().map(|c| c.score(m.fleet())).collect();
    assert_eq!(scores, vec![2, 3, 3, 15]);
    m.sort_pending();
    assert_eq!(uids(&m, &borsh_tls()), sorted);
    let expected = [3usize, 2, 1, 0];
    for draw in 0..10u128 {
        let chosen = m.elect(&borsh_tls(), draw).unwrap();
        let position = sorted.iter().position(|u| *u == chosen.uid()).unwrap();
        let weight_before: usize = expected.iter().rev().take(position).map(|w| w + 1).sum();
        assert!(draw as usize >= weight_before);
    }
    assert_eq!(m.elect(&borsh_tls(), 0).unwrap().uid(), ids[2]);
    assert_eq!(m.elect(&borsh_tls(), 3).unwrap().uid(), ids[2]);
    assert_eq!(m.elect(&borsh_tls(), 4).unwrap().uid(), ids[1]);
    assert_eq!(m.elect(&borsh_tls(), 7).unwrap().uid(), ids[3]);
    assert_eq!(m.elect(&borsh_tls(), 9).unwrap().uid(), ids[0]);
    assert_eq!(m.elect(&borsh_tls(), 10).unwrap().uid(), ids[2]);
}

#[test]
fn three_connections_are_weighted_three_two_one() {
    let mut m = Monitor::new(&args(), Service::Kaspa);
    let hosts = ["c1", "c2", "c3"];
    let ids: Vec<u64> = hosts.iter().map(|h| node(TransportKind::WrpcBorsh, h).uid()).collect();
    m.update_nodes(&mut hosts.iter().map(|h| node(TransportKind::WrpcBorsh, h)).collect()).unwrap();
    bring_up(&mut m, ids[0], 1, 10, 5);
    bring_up(&mut m, ids[1], 2, 2, 1);
    bring_up(&mut m, ids[2], 3, 2, 0);
    m.sort_pending();
    assert_eq!(uids(&m, &borsh_tls()), vec![ids[2], ids[1], ids[0]]);
    let picks: Vec<u64> = (0..6).map(|d| m.elect(&borsh_tls(), d).unwrap().uid()).collect();
    assert_eq!(picks, vec![ids[2], ids[2], ids[2], ids[1], ids[1], ids[0]]);
    for _ in 0..50 {
        let json = m.election(&borsh_tls()).unwrap();
        let value: serde_json::Value = serde_json::from_str(&json).unwrap();
        let uid = u64::from_str_radix(value["uid"].as_str().unwrap(), 16).unwrap();
        let chosen = m.connection(uid).unwrap();
        assert!(chosen.is_delegate());
        assert!(chosen.is_available(m.fleet()));
        assert_eq!(value["url"].as_str().unwrap(), chosen.address());
    }
}

#[test]
fn only_available_delegates_are_elected() {
    let mut m = Monitor::new(&args(), Service::Kaspa);
    let hosts = ["c1", "c2", "c3"];
    let ids: Vec<u64> = hosts.iter().map(|h| node(TransportKind::WrpcBorsh, h).uid()).collect();
    m.update_nodes(&mut hosts.iter().map(|h| node(TransportKind::WrpcBorsh, h)).collect()).unwrap();
    assert!(m.elect(&borsh_tls(), 0).is_none());
    bring_up(&mut m, ids[0], 1, 4000, 0);
    bring_up(&mut m, ids[1], 2, 1, 1);
    bring_up(&mut m, ids[2], 2, 1, 1);
    let list: Vec<u64> = m.candidates(&borsh_tls()).iter().map(|c| c.uid()).collect();
    assert_eq!(list, vec![ids[1]]);
    for draw in 0..5 {
        let c = m.elect(&borsh_tls(), draw).unwrap();
        assert_eq!(c.uid(), ids[1]);
        assert!(c.is_delegate() && c.is_available(m.fleet()));
    }
    m.on_disconnect(ids[1]);
    assert!(m.elect(&borsh_tls(), 0).is_none());
    assert!(m.election(&borsh_tls()).is_none());
    assert!(m.election(&PathParams::new(TransportKind::Grpc, TlsKind::Tls, mainnet())).is_none());
}

#[test]
fn removing_the_delegate_lets_the_others_elect_anew() {
    let mut m = Monitor::new(&args(), Service::Kaspa);
    let a = node(TransportKind::WrpcBorsh, "h1").uid();
    let b = node(TransportKind::WrpcBorsh, "h2").uid();
    m.update_nodes(&mut vec![node(TransportKind::WrpcBorsh, "h1"), node(TransportKind::WrpcBorsh, "h2")]).unwrap();
    bring_up(&mut m, a, 5, 1, 1);
    bring_up(&mut m, b, 5, 1, 1);
    assert_eq!(m.connection(b).unwrap().link(), Some(a));
    let delta = m.update_nodes(&mut vec![node(TransportKind::WrpcBorsh, "h2")]).unwrap();
    assert_eq!(delta.stopped, vec![a]);
    assert!(m.delegates().is_empty());
    let cb = m.connection(b).unwrap();
    assert!(cb.is_delegate());
    assert!(cb.caps().is_none());
    assert!(matches!(m.update_state(b), Step::Call(Request::GetCaps)));
    assert!(refresh(&mut m, b, 5, Some(true), Some((1, 1))).is_ok());
    assert_eq!(*m.delegates(), vec![(Delegate::new(5, mainnet()), b)]);
    assert!(m.remove(b).is_some());
    assert!(m.remove(b).is_none());
    assert!(m.delegates().is_empty());
    assert!(uids(&m, &borsh_tls()).is_empty());
}

#[test]
fn setting_a_link_by_hand_resets_what_the_connection_knows() {
    let mut m = Monitor::new(&args(), Service::Kaspa);
    let a = node(TransportKind::WrpcBorsh, "h1").uid();
    let b = node(TransportKind::WrpcBorsh, "h2").uid();
    m.update_nodes(&mut vec![node(TransportKind::WrpcBorsh, "h1"), node(TransportKind::WrpcBorsh, "h2")]).unwrap();
    bring_up(&mut m, a, 1, 1, 1);
    bring_up(&mut m, b, 2, 1, 1);
    assert_eq!(m.delegates().len(), 2);
    assert!(m.bind_delegate(a, Some(b)));
    assert_eq!(*m.delegates(), vec![(Delegate::new(2, mainnet()), b)]);
    assert!(m.connection(a).unwrap().caps().is_none());
    assert_eq!(m.connection(a).unwrap().link(), Some(b));
    assert!(!m.bind_delegate(b, Some(a)));
    assert!(!m.bind_delegate(a, Some(a)));
    assert!(!m.bind_delegate(a, Some(999)));
    assert_eq!(m.delegates().len(), 1);
    assert!(m.bind_delegate(a, None));
    assert!(m.connection(a).unwrap().is_delegate());
    m.cross_bind();
    assert!(m.connection(a).unwrap().is_delegate());
}

#[test]
fn a_connection_can_ask_for_its_buckets_to_be_sorted() {
    let mut m = Monitor::new(&args(), Service::Kaspa);
    let a = node(TransportKind::WrpcJson, "h1").uid();
    m.update_nodes(&mut vec![node(TransportKind::WrpcJson, "h1")]).unwrap();
    let gone = m.remove(a).unwrap();
    gone.update(&mut m);
    assert!(m.is_sort_scheduled(&json_tls()));
    assert!(m.is_sort_scheduled(&json_tls().to_tls(TlsKind::Any)));
    assert!(!m.is_sort_scheduled(&borsh_tls()));
}
