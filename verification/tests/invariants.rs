use kaspa_resolver::args::Action;
use kaspa_resolver::args::Args;
use kaspa_resolver::delegate::Delegate;
use kaspa_resolver::monitor::Monitor;
use kaspa_resolver::network::NetworkId;
use kaspa_resolver::network::NetworkType;
use kaspa_resolver::node::Node;
use kaspa_resolver::probe::PollAction;
use kaspa_resolver::probe::Reply;
use kaspa_resolver::probe::Request;
use kaspa_resolver::probe::Step;
use kaspa_resolver::rpc::Caps;
use kaspa_resolver::rpc::Connections;
use kaspa_resolver::services::Service;
use kaspa_resolver::transport::TlsKind;
use kaspa_resolver::transport::Transport;
use kaspa_resolver::transport::TransportKind;
use rand::rngs::StdRng;
use rand::Rng;
use rand::SeedableRng;

fn args() -> Args {
    Args {
        listen: String::new(),
        rate_limit: None,
        verbose: false,
        trace: false,
        auto_update: false,
        public: false,
        user_config: None,
        action: Action::Run,
    }
}

fn node(host: usize, json: bool, tls: bool, testnet: bool) -> Node {
    let kind = if json { TransportKind::WrpcJson } else { TransportKind::WrpcBorsh };
    let network = if testnet {
        NetworkId::with_suffix(NetworkType::Testnet, 10)
    } else {
        NetworkId::new(NetworkType::Mainnet)
    };
    let t = Transport::new(kind, tls, "${fqdn}/${network}/${encoding}".to_string());
    let fqdn = format!("h{host}.example.org");
    let scheme = if tls { "wss://" } else { "ws://" };
    let address = format!("{scheme}{}", t.make_address(&fqdn, &Service::Kaspa, &network));
    Node::new(&Service::Kaspa, network, &t, &fqdn, &address)
}

fn random_nodes(rng: &mut StdRng) -> Vec<Node> {
    let mut list = Vec::new();
    for host in 0..6 {
        for json in [false, true] {
            for tls in [false, true] {
                if rng.gen_range(0..3) > 0 {
                    list.push(node(host, json, tls, rng.gen_range(0..4) == 0));
                }
            }
        }
    }
    list
}

fn refresh(m: &mut Monitor, uid: u64, rng: &mut StdRng) -> bool {
    let mut step = m.update_state(uid);
    for _ in 0..5 {
        let request = match step {
            Step::Done(result) => return result.is_ok(),
            Step::Call(request) => request,
        };
        let fails = rng.gen_range(0..6) == 0;
        let reply = match request {
            Request::Ping => Reply::Ping(!fails),
            Request::GetCaps => Reply::Caps((!fails).then(|| {
                let id: u64 = rng.gen_range(1..4);
                Caps::from_system_info("v".to_string(), Some(id.to_be_bytes().to_vec()), None, 2, 0, 4096)
            })),
            Request::GetSync => Reply::Sync((!fails).then(|| rng.gen_range(0..4) > 0)),
            Request::GetActiveConnections => Reply::Metrics(
                (!fails).then(|| Connections { clients: rng.gen_range(0..2000), peers: rng.gen_range(0..2000) }),
            ),
        };
        step = m.update_state_reply(uid, reply);
    }
    panic!("a refresh takes at most four calls");
}

fn check(m: &Monitor) {
    let fleet = m.fleet();
    let all = fleet.connections();
    let n = all.len();
    // identities are distinct
    for (i, a) in all.iter().enumerate() {
        for b in all.iter().skip(i + 1) {
            assert_ne!(a.uid(), b.uid());
        }
    }
    // every connection is in its own bucket and in the aggregate, nowhere else
    for c in all.iter() {
        for (params, bucket) in m.connections().iter() {
            let listed = bucket.iter().filter(|x| x.uid() == c.uid()).count();
            let belongs = *params == c.params() || *params == c.params().to_tls(TlsKind::Any);
            assert_eq!(listed, if belongs { 1 } else { 0 });
        }
    }
    for (_, bucket) in m.connections().iter() {
        for c in bucket.iter() {
            assert!(fleet.find(c.uid()).is_some());
        }
    }
    // links end within as many hops as there are connections
    for (i, c) in all.iter().enumerate() {
        let chain = c.resolve_delegators(fleet);
        assert!(chain.len() < n.max(1));
        let terminal = fleet.get(fleet.terminal_index(i));
        assert!(terminal.is_delegate());
        assert_eq!(c.delegate(fleet).uid(), terminal.uid());
        if let Some(last) = chain.last() {
            assert_eq!(last.uid(), terminal.uid());
            assert!(!c.is_delegate());
        } else {
            assert!(c.is_delegate());
        }
        if c.is_available(fleet) {
            let d = c.delegate(fleet);
            assert!(c.is_connected() && d.is_online());
            let caps = d.caps().unwrap();
            assert!(d.clients() < caps.capacity());
            assert!(d.clients() + d.peers() < caps.fd_limit());
        }
    }
    // the registry names each physical node once, and the connection that speaks for it
    let registry = m.delegates();
    for (i, (key, uid)) in registry.iter().enumerate() {
        for (other, _) in registry.iter().skip(i + 1) {
            assert_ne!(key, other);
        }
        let c = m.connection(*uid).unwrap();
        assert!(c.is_delegate());
        assert_eq!(Delegate::new(c.caps().unwrap().system_id(), c.network_id()), *key);
    }
    for c in all.iter() {
        if c.is_delegate() && c.caps().is_some() {
            let key = Delegate::new(c.system_id(), c.network_id());
            assert!(registry.contains(&(key, c.uid())));
        }
    }
    // whoever can be elected defers to nobody and is available
    for (params, _) in m.connections().iter() {
        for c in m.candidates(params) {
            assert!(c.is_delegate() && c.is_available(fleet));
        }
        let n = m.candidates(params).len();
        for draw in 0..(n * (n + 1) / 2) as u128 {
            let chosen = m.elect(params, draw).unwrap();
            assert!(chosen.is_delegate() && chosen.is_available(fleet));
        }
        assert_eq!(m.elect(params, 0).is_none(), n == 0);
        assert_eq!(m.election(params).is_none(), n == 0);
    }
}

fn check_sorted(m: &Monitor) {
    for (params, bucket) in m.connections().iter() {
        assert!(!m.is_sort_scheduled(params));
        let scores: Vec<u64> = bucket.iter().map(|c| c.score(m.fleet())).collect();
        assert!(scores.windows(2).all(|w| w[0] <= w[1]));
    }
}

#[test]
fn the_state_stays_consistent_under_any_sequence_of_events() {
    for seed in 0..20u64 {
        let mut rng = StdRng::seed_from_u64(seed);
        let mut m = Monitor::new(&args(), Service::Kaspa);
        let mut now = 0u64;
        for _ in 0..120 {
            now += rng.gen_range(0..20_000);
            let uids: Vec<u64> = m.fleet().connections().iter().map(|c| c.uid()).collect();
            let pick = |rng: &mut StdRng| uids.get(rng.gen_range(0..uids.len().max(1))).copied().unwrap_or(7);
            match rng.gen_range(0..10) {
                0 => {
                    let mut list = random_nodes(&mut rng);
                    let wanted: Vec<u64> = list.iter().map(|n| n.uid()).collect();
                    let delta = m.update_nodes(&mut list).unwrap();
                    assert!(list.is_empty());
                    for uid in delta.stopped.iter() {
                        assert!(uids.contains(uid) && !wanted.contains(uid));
                    }
                    for uid in delta.started.iter() {
                        assert!(!uids.contains(uid) && wanted.contains(uid));
                    }
                    let after: Vec<u64> = m.fleet().connections().iter().map(|c| c.uid()).collect();
                    let mut expected = wanted.clone();
                    expected.sort();
                    expected.dedup();
                    let mut got = after.clone();
                    got.sort();
                    assert_eq!(got, expected);
                    let links: Vec<Option<u64>> = m.fleet().connections().iter().map(|c| c.link()).collect();
                    let mut same = random_nodes(&mut StdRng::seed_from_u64(0));
                    same.clear();
                    for uid in wanted.iter() {
                        if let Some(c) = m.connection(*uid) {
                            same.push(c.node().clone());
                        }
                    }
                    let again = m.update_nodes(&mut same).unwrap();
                    assert!(again.started.is_empty() && again.stopped.is_empty());
                    let links_again: Vec<Option<u64>> = m.fleet().connections().iter().map(|c| c.link()).collect();
                    assert_eq!(links, links_again);
                }
                1 | 2 => {
                    let uid = pick(&mut rng);
                    m.on_connect(uid, now, rng.gen_range(1_000..60_000));
                    let ok = refresh(&mut m, uid, &mut rng);
                    m.after_connect(uid, ok);
                }
                3 => m.on_disconnect(pick(&mut rng)),
                4 | 5 | 6 => {
                    let uid = pick(&mut rng);
                    match m.on_poll(uid, now, rng.gen_range(0..2) == 0) {
                        PollAction::Refresh => {
                            let ok = refresh(&mut m, uid, &mut rng);
                            m.after_poll(uid, ok);
                        }
                        PollAction::Reconnect => m.on_disconnect(uid),
                        PollAction::Idle => {}
                    }
                }
                7 => {
                    let target = if rng.gen_range(0..3) == 0 { None } else { Some(pick(&mut rng)) };
                    m.bind_delegate(pick(&mut rng), target);
                }
                8 => {
                    m.remove(pick(&mut rng));
                }
                _ => {
                    m.sort_pending();
                    m.cross_bind();
                }
            }
            check(&m);
        }
        m.sort_pending();
        let scheduled = m.connections().iter().filter(|(p, _)| m.is_sort_scheduled(p)).count();
        assert_eq!(scheduled, 0);
        check(&m);
        for (params, _) in m.connections().iter().map(|(p, l)| (*p, l.len())).collect::<Vec<_>>() {
            m.schedule_sort(&params);
        }
        m.sort_pending();
        check_sorted(&m);
    }
}
