use kaspa_resolver::args::Action;
use kaspa_resolver::args::Args;
use kaspa_resolver::network::NetworkId;
use kaspa_resolver::network::NetworkType;
use kaspa_resolver::node::Node;
use kaspa_resolver::params::PathParams;
use kaspa_resolver::probe::Reply;
use kaspa_resolver::probe::Request;
use kaspa_resolver::probe::Step;
use kaspa_resolver::resolver::BundleOutcome;
use kaspa_resolver::resolver::Events;
use kaspa_resolver::resolver::Resolver;
use kaspa_resolver::resolver::UpdateAction;
use kaspa_resolver::resolver::UpdateSource;
use kaspa_resolver::rpc::Caps;
use kaspa_resolver::rpc::Connections;
use kaspa_resolver::services::Service;
use kaspa_resolver::settings::BundleMemo;
use kaspa_resolver::settings::TtlSettings;
use kaspa_resolver::transport::TlsKind;
use kaspa_resolver::transport::Transport;
use kaspa_resolver::transport::TransportKind;
use kaspa_resolver::error::Error;

fn args(auto_update: bool) -> Args {
    Args {
        listen: "127.0.0.1:8989".to_string(),
        rate_limit: None,
        verbose: false,
        trace: false,
        auto_update,
        public: false,
        user_config: None,
        action: Action::Run,
    }
}

fn node(service: Service, host: &str) -> Node {
    let t = Transport::new(TransportKind::WrpcBorsh, true, "wss://${fqdn}/${service}".to_string());
    let network = NetworkId::new(NetworkType::Mainnet);
    let address = t.make_address(host, &service, &network);
    Node::new(&service, network, &t, host, &address)
}

fn borsh_tls() -> PathParams {
    PathParams::new(TransportKind::WrpcBorsh, TlsKind::Tls, NetworkId::new(NetworkType::Mainnet))
}

#[test]
fn updates_take_their_configuration_from_the_right_source() {
    let auto = Resolver::try_new(args(true)).unwrap();
    let manual = Resolver::try_new(args(false)).unwrap();
    assert!(auto.args().auto_update);
    assert_eq!(auto.plan_update(true, true), UpdateSource::UserConfig);
    assert_eq!(auto.plan_update(false, true), UpdateSource::Skip);
    assert_eq!(manual.plan_update(true, true), UpdateSource::UserConfig);
    assert_eq!(manual.plan_update(false, true), UpdateSource::Skip);
    assert_eq!(auto.plan_update(true, false), UpdateSource::AutoUpdate);
    assert_eq!(auto.plan_update(false, false), UpdateSource::AutoUpdate);
    assert_eq!(manual.plan_update(true, false), UpdateSource::LocalConfig);
    assert_eq!(manual.plan_update(false, false), UpdateSource::LocalConfig);
    assert!(Events::Start.is_first());
    assert!(!Events::Update.is_first());
}

#[test]
fn a_failed_fetch_falls_back_on_the_first_update_only() {
    assert_eq!(Resolver::after_fetch(true, BundleOutcome::Changed), UpdateAction::Apply);
    assert_eq!(Resolver::after_fetch(false, BundleOutcome::Changed), UpdateAction::Apply);
    assert_eq!(Resolver::after_fetch(true, BundleOutcome::Unchanged), UpdateAction::Skip);
    assert_eq!(Resolver::after_fetch(false, BundleOutcome::Unchanged), UpdateAction::Skip);
    assert_eq!(Resolver::after_fetch(true, BundleOutcome::Failed), UpdateAction::Fallback);
    assert_eq!(Resolver::after_fetch(false, BundleOutcome::Failed), UpdateAction::Fail);
}

#[test]
fn each_monitor_takes_the_nodes_of_its_service() {
    let mut r = Resolver::try_new(args(false)).unwrap();
    let list = vec![
        node(Service::Sparkle, "s1"),
        node(Service::Kaspa, "k1"),
        node(Service::Kaspa, "k2"),
        node(Service::Sparkle, "s2"),
    ];
    let ids: Vec<u64> = list.iter().map(|n| n.uid()).collect();
    let out = r.update_nodes(list).unwrap();
    assert!(out.dangling.is_empty());
    assert_eq!(out.kaspa.started, vec![ids[1], ids[2]]);
    assert_eq!(out.sparkle.started, vec![ids[0], ids[3]]);
    assert!(out.kaspa.stopped.is_empty());
    assert_eq!(r.monitor(Service::Kaspa).fleet().len(), 2);
    assert_eq!(r.monitor(Service::Sparkle).fleet().len(), 2);
    assert_eq!(r.monitor(Service::Kaspa).service(), Service::Kaspa);
    assert_eq!(r.monitor(Service::Sparkle).service(), Service::Sparkle);
    let all: Vec<u64> = r.connections().iter().map(|c| c.uid()).collect();
    assert_eq!(all, vec![ids[1], ids[2], ids[0], ids[3]]);
    let next = r.update_nodes(vec![node(Service::Kaspa, "k2")]).unwrap();
    assert_eq!(next.kaspa.stopped, vec![ids[1]]);
    assert_eq!(next.sparkle.stopped, vec![ids[0], ids[3]]);
    assert!(next.kaspa.started.is_empty());
    assert_eq!(r.connections().len(), 1);
}

#[test]
fn a_refused_node_keeps_every_fleet_as_it_is() {
    let mut r = Resolver::try_new(args(false)).unwrap();
    r.update_nodes(vec![node(Service::Kaspa, "k1"), node(Service::Sparkle, "s1")]).unwrap();
    let uids = |r: &Resolver| r.connections().iter().map(|c| c.uid()).collect::<Vec<u64>>();
    let before = uids(&r);
    let t = Transport::new(TransportKind::Grpc, true, "grpc://${fqdn}".to_string());
    let network = NetworkId::new(NetworkType::Mainnet);
    let grpc = Node::new(&Service::Sparkle, network, &t, "g", "grpc://g");
    let result = r.update_nodes(vec![node(Service::Kaspa, "k2"), grpc]);
    assert!(matches!(result, Err(Error::ConnectionProtocolEncoding)));
    assert_eq!(uids(&r), before);
    assert_eq!(r.monitor(Service::Kaspa).fleet().len(), 1);
    let next = r.update_nodes(vec![node(Service::Kaspa, "k2")]).unwrap();
    assert_eq!(next.kaspa.started.len(), 1);
    assert_eq!(next.sparkle.stopped.len(), 1);
}

#[test]
fn elections_are_held_by_the_monitor_of_the_service() {
    let mut r = Resolver::try_new(args(false)).unwrap();
    let k = node(Service::Kaspa, "k1");
    let (uid, uid_text, address) = (k.uid(), k.uid_as_str().to_string(), k.address().to_string());
    r.update_nodes(vec![k]).unwrap();
    assert!(r.get_elected_kaspa(&borsh_tls()).is_none());
    assert!(r.get_elected_sparkle(&borsh_tls()).is_none());
    let m = r.monitor_mut(Service::Kaspa);
    m.on_connect(uid, 0, 0);
    assert!(matches!(m.update_state(uid), Step::Call(Request::GetCaps)));
    let caps = Caps::from_system_info("v".to_string(), None, None, 2, 0, 4096);
    m.update_state_reply(uid, Reply::Caps(Some(caps)));
    m.update_state_reply(uid, Reply::Sync(Some(true)));
    m.update_state_reply(uid, Reply::Metrics(Some(Connections { clients: 1, peers: 0 })));
    m.after_connect(uid, true);
    assert_eq!(
        r.get_elected_kaspa(&borsh_tls()).unwrap(),
        format!("{{\"uid\":\"{uid_text}\",\"url\":\"{address}\"}}")
    );
    assert_eq!(address, "wss://k1/kaspa");
    assert!(r.get_elected_sparkle(&borsh_tls()).is_none());
    assert!(r.get_elected_kaspa(&borsh_tls().to_tls(TlsKind::Any)).is_some());
    assert!(r.get_elected_kaspa(&borsh_tls().to_tls(TlsKind::Plain)).is_none());
}

#[test]
fn time_to_live_is_the_period_shifted_by_the_draw() {
    let s = TtlSettings { enable: true, period_msec: 60_000, range_msec: 6_000 };
    assert!(s.enable());
    assert_eq!(s.ttl_with(0), 54_000);
    assert_eq!(s.ttl_with(6_000), 60_000);
    assert_eq!(s.ttl_with(12_000), 66_000);
    let wide = TtlSettings { enable: false, period_msec: 10, range_msec: 100 };
    assert!(!wide.enable());
    assert_eq!(wide.ttl_with(0), 0);
    assert_eq!(wide.ttl_with(90), 0);
    assert_eq!(wide.ttl_with(91), 1);
    let top = TtlSettings { enable: true, period_msec: u64::MAX, range_msec: 1 };
    assert_eq!(top.ttl_with(2), u64::MAX);
    assert_eq!(top.ttl_with(0), u64::MAX - 1);
}

#[test]
fn random_time_to_live_stays_within_the_noise() {
    let s = TtlSettings { enable: true, period_msec: 60_000, range_msec: 6_000 };
    let mut low = false;
    let mut high = false;
    for _ in 0..2000 {
        let ttl = s.ttl();
        assert!((54_000..=66_000).contains(&ttl));
        low |= ttl < 60_000;
        high |= ttl > 60_000;
    }
    assert!(low && high);
    let fixed = TtlSettings { enable: true, period_msec: 1234, range_msec: 0 };
    assert_eq!(fixed.ttl(), 1234);
}

#[test]
fn an_unchanged_bundle_is_not_read_again() {
    let data: Vec<u8> = (0u8..24).collect();
    let mut memo = BundleMemo::new();
    assert!(memo.digest().is_none());
    assert!(matches!(memo.observe(&data), Ok(true)));
    let digest = memo.digest().unwrap().clone();
    assert_eq!(digest.len(), 32);
    assert_eq!(
        kaspa_resolver::text::format_hex_bytes(&digest),
        "1d64add2a6388367c9bc2d1f1b384b069a6ef382cdaaa89771dd103e28613a25"
    );
    assert!(matches!(memo.observe(&data), Ok(false)));
    assert!(matches!(memo.observe(&data), Ok(false)));
    let mut other = data.clone();
    other[23] = 99;
    assert!(matches!(memo.observe(&other), Ok(true)));
    assert_ne!(*memo.digest().unwrap(), digest);
    assert!(matches!(memo.observe(&data), Ok(true)));
    assert_eq!(*memo.digest().unwrap(), digest);
}

#[test]
fn digests_are_remembered_one_at_a_time() {
    let mut memo = BundleMemo::new();
    assert!(memo.remember(vec![1, 2, 3]));
    assert!(!memo.remember(vec![1, 2, 3]));
    assert!(memo.remember(vec![1, 2]));
    assert_eq!(*memo.digest().unwrap(), vec![1, 2]);
    assert!(memo.remember(vec![]));
    assert!(!memo.remember(vec![]));
}

#[test]
fn a_bundle_that_is_too_short_is_an_error() {
    let mut memo = BundleMemo::new();
    match memo.observe(&[1u8; 23]) {
        Err(Error::Config(message)) => assert_eq!(message, "Update: invalid data length: 23"),
        other => panic!("unexpected: {other:?}"),
    }
    assert!(memo.digest().is_none());
    assert!(matches!(memo.observe(&[]), Err(Error::Config(m)) if m == "Update: invalid data length: 0"));
    assert!(matches!(memo.observe(&[1u8; 24]), Ok(true)));
    assert!(matches!(memo.observe(&[1u8; 23]), Err(_)));
    assert!(matches!(memo.observe(&[1u8; 24]), Ok(false)));
}
