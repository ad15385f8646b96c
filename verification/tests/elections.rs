use kaspa_resolver::args::Action;
use kaspa_resolver::args::Args;
use kaspa_resolver::connection::Connection;
use kaspa_resolver::election::frame_output;
use kaspa_resolver::election::pick_weighted;
use kaspa_resolver::election::select_with_weighted_rng;
use kaspa_resolver::election::weight_sum;
use kaspa_resolver::election::Output;
use kaspa_resolver::network::NetworkId;
use kaspa_resolver::network::NetworkType;
use kaspa_resolver::node::Node;
use kaspa_resolver::services::Service;
use kaspa_resolver::transport::Transport;
use kaspa_resolver::transport::TransportKind;

fn conn(address: &str) -> Connection {
    let args = Args {
        listen: String::new(),
        rate_limit: None,
        verbose: false,
        trace: false,
        auto_update: false,
        public: false,
        user_config: None,
        action: Action::Run,
    };
    let t = Transport::new(TransportKind::WrpcBorsh, true, "unused".to_string());
    let node = Node::new(&Service::Kaspa, NetworkId::new(NetworkType::Mainnet), &t, "h", address);
    Connection::try_new(node, &args).unwrap()
}

#[test]
fn total_weight_is_the_triangular_number() {
    assert_eq!(weight_sum(0), 0);
    assert_eq!(weight_sum(1), 1);
    assert_eq!(weight_sum(3), 6);
    assert_eq!(weight_sum(10), 55);
    assert_eq!(weight_sum(usize::MAX), (usize::MAX as u128) * (usize::MAX as u128 + 1) / 2);
}

#[test]
fn each_position_takes_as_many_draws_as_its_weight() {
    for n in 1..=12usize {
        let total = weight_sum(n);
        let mut counts = vec![0u128; n];
        for draw in 0..total {
            counts[pick_weighted(n, draw)] += 1;
        }
        for i in 0..n {
            assert_eq!(counts[i], (n - i) as u128);
        }
        assert_eq!(counts.iter().sum::<u128>(), (n * (n + 1) / 2) as u128);
    }
}

#[test]
fn draws_pick_positions_in_order() {
    let picks: Vec<usize> = (0..6).map(|d| pick_weighted(3, d)).collect();
    assert_eq!(picks, vec![0, 0, 0, 1, 1, 2]);
    assert_eq!(pick_weighted(1, 0), 0);
    assert_eq!(pick_weighted(4, 9), 3);
    assert_eq!(pick_weighted(4, 3), 0);
    assert_eq!(pick_weighted(4, 4), 1);
}

#[test]
fn draws_beyond_the_total_weight_pick_the_first() {
    assert_eq!(pick_weighted(3, 6), 0);
    assert_eq!(pick_weighted(3, u128::MAX), 0);
    assert_eq!(pick_weighted(0, 0), 0);
}

#[test]
fn random_selection_favours_the_first_candidates() {
    let a = conn("a");
    let b = conn("b");
    let c = conn("c");
    let nodes = vec![&a, &b, &c];
    let mut counts = [0u32; 3];
    let trials = 12000;
    for _ in 0..trials {
        let chosen = select_with_weighted_rng(&nodes);
        let i = nodes.iter().position(|n| n.uid() == chosen.uid()).unwrap();
        counts[i] += 1;
    }
    assert_eq!(counts.iter().sum::<u32>(), trials);
    assert!(counts[0] > 5400 && counts[0] < 6600);
    assert!(counts[1] > 3500 && counts[1] < 4500);
    assert!(counts[2] > 1600 && counts[2] < 2400);
    let single = vec![&b];
    assert_eq!(select_with_weighted_rng(&single).uid(), b.uid());
}

#[test]
fn output_is_a_json_object_with_uid_and_url() {
    let c = conn("wss://n1.example.org/kaspa/mainnet/wrpc/borsh");
    let out = Output::from_connection(&c);
    assert_eq!(out.uid, c.node().uid_as_str());
    assert_eq!(out.url, "wss://n1.example.org/kaspa/mainnet/wrpc/borsh");
    let json = out.to_json().unwrap();
    assert_eq!(
        json,
        format!(
            "{{\"uid\":\"{}\",\"url\":\"wss://n1.example.org/kaspa/mainnet/wrpc/borsh\"}}",
            c.node().uid_as_str()
        )
    );
    let value: serde_json::Value = serde_json::from_str(&json).unwrap();
    assert_eq!(value["uid"].as_str().unwrap().len(), 16);
    assert_eq!(value["url"].as_str().unwrap(), c.address());
}

#[test]
fn the_output_frame_takes_json_texts_as_they_are() {
    assert_eq!(frame_output("\"a\"", "\"b\""), "{\"uid\":\"a\",\"url\":\"b\"}");
    assert_eq!(frame_output("1", "null"), "{\"uid\":1,\"url\":null}");
}

#[test]
fn output_escapes_what_json_requires() {
    let out = Output { uid: "00", url: "a\"b\\c\nd" };
    let json = out.to_json().unwrap();
    assert_eq!(json, "{\"uid\":\"00\",\"url\":\"a\\\"b\\\\c\\nd\"}");
    let value: serde_json::Value = serde_json::from_str(&json).unwrap();
    assert_eq!(value["url"].as_str().unwrap(), "a\"b\\c\nd");
}
