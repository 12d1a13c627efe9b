use pazuzu::addr::parse_cidr;
use pazuzu::api::{authorized, same_text, xdp_mode, XdpMode};
use pazuzu::maps::Stats;
use pazuzu::metrics::render_metrics;
use pazuzu::rules::{block_cidr, block_ip, RuleStore};

#[test]
fn no_key_configured_lets_everything_through() {
    assert!(authorized(None, "/stats", None));
    assert!(authorized(None, "/rules/batch", Some("anything")));
}

#[test]
fn configured_key_is_required_but_for_health() {
    let key = Some("pazuzu-dev-key");
    assert!(authorized(key, "/health", None));
    assert!(authorized(key, "/stats", Some("pazuzu-dev-key")));
    assert!(!authorized(key, "/stats", None));
    assert!(!authorized(key, "/stats", Some("pazuzu-dev-ke")));
    assert!(!authorized(key, "/stats", Some("pazuzu-dev-key ")));
    assert!(!authorized(key, "/healthz", None));
    assert!(!authorized(key, "/Health", None));
}

#[test]
fn texts_compare_exactly() {
    assert!(same_text("", ""));
    assert!(same_text("héllo", "héllo"));
    assert!(!same_text("héllo", "hello"));
    assert!(!same_text("ab", "abc"));
}

#[test]
fn attach_modes() {
    assert_eq!(xdp_mode("native"), Some(XdpMode::Native));
    assert_eq!(xdp_mode("skb"), Some(XdpMode::Skb));
    assert_eq!(xdp_mode("Native"), None);
    assert_eq!(xdp_mode("hw"), None);
    assert_eq!(xdp_mode(""), None);
}

#[test]
fn metrics_page_lists_counters_and_rule_state() {
    let stats = Stats {
        pass: 10,
        drop_block_ip: 2,
        drop_block_cidr: 3,
        drop_rate: 0,
        drop_sig_tcp: 18446744073709551615,
        parse_err: 7,
    };
    let page = render_metrics(&stats, 42, 3, 1);
    let expected = "# TYPE pazuzu_pass_total counter\npazuzu_pass_total 10\n\
# TYPE pazuzu_drop_block_ip_total counter\npazuzu_drop_block_ip_total 2\n\
# TYPE pazuzu_drop_block_cidr_total counter\npazuzu_drop_block_cidr_total 3\n\
# TYPE pazuzu_drop_rate_total counter\npazuzu_drop_rate_total 0\n\
# TYPE pazuzu_drop_sig_tcp_total counter\npazuzu_drop_sig_tcp_total 18446744073709551615\n\
# TYPE pazuzu_parse_err_total counter\npazuzu_parse_err_total 7\n\
# TYPE pazuzu_rules_epoch gauge\npazuzu_rules_epoch 42\n\
# TYPE pazuzu_blocked_ips gauge\npazuzu_blocked_ips 3\n\
# TYPE pazuzu_blocked_cidrs gauge\npazuzu_blocked_cidrs 1\n";
    assert_eq!(page, expected);
}

#[test]
fn store_counts_distinct_entries() {
    let mut store = RuleStore::new(0);
    for ip in ["1.1.1.1", "2.2.2.2", "1.1.1.1"] {
        store.apply(&block_ip(ip).unwrap());
    }
    store.apply(&block_cidr("1.0.0.0/8").unwrap());
    store.apply(&block_cidr("1.0.0.0/+8").unwrap());
    assert_eq!(store.blocked_ip_count(), 2);
    assert_eq!(store.blocked_cidr_count(), 1);
}

#[test]
fn lpm_key_bytes_follow_the_map_layout() {
    let k = parse_cidr("192.168.0.0/16").unwrap();
    let b = k.to_bytes();
    let mut expected = 16u32.to_ne_bytes().to_vec();
    expected.extend_from_slice(&[192, 168, 0, 0]);
    assert_eq!(b, expected);
}
