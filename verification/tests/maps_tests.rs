use pazuzu::maps::{
    bump_epoch, encode_epoch, read_epoch, read_stats, read_tcp_signature_cfg,
    set_tcp_signature_cfg, RateLimitCfg, TcpSignatureReq,
};
use pazuzu::tally::DecisionTally;

#[test]
fn tcp_signature_value_round_trips() {
    for (n, x) in [(false, false), (false, true), (true, false), (true, true)] {
        let req = TcpSignatureReq { block_null_scan: n, block_xmas_scan: x };
        let cfg = set_tcp_signature_cfg(&req);
        let bytes = cfg.to_bytes();
        assert_eq!(bytes, vec![n as u8, x as u8, 0, 0, 0, 0, 0, 0]);
        let back = read_tcp_signature_cfg(&bytes);
        assert_eq!(back.block_null_scan, n);
        assert_eq!(back.block_xmas_scan, x);
    }
    let r = read_tcp_signature_cfg(&[7, 0, 9, 9, 9, 9, 9, 9]);
    assert!(r.block_null_scan && !r.block_xmas_scan);
}

#[test]
fn epoch_bumps_and_saturates() {
    assert_eq!(bump_epoch(Some(5)), 6);
    assert_eq!(bump_epoch(None), 1);
    assert_eq!(bump_epoch(Some(0)), 1);
    assert_eq!(bump_epoch(Some(u64::MAX)), u64::MAX);
    assert_eq!(bump_epoch(Some(u64::MAX - 1)), u64::MAX);
}

#[test]
fn epoch_value_round_trips() {
    for e in [0u64, 1, 42, 0x0102_0304_0506_0708, u64::MAX] {
        let b = encode_epoch(e);
        assert_eq!(b, e.to_ne_bytes().to_vec());
        assert_eq!(read_epoch(&b), e);
    }
    assert_eq!(read_epoch(&9u64.to_ne_bytes()), 9);
}

#[test]
fn stats_come_from_their_slots() {
    let slots: Vec<Vec<u8>> = (1..=6u64).map(|v| (v * 100).to_ne_bytes().to_vec()).collect();
    let s = read_stats(&slots);
    assert_eq!(s.pass, 100);
    assert_eq!(s.drop_block_ip, 200);
    assert_eq!(s.drop_block_cidr, 300);
    assert_eq!(s.drop_rate, 400);
    assert_eq!(s.drop_sig_tcp, 500);
    assert_eq!(s.parse_err, 600);
}

#[test]
fn tally_counts_and_saturates() {
    let mut t = DecisionTally::new();
    assert!(t.record(false));
    assert!(!t.record(true));
    assert!(!t.record(true));
    assert_eq!((t.decisions, t.anomalies), (3, 2));
    let mut t = DecisionTally { decisions: u64::MAX, anomalies: u64::MAX - 1 };
    assert!(!t.record(true));
    assert_eq!((t.decisions, t.anomalies), (u64::MAX, u64::MAX));
    assert!(!t.record(true));
    assert_eq!((t.decisions, t.anomalies), (u64::MAX, u64::MAX));
}

#[test]
fn rate_config_layout() {
    let cfg = RateLimitCfg { rate_per_sec: 1000, burst: 2000 };
    let mut expected = 1000u64.to_ne_bytes().to_vec();
    expected.extend_from_slice(&2000u64.to_ne_bytes());
    assert_eq!(cfg.to_bytes(), expected);
}
