use pazuzu::addr::{Cidr, Ipv4};
use pazuzu::maps::TcpSignatureReq;
use pazuzu::rules::{
    apply_rules_batch, block_cidr, block_ip, next_epoch, set_tcp_signatures, unblock_cidr,
    unblock_ip, ApiError, RuleOp, RuleStore, RulesBatchReq,
};

fn strings(v: &[&str]) -> Vec<String> {
    v.iter().map(|s| s.to_string()).collect()
}

fn apply_all(store: &mut RuleStore, ops: &[RuleOp]) {
    for op in ops {
        store.apply(op);
    }
}

#[test]
fn fresh_store_has_both_signatures_on() {
    let store = RuleStore::new(7);
    let cfg = store.get_rules_config();
    assert_eq!(cfg.epoch, 7);
    assert!(cfg.blocked_ips.is_empty());
    assert!(cfg.blocked_cidrs.is_empty());
    assert!(cfg.tcp_signatures.block_null_scan);
    assert!(cfg.tcp_signatures.block_xmas_scan);
}

#[test]
fn block_ip_ops() {
    match block_ip("10.0.0.1").unwrap() {
        RuleOp::BlockIp { addr, key } => {
            assert_eq!(addr, Ipv4 { a: 10, b: 0, c: 0, d: 1 });
            assert_eq!(key.to_ne_bytes(), [10, 0, 0, 1]);
        }
        other => panic!("unexpected {other:?}"),
    }
    assert!(matches!(unblock_ip("10.0.0.1").unwrap(), RuleOp::UnblockIp { .. }));
    assert_eq!(block_ip("10.0.0.256").unwrap_err(), ApiError::BadRequest);
    assert_eq!(unblock_ip("nope").unwrap_err(), ApiError::BadRequest);
}

#[test]
fn block_cidr_ops() {
    match block_cidr("10.0.0.0/08").unwrap() {
        RuleOp::BlockCidr { cidr, lpm_key } => {
            assert_eq!(cidr, Cidr { addr: Ipv4 { a: 10, b: 0, c: 0, d: 0 }, prefix_len: 8 });
            assert_eq!(lpm_key.prefixlen, 8);
            assert_eq!(lpm_key.addr.to_ne_bytes(), [10, 0, 0, 0]);
        }
        other => panic!("unexpected {other:?}"),
    }
    assert!(matches!(unblock_cidr("10.0.0.0/8").unwrap(), RuleOp::UnblockCidr { .. }));
    assert_eq!(block_cidr("10.0.0.0/33").unwrap_err(), ApiError::BadRequest);
    assert_eq!(unblock_cidr("10.0.0.0").unwrap_err(), ApiError::BadRequest);
}

#[test]
fn config_lists_sorted_texts_once() {
    let mut store = RuleStore::new(0);
    for ip in ["9.0.0.1", "10.0.0.2", "10.0.0.1", "9.0.0.1", "100.1.1.1"] {
        store.apply(&block_ip(ip).unwrap());
    }
    for c in ["10.0.0.0/8", "10.0.0.0/08", "1.0.0.0/24", "10.0.0.0/16"] {
        store.apply(&block_cidr(c).unwrap());
    }
    let cfg = store.get_rules_config();
    assert_eq!(cfg.blocked_ips, strings(&["10.0.0.1", "10.0.0.2", "100.1.1.1", "9.0.0.1"]));
    assert_eq!(cfg.blocked_cidrs, strings(&["1.0.0.0/24", "10.0.0.0/16", "10.0.0.0/8"]));
}

#[test]
fn unblocking_removes_and_is_harmless_when_absent() {
    let mut store = RuleStore::new(0);
    store.apply(&block_ip("1.2.3.4").unwrap());
    store.apply(&block_ip("5.6.7.8").unwrap());
    store.apply(&unblock_ip("1.2.3.4").unwrap());
    store.apply(&unblock_ip("9.9.9.9").unwrap());
    store.apply(&block_cidr("1.2.0.0/16").unwrap());
    store.apply(&unblock_cidr("1.2.0.0/+16").unwrap());
    let cfg = store.get_rules_config();
    assert_eq!(cfg.blocked_ips, strings(&["5.6.7.8"]));
    assert!(cfg.blocked_cidrs.is_empty());
}

#[test]
fn tcp_signatures_op() {
    let req = TcpSignatureReq { block_null_scan: false, block_xmas_scan: true };
    let (op, resp) = set_tcp_signatures(&req);
    assert!(!resp.block_null_scan && resp.block_xmas_scan);
    let mut store = RuleStore::new(0);
    store.apply(&op);
    let cfg = store.get_rules_config();
    assert!(!cfg.tcp_signatures.block_null_scan);
    assert!(cfg.tcp_signatures.block_xmas_scan);
}

#[test]
fn next_epoch_records_success_only() {
    let mut store = RuleStore::new(3);
    assert_eq!(next_epoch::<&str>(&mut store, Ok(4)), Ok(4));
    assert_eq!(store.epoch(), 4);
    assert_eq!(next_epoch(&mut store, Err("map write failed")), Err("map write failed"));
    assert_eq!(store.epoch(), 4);
}

fn batch(
    add_ips: &[&str],
    remove_ips: &[&str],
    add_cidrs: &[&str],
    remove_cidrs: &[&str],
    tcp: Option<TcpSignatureReq>,
) -> RulesBatchReq {
    RulesBatchReq {
        add_ips: strings(add_ips),
        remove_ips: strings(remove_ips),
        add_cidrs: strings(add_cidrs),
        remove_cidrs: strings(remove_cidrs),
        tcp_signatures: tcp,
    }
}

#[test]
fn valid_batch_adds_then_removes() {
    let mut store = RuleStore::new(0);
    store.apply(&block_ip("7.7.7.7").unwrap());
    store.apply(&block_cidr("7.0.0.0/8").unwrap());
    let req = batch(
        &["1.1.1.1", "2.2.2.2"],
        &["2.2.2.2", "7.7.7.7"],
        &["3.0.0.0/8"],
        &["7.0.0.0/8"],
        Some(TcpSignatureReq { block_null_scan: false, block_xmas_scan: false }),
    );
    let plan = apply_rules_batch(&req);
    assert_eq!(plan.rejected, None);
    assert_eq!(plan.ops.len(), 7);
    apply_all(&mut store, &plan.ops);
    let cfg = store.get_rules_config();
    assert_eq!(cfg.blocked_ips, strings(&["1.1.1.1"]));
    assert_eq!(cfg.blocked_cidrs, strings(&["3.0.0.0/8"]));
    assert!(!cfg.tcp_signatures.block_null_scan);
    assert!(!cfg.tcp_signatures.block_xmas_scan);
}

#[test]
fn batch_stops_at_first_bad_entry() {
    let req = batch(&["1.1.1.1"], &["2.2.2.2", "bad", "3.3.3.3"], &["4.0.0.0/8"], &[], None);
    let plan = apply_rules_batch(&req);
    assert_eq!(plan.rejected, Some(ApiError::BadRequest));
    assert_eq!(plan.ops.len(), 2);
    assert!(matches!(plan.ops[0], RuleOp::BlockIp { .. }));
    assert!(matches!(plan.ops[1], RuleOp::UnblockIp { .. }));

    let req = batch(&[], &[], &["4.0.0.0/8"], &["4.0.0.0/40"], Some(TcpSignatureReq {
        block_null_scan: true,
        block_xmas_scan: true,
    }));
    let plan = apply_rules_batch(&req);
    assert_eq!(plan.rejected, Some(ApiError::BadRequest));
    assert_eq!(plan.ops.len(), 1);
}

#[test]
fn batch_over_limits_is_refused_whole() {
    let many: Vec<String> = (0..2049).map(|i| format!("10.0.{}.{}", i / 256, i % 256)).collect();
    let req = RulesBatchReq {
        add_ips: many.clone(),
        remove_ips: vec![],
        add_cidrs: vec![],
        remove_cidrs: vec![],
        tcp_signatures: None,
    };
    let plan = apply_rules_batch(&req);
    assert_eq!(plan.rejected, Some(ApiError::TooManyUpdates));
    assert!(plan.ops.is_empty());

    let req = RulesBatchReq {
        add_ips: many[..1024].to_vec(),
        remove_ips: many[..1024].to_vec(),
        add_cidrs: vec![],
        remove_cidrs: vec![],
        tcp_signatures: None,
    };
    let plan = apply_rules_batch(&req);
    assert_eq!(plan.rejected, None);
    assert_eq!(plan.ops.len(), 2048);
}
