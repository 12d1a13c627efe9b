use pazuzu::change::{ChangeAnswer, ChangeRun, ChangeStep};
use pazuzu::maps::bump_epoch;
use pazuzu::rules::{apply_rules_batch, block_ip, ApiError, RuleStore, RulesBatchReq};

/// Runs a request with the given map-update outcomes (in order; missing
/// ones succeed) and bump outcome; returns the answer and the steps taken.
fn drive(
    mut run: ChangeRun,
    store: &mut RuleStore,
    writes: &[bool],
    bump_ok: bool,
) -> (ChangeAnswer, usize, usize) {
    let mut updates = 0;
    let mut bumps = 0;
    loop {
        match run.next_step() {
            ChangeStep::UpdateMap(_) => {
                let ok = writes.get(updates).copied().unwrap_or(true);
                updates += 1;
                run.map_updated(store, ok);
            }
            ChangeStep::BumpEpoch => {
                bumps += 1;
                let bumped: Result<u64, &str> = if bump_ok {
                    Ok(bump_epoch(Some(store.epoch())))
                } else {
                    Err("epoch map")
                };
                run.epoch_bumped(store, bumped);
            }
            ChangeStep::Answer(a) => return (a, updates, bumps),
        }
    }
}

fn batch(add: &[&str], remove: &[&str]) -> RulesBatchReq {
    RulesBatchReq {
        add_ips: add.iter().map(|s| s.to_string()).collect(),
        remove_ips: remove.iter().map(|s| s.to_string()).collect(),
        add_cidrs: vec![],
        remove_cidrs: vec![],
        tcp_signatures: None,
    }
}

#[test]
fn refused_batch_after_a_change_still_bumps_the_epoch() {
    let mut store = RuleStore::new(5);
    let run = ChangeRun::new(apply_rules_batch(&batch(&["1.2.3.4"], &["bad"])));
    let (answer, updates, bumps) = drive(run, &mut store, &[], true);
    assert_eq!(answer, ChangeAnswer::Refused(ApiError::BadRequest));
    assert_eq!((updates, bumps), (1, 1));
    assert_eq!(store.epoch(), 6);
    assert_eq!(store.get_rules_config().blocked_ips, vec!["1.2.3.4".to_string()]);
}

#[test]
fn refused_batch_without_a_change_keeps_the_epoch() {
    let mut store = RuleStore::new(5);
    let run = ChangeRun::new(apply_rules_batch(&batch(&["bad"], &[])));
    let (answer, updates, bumps) = drive(run, &mut store, &[], true);
    assert_eq!(answer, ChangeAnswer::Refused(ApiError::BadRequest));
    assert_eq!((updates, bumps), (0, 0));
    assert_eq!(store.epoch(), 5);
}

#[test]
fn complete_batch_bumps_once() {
    let mut store = RuleStore::new(1);
    let run = ChangeRun::new(apply_rules_batch(&batch(&["1.1.1.1", "2.2.2.2"], &["1.1.1.1"])));
    let (answer, updates, bumps) = drive(run, &mut store, &[], true);
    assert_eq!(answer, ChangeAnswer::Done(2));
    assert_eq!((updates, bumps), (3, 1));
    assert_eq!(store.get_rules_config().blocked_ips, vec!["2.2.2.2".to_string()]);
}

#[test]
fn empty_batch_bumps() {
    let mut store = RuleStore::new(9);
    let run = ChangeRun::new(apply_rules_batch(&batch(&[], &[])));
    let (answer, updates, bumps) = drive(run, &mut store, &[], true);
    assert_eq!(answer, ChangeAnswer::Done(10));
    assert_eq!((updates, bumps), (0, 1));
}

#[test]
fn failed_map_update_after_changes_bumps_and_fails() {
    let mut store = RuleStore::new(3);
    let run = ChangeRun::new(apply_rules_batch(&batch(&["1.1.1.1", "2.2.2.2", "3.3.3.3"], &[])));
    let (answer, updates, bumps) = drive(run, &mut store, &[true, false], true);
    assert_eq!(answer, ChangeAnswer::MapUpdateFailed);
    assert_eq!((updates, bumps), (2, 1));
    assert_eq!(store.epoch(), 4);
    assert_eq!(store.get_rules_config().blocked_ips, vec!["1.1.1.1".to_string()]);
}

#[test]
fn failed_first_update_changes_nothing() {
    let mut store = RuleStore::new(3);
    let run = ChangeRun::single(block_ip("1.1.1.1"));
    let (answer, updates, bumps) = drive(run, &mut store, &[false], true);
    assert_eq!(answer, ChangeAnswer::MapUpdateFailed);
    assert_eq!((updates, bumps), (1, 0));
    assert_eq!(store.epoch(), 3);
    assert!(store.get_rules_config().blocked_ips.is_empty());
}

#[test]
fn single_change_and_bad_request() {
    let mut store = RuleStore::new(0);
    let (answer, _, bumps) = drive(ChangeRun::single(block_ip("8.8.8.8")), &mut store, &[], true);
    assert_eq!((answer, bumps), (ChangeAnswer::Done(1), 1));
    let (answer, updates, bumps) = drive(ChangeRun::single(block_ip("8.8.8")), &mut store, &[], true);
    assert_eq!(answer, ChangeAnswer::Refused(ApiError::BadRequest));
    assert_eq!((updates, bumps), (0, 0));
    assert_eq!(store.epoch(), 1);
}

#[test]
fn failed_bump_is_reported() {
    let mut store = RuleStore::new(0);
    let (answer, _, bumps) = drive(ChangeRun::single(block_ip("8.8.8.8")), &mut store, &[], false);
    assert_eq!((answer, bumps), (ChangeAnswer::EpochBumpFailed, 1));
    assert_eq!(store.epoch(), 0);
}
