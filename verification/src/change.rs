//! A request's rule changes in progress: the control plane decides each
//! step (update a map, bump the epoch, answer) and the caller performs it
//! and reports back. Any change made to the rule maps is followed by an
//! epoch bump before the request is answered.

use vstd::prelude::*;
use crate::rules::{apply_op, next_epoch, ApiError, BatchPlan, RuleOp, RuleSnapshot, RuleStore};

verus! {

/// How a request is answered.
#[derive(Clone, Copy, Debug, PartialEq, Eq, Structural)]
pub enum ChangeAnswer {
    /// Every change was made; the epoch is now the one given.
    Done(u64),
    /// The request was refused (after the changes before the refused entry).
    Refused(ApiError),
    /// A map update failed (after the changes before it).
    MapUpdateFailed,
    /// The epoch bump that follows the changes failed.
    EpochBumpFailed,
}

/// What to do next for a request.
#[derive(Clone, Copy, Debug)]
pub enum ChangeStep {
    /// Make this map update, then report with `map_updated`.
    UpdateMap(RuleOp),
    /// Bump the kernel's epoch, then report with `epoch_bumped`.
    BumpEpoch,
    /// Answer the request.
    Answer(ChangeAnswer),
}

/// Where a request stands: its changes, the refusal after them if any, how
/// many map updates were made, whether one failed, and the outcome of the
/// epoch bump once asked for (`Some(None)` where it failed).
pub ghost struct ChangeRunView {
    pub ops: Seq<RuleOp>,
    pub rejected: Option<ApiError>,
    pub written: nat,
    pub write_failed: bool,
    pub bumped: Option<Option<u64>>,
}

/// The epoch is owed a bump once any change was made to the rule maps, and
/// once a request that is not refused has made all its changes.
pub open spec fn bump_owed(v: ChangeRunView) -> bool {
    v.written > 0 || (v.written == v.ops.len() && v.rejected is None && !v.write_failed)
}

/// The answer once nothing is left to do.
pub open spec fn answer_spec(v: ChangeRunView) -> ChangeAnswer {
    if v.write_failed {
        ChangeAnswer::MapUpdateFailed
    } else if v.rejected is Some {
        ChangeAnswer::Refused(v.rejected.unwrap())
    } else {
        match v.bumped {
            Some(Some(n)) => ChangeAnswer::Done(n),
            _ => ChangeAnswer::EpochBumpFailed,
        }
    }
}

/// The next step: the changes in order until one fails, then the epoch
/// bump where it is owed, then the answer.
pub open spec fn next_step_spec(v: ChangeRunView) -> ChangeStep {
    if !v.write_failed && v.written < v.ops.len() {
        ChangeStep::UpdateMap(v.ops[v.written as int])
    } else if bump_owed(v) && v.bumped is None {
        ChangeStep::BumpEpoch
    } else {
        ChangeStep::Answer(answer_spec(v))
    }
}

/// A request's rule changes in progress.
pub struct ChangeRun {
    ops: Vec<RuleOp>,
    rejected: Option<ApiError>,
    written: usize,
    write_failed: bool,
    bump_done: bool,
    bumped_epoch: Option<u64>,
}

impl View for ChangeRun {
    type V = ChangeRunView;

    closed spec fn view(&self) -> ChangeRunView {
        ChangeRunView {
            ops: self.ops@,
            rejected: self.rejected,
            written: self.written as nat,
            write_failed: self.write_failed,
            bumped: if self.bump_done {
                Some(self.bumped_epoch)
            } else {
                None
            },
        }
    }
}

impl ChangeRun {
    #[verifier::type_invariant]
    spec fn wf(self) -> bool {
        &&& self.written <= self.ops@.len()
        &&& self.write_failed ==> self.written < self.ops@.len()
        &&& !self.bump_done ==> self.bumped_epoch is None
    }

    /// A run of a batch's planned changes.
    pub fn new(plan: BatchPlan) -> (run: Self)
        ensures
            run@ == (ChangeRunView {
                ops: plan.ops@,
                rejected: plan.rejected,
                written: 0,
                write_failed: false,
                bumped: None,
            }),
    {
        ChangeRun {
            ops: plan.ops,
            rejected: plan.rejected,
            written: 0,
            write_failed: false,
            bump_done: false,
            bumped_epoch: None,
        }
    }

    /// A run of a single change, or of a refusal where the request was bad.
    pub fn single(op: Result<RuleOp, ApiError>) -> (run: Self)
        ensures
            run@ == (match op {
                Ok(o) => ChangeRunView {
                    ops: seq![o],
                    rejected: None,
                    written: 0,
                    write_failed: false,
                    bumped: None,
                },
                Err(e) => ChangeRunView {
                    ops: Seq::empty(),
                    rejected: Some(e),
                    written: 0,
                    write_failed: false,
                    bumped: None,
                },
            }),
    {
        let run = match op {
            Ok(o) => {
                let ops = vec![o];
                ChangeRun {
                    ops,
                    rejected: None,
                    written: 0,
                    write_failed: false,
                    bump_done: false,
                    bumped_epoch: None,
                }
            },
            Err(e) => ChangeRun {
                ops: Vec::new(),
                rejected: Some(e),
                written: 0,
                write_failed: false,
                bump_done: false,
                bumped_epoch: None,
            },
        };
        proof {
            if op is Ok {
                assert(run.ops@ =~= seq![op.unwrap()]);
            } else {
                assert(run.ops@ =~= Seq::<RuleOp>::empty());
            }
        }
        run
    }

    /// What to do next.
    pub fn next_step(&self) -> (s: ChangeStep)
        ensures
            s == next_step_spec(self@),
            self@.written <= self@.ops.len(),
    {
        proof {
            use_type_invariant(self);
        }
        if !self.write_failed && self.written < self.ops.len() {
            ChangeStep::UpdateMap(self.ops[self.written])
        } else if (self.written > 0 || (self.written == self.ops.len() && self.rejected.is_none()
            && !self.write_failed)) && !self.bump_done {
            ChangeStep::BumpEpoch
        } else if self.write_failed {
            ChangeStep::Answer(ChangeAnswer::MapUpdateFailed)
        } else {
            match self.rejected {
                Some(e) => ChangeStep::Answer(ChangeAnswer::Refused(e)),
                None => match self.bumped_epoch {
                    Some(n) => ChangeStep::Answer(ChangeAnswer::Done(n)),
                    None => ChangeStep::Answer(ChangeAnswer::EpochBumpFailed),
                },
            }
        }
    }

    /// Reports the map update of the current step: where it was made, the
    /// change is recorded in `rules`; where it failed, no further change is
    /// made. Outside a map-update step nothing changes.
    pub fn map_updated(&mut self, rules: &mut RuleStore, ok: bool)
        ensures
            next_step_spec(old(self)@) matches ChangeStep::UpdateMap(op) ==> {
                &&& ok ==> final(self)@ == (ChangeRunView { written: old(self)@.written + 1, ..old(self)@ })
                &&& ok ==> final(rules)@ == apply_op(old(rules)@, op)
                &&& !ok ==> final(self)@ == (ChangeRunView { write_failed: true, ..old(self)@ })
                &&& !ok ==> final(rules)@ == old(rules)@
            },
            !(next_step_spec(old(self)@) is UpdateMap) ==> final(self)@ == old(self)@ && final(rules)@
                == old(rules)@,
    {
        proof {
            use_type_invariant(&*self);
        }
        if !self.write_failed && self.written < self.ops.len() {
            if ok {
                rules.apply(&self.ops[self.written]);
                self.written = self.written + 1;
            } else {
                self.write_failed = true;
            }
        }
    }

    /// Reports the epoch bump of the current step: its epoch is recorded
    /// in `rules` where it succeeded. Outside a bump step nothing changes.
    pub fn epoch_bumped<E>(&mut self, rules: &mut RuleStore, bumped: Result<u64, E>)
        ensures
            next_step_spec(old(self)@) is BumpEpoch ==> {
                &&& final(self)@ == (ChangeRunView {
                    bumped: Some(
                        match bumped {
                            Ok(n) => Some(n),
                            Err(_) => None,
                        },
                    ),
                    ..old(self)@
                })
                &&& final(rules)@ == (match bumped {
                    Ok(n) => RuleSnapshot { epoch: n, ..old(rules)@ },
                    Err(_) => old(rules)@,
                })
            },
            !(next_step_spec(old(self)@) is BumpEpoch) ==> final(self)@ == old(self)@ && final(rules)@
                == old(rules)@,
    {
        proof {
            use_type_invariant(&*self);
        }
        let owed = self.written > 0 || (self.written == self.ops.len() && self.rejected.is_none()
            && !self.write_failed);
        if (self.write_failed || self.written >= self.ops.len()) && owed && !self.bump_done {
            let r = next_epoch(rules, bumped);
            self.bump_done = true;
            self.bumped_epoch = match r {
                Ok(n) => Some(n),
                Err(_) => None,
            };
        }
    }
}

/// A request is never answered after a change to the rule maps without
/// the epoch bump having been asked for: any mutation of the rule maps is
/// followed by a bump. A request answered without a bump made no change.
pub proof fn lemma_change_then_bump(v: ChangeRunView)
    requires
        v.written <= v.ops.len(),
        next_step_spec(v) is Answer,
    ensures
        v.written > 0 ==> v.bumped is Some,
        v.bumped is None ==> v.written == 0,
        answer_spec(v) is Done ==> v.written == v.ops.len() && v.rejected is None,
{
}

} // verus!
