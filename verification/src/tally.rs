//! The decision counts that the inference statistics keep.

use vstd::prelude::*;

verus! {

/// One more, saturating at `u64::MAX`.
pub open spec fn sat_inc(n: u64) -> u64 {
    if n < u64::MAX {
        (n + 1) as u64
    } else {
        u64::MAX
    }
}

/// How many decisions were made, and how many of them found an anomaly.
#[derive(Clone, Copy, Debug, PartialEq, Eq, Structural)]
pub struct DecisionTally {
    pub decisions: u64,
    pub anomalies: u64,
}

impl DecisionTally {
    /// No decisions yet.
    pub fn new() -> (t: Self)
        ensures
            t.decisions == 0,
            t.anomalies == 0,
    {
        DecisionTally { decisions: 0, anomalies: 0 }
    }

    /// Counts one decision, and the anomaly it found if it found one; both
    /// counts saturate. Returns whether this is the first decision counted,
    /// the one whose risk seeds the running average. Anomalies never
    /// outnumber decisions.
    pub fn record(&mut self, is_anomaly: bool) -> (first: bool)
        ensures
            final(self).decisions == sat_inc(old(self).decisions),
            final(self).anomalies == (if is_anomaly {
                sat_inc(old(self).anomalies)
            } else {
                old(self).anomalies
            }),
            first == (final(self).decisions == 1),
            old(self).anomalies <= old(self).decisions ==> final(self).anomalies
                <= final(self).decisions,
    {
        self.decisions = self.decisions.saturating_add(1);
        if is_anomaly {
            self.anomalies = self.anomalies.saturating_add(1);
        }
        self.decisions == 1
    }
}

} // verus!
