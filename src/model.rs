//! The alignment model: per-label estimates and the scratch table of partial
//! counts that an E-step fills and an M-step turns into new estimates.
use crate::weight::{abs_bits, divide, divide_of, plus, same_weight, weight_change, WEIGHT_ZERO};
use std::collections::HashMap;
use vstd::prelude::*;

verus! {

broadcast use vstd::std_specs::hash::group_hash_axioms;

/// Estimates and partial counts, keyed by label, all as log weights.
pub struct AlignmentModel {
    /// Current log-probability of each label
    pub estimate: HashMap<u32, u32>,
    /// Partial log-counts gathered since the last M-step
    pub accum: HashMap<u32, u32>,
    /// Sum of all partial counts gathered since the last M-step
    pub total: u32,
    /// `total` as the last M-step found it
    pub prev_total: u32,
}

/// `s` is what log-semiring plus may give for `a` and `b`: semiring zero on either
/// side gives the other side; otherwise the sum is whatever the platform's float
/// functions computed.
pub open spec fn plus_result(a: u32, b: u32, s: u32) -> bool {
    &&& a == WEIGHT_ZERO ==> s == b
    &&& b == WEIGHT_ZERO ==> s == a
}

/// `m2` is the table `m` after `w` was added (log-semiring plus) into the entry
/// of `label`: an absent entry takes `w`, the other entries stay.
pub open spec fn count_added(m: Map<u32, u32>, label: u32, w: u32, m2: Map<u32, u32>) -> bool {
    &&& m2.contains_key(label)
    &&& m2 == m.insert(label, m2[label])
    &&& if m.contains_key(label) { plus_result(m[label], w, m2[label]) } else { m2[label] == w }
}

/// `est2` holds the estimates after an M-step: each label with a partial count
/// gets that count divided by the total; the others keep theirs.
pub open spec fn normalized(estimate: Map<u32, u32>, accum: Map<u32, u32>, total: u32, est2: Map<u32, u32>) -> bool {
    &&& forall|l: u32| #[trigger] est2.contains_key(l) <==> estimate.contains_key(l) || accum.contains_key(l)
    &&& forall|l: u32| #[trigger] accum.contains_key(l) ==> same_weight(est2[l], divide_of(accum[l], total))
    &&& forall|l: u32| estimate.contains_key(l) && !accum.contains_key(l) ==> #[trigger] est2[l] == estimate[l]
}

/// The partial counts after an M-step: every entry kept, at semiring zero.
pub open spec fn cleared(accum: Map<u32, u32>) -> Map<u32, u32> {
    Map::new(|l: u32| accum.contains_key(l), |l: u32| WEIGHT_ZERO)
}

impl AlignmentModel {
    /// An empty model: no estimate, no count, totals at semiring zero.
    pub fn new() -> (r: AlignmentModel)
        ensures
            r.estimate@ == Map::<u32, u32>::empty(),
            r.accum@ == Map::<u32, u32>::empty(),
            r.total == WEIGHT_ZERO,
            r.prev_total == WEIGHT_ZERO,
    {
        AlignmentModel {
            estimate: HashMap::new(),
            accum: HashMap::new(),
            total: WEIGHT_ZERO,
            prev_total: WEIGHT_ZERO,
        }
    }

    /// Adds `w` into the partial count of `label` and into the running total.
    /// Seeding a label at lattice construction is the same operation.
    pub fn accumulate(&mut self, label: u32, w: u32)
        ensures
            count_added(old(self).accum@, label, w, final(self).accum@),
            plus_result(old(self).total, w, final(self).total),
            final(self).estimate@ == old(self).estimate@,
            final(self).prev_total == old(self).prev_total,
    {
        let cur = match self.accum.get(&label) {
            Some(c) => plus(*c, w),
            None => w,
        };
        self.accum.insert(label, cur);
        self.total = plus(self.total, w);
    }

    /// The current estimate of `label`, if it has one.
    pub fn get(&self, label: u32) -> (r: Option<u32>)
        ensures
            r == (if self.estimate@.contains_key(label) { Some(self.estimate@[label]) } else { None::<u32> }),
    {
        match self.estimate.get(&label) {
            Some(w) => Some(*w),
            None => None,
        }
    }

    /// The model part of an M-step: returns `|total - prev_total|`, sets
    /// `prev_total` to `total`, turns each partial count into an estimate (count
    /// divided by total), clears the counts to semiring zero and the total too.
    /// Every label with a count is below `n`.
    pub fn normalize_and_reset(&mut self, n: u32) -> (change: u32)
        requires
            forall|l: u32| old(self).accum@.contains_key(l) ==> l < n,
        ensures
            same_weight(change, abs_bits(divide_of(old(self).total, old(self).prev_total))),
            final(self).prev_total == old(self).total,
            final(self).total == WEIGHT_ZERO,
            normalized(old(self).estimate@, old(self).accum@, old(self).total, final(self).estimate@),
            final(self).accum@ == cleared(old(self).accum@),
    {
        let change = weight_change(self.total, self.prev_total);
        self.prev_total = self.total;
        let ghost est0 = self.estimate@;
        let ghost acc0 = self.accum@;
        let mut label: u32 = 0;
        while label < n
            invariant
                forall|l: u32| acc0.contains_key(l) ==> l < n,
                self.prev_total == old(self).total,
                self.total == old(self).total,
                est0 == old(self).estimate@,
                acc0 == old(self).accum@,
                forall|l: u32| #![trigger self.estimate@.contains_key(l)] l < label ==> (self.estimate@.contains_key(l) == (est0.contains_key(l) || acc0.contains_key(l))),
                forall|l: u32| #![trigger self.estimate@[l]] l < label && acc0.contains_key(l) ==> same_weight(self.estimate@[l], divide_of(acc0[l], self.total)),
                forall|l: u32| #![trigger self.estimate@[l]] l < label && est0.contains_key(l) && !acc0.contains_key(l) ==> self.estimate@[l] == est0[l],
                forall|l: u32| #![trigger self.estimate@.contains_key(l)] label <= l ==> (self.estimate@.contains_key(l) == est0.contains_key(l)),
                forall|l: u32| #![trigger self.estimate@[l]] label <= l && est0.contains_key(l) ==> self.estimate@[l] == est0[l],
                forall|l: u32| #![trigger self.accum@.contains_key(l)] self.accum@.contains_key(l) == acc0.contains_key(l),
                forall|l: u32| #![trigger self.accum@[l]] l < label && acc0.contains_key(l) ==> self.accum@[l] == WEIGHT_ZERO,
                forall|l: u32| #![trigger self.accum@[l]] label <= l && acc0.contains_key(l) ==> self.accum@[l] == acc0[l],
            decreases n - label,
        {
            match self.accum.get(&label) {
                Some(c) => {
                    let e = divide(*c, self.total);
                    self.estimate.insert(label, e);
                    self.accum.insert(label, WEIGHT_ZERO);
                },
                None => {},
            }
            label = label + 1;
        }
        proof {
            assert forall|l: u32| #[trigger] self.estimate@.contains_key(l) <==> est0.contains_key(l) || acc0.contains_key(l) by {
                if acc0.contains_key(l) { assert(l < n); }
            }
            assert(self.accum@ =~= cleared(acc0));
        }
        self.total = WEIGHT_ZERO;
        change
    }
}

} // verus!
