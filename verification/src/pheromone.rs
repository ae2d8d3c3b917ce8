//! Stigmergic task allocation: targets emit pheromone, drones follow it.
use crate::arith::{
    add_up, answers, compute, factors_shrink, is_level, is_share, steady, sums_to, takes_all,
    ArithOp,
};
use crate::scalar::{Scalar, MINUS_ONE, ONE, ZERO};
use vstd::prelude::*;

verus! {

/// Bit pattern of 0.01: a target with no more pheromone than this is inactive.
pub const FAINT: u32 = 0x3c23_d70a;

/// Bit pattern of 0.6: what covering a target leaves of its pheromone.
pub const DAMPENING: u32 = 0x3f19_999a;

/// Bit pattern of 0.3: the share of the dampening that a mere visit applies.
pub const VISIT_SHARE: u32 = 0x3e99_999a;

/// Bit pattern of 0.001: bearings treat everything nearer than this as this far away.
pub const NEAREST: u32 = 0x3a83_126f;

/// A target location that emits pheromone until covered.
#[derive(Debug, Clone, Copy)]
pub struct Target {
    pub id: u32,
    pub x: Scalar,
    pub y: Scalar,
    /// 0.0 to 1.0; scales the initial pheromone.
    pub priority: Scalar,
    pub covered: bool,
}

/// How many targets are covered.
pub open spec fn covered_in(targets: Seq<Target>) -> nat
    decreases targets.len(),
{
    if targets.len() == 0 {
        0
    } else {
        covered_in(targets.drop_last()) + (if targets.last().covered {
            1nat
        } else {
            0
        })
    }
}

/// How many levels lie above a threshold.
pub open spec fn count_above(levels: Seq<Scalar>, threshold: Scalar) -> nat
    decreases levels.len(),
{
    if levels.len() == 0 {
        0
    } else {
        count_above(levels.drop_last(), threshold) + (if levels.last().above(threshold) {
            1nat
        } else {
            0
        })
    }
}

/// Counts the levels above a threshold.
pub fn levels_above(levels: &Vec<Scalar>, threshold: Scalar) -> (n: usize)
    ensures
        n == count_above(levels@, threshold),
        n == Set::new(|i: int| 0 <= i < levels@.len() && levels@[i].above(threshold)).len(),
        n <= levels@.len(),
{
    let mut n: usize = 0;
    let mut i: usize = 0;
    assert(levels@.take(0) =~= Seq::<Scalar>::empty());
    while i < levels.len()
        invariant
            i <= levels@.len(),
            n == count_above(levels@.take(i as int), threshold),
            n <= i,
        decreases levels@.len() - i,
    {
        assert(levels@.take(i + 1).drop_last() =~= levels@.take(i as int));
        if levels[i].exceeds(threshold) {
            n = n + 1;
        }
        i = i + 1;
    }
    assert(levels@.take(i as int) =~= levels@);
    proof {
        levels_above_are_counted(levels@, threshold);
    }
    n
}

/// The targets once the one at `i` is covered.
pub open spec fn with_covered(targets: Seq<Target>, i: int) -> Seq<Target> {
    targets.update(i, Target { covered: true, ..targets[i] })
}

/// `dx` and `dist` are the horizontal offset of the target `t` from `(x, y)` and its
/// distance, as `unit` computes them.
pub open spec fn measured<U: Fn(ArithOp) -> Scalar>(
    unit: U,
    t: Target,
    x: Scalar,
    y: Scalar,
    dx: Scalar,
    dist: Scalar,
) -> bool {
    exists|dy: Scalar, dx_squared: Scalar, dy_squared: Scalar, dist_squared: Scalar|
        {
            &&& answers(unit, ArithOp::Sub(t.x, x), dx)
            &&& #[trigger] answers(unit, ArithOp::Sub(t.y, y), dy)
            &&& #[trigger] answers(unit, ArithOp::Mul(dx, dx), dx_squared)
            &&& #[trigger] answers(unit, ArithOp::Mul(dy, dy), dy_squared)
            &&& #[trigger] answers(unit, ArithOp::Add(dx_squared, dy_squared), dist_squared)
            &&& answers(unit, ArithOp::Sqrt(dist_squared), dist)
        }
}

/// Measures the horizontal offset and the distance of a target.
pub fn measure<U: Fn(ArithOp) -> Scalar>(unit: &U, t: &Target, x: Scalar, y: Scalar) -> (r: (
    Scalar,
    Scalar,
))
    requires
        takes_all(*unit),
    ensures
        measured(*unit, *t, x, y, r.0, r.1),
{
    let dx = compute(unit, ArithOp::Sub(t.x, x));
    let dy = compute(unit, ArithOp::Sub(t.y, y));
    let dx_squared = compute(unit, ArithOp::Mul(dx, dx));
    let dy_squared = compute(unit, ArithOp::Mul(dy, dy));
    let dist_squared = compute(unit, ArithOp::Add(dx_squared, dy_squared));
    let dist = compute(unit, ArithOp::Sqrt(dist_squared));
    (dx, dist)
}

/// `bearing` is the bearing of the target `t` seen from `(x, y)`: its horizontal offset
/// over its distance, between -1 and 1.
pub open spec fn bears<U: Fn(ArithOp) -> Scalar>(
    unit: U,
    t: Target,
    x: Scalar,
    y: Scalar,
    bearing: Scalar,
) -> bool {
    exists|dx: Scalar, dist: Scalar, ratio: Scalar|
        {
            &&& #[trigger] measured(unit, t, x, y, dx, dist)
            &&& #[trigger] answers(
                unit,
                ArithOp::Div(dx, dist.raised_to(Scalar { bits: NEAREST })),
                ratio,
            )
            &&& bearing == ratio.limited(Scalar { bits: MINUS_ONE }, Scalar { bits: ONE })
        }
}

/// `after` is what a tick leaves of the level `before`: its product with `decay`, never
/// below zero.
pub open spec fn evaporated<U: Fn(ArithOp) -> Scalar>(
    unit: U,
    decay: Scalar,
    before: Scalar,
    after: Scalar,
) -> bool {
    exists|product: Scalar| #[trigger]
        answers(unit, ArithOp::Mul(before, decay), product) && after == product.raised_to(
            Scalar { bits: ZERO },
        )
}

/// The levels `after` are what a tick at the given evaporation rate leaves of `before`.
pub open spec fn field_evaporated<U: Fn(ArithOp) -> Scalar>(
    unit: U,
    rate: Scalar,
    before: Seq<Scalar>,
    after: Seq<Scalar>,
) -> bool {
    &&& after.len() == before.len()
    &&& exists|decay: Scalar| #[trigger]
        answers(unit, ArithOp::Sub(Scalar { bits: ONE }, rate), decay) && forall|i: int|
            0 <= i < before.len() ==> evaporated(unit, decay, before[i], #[trigger] after[i])
}

/// `after` is what a visit leaves of the level `before`.
pub open spec fn weakened<U: Fn(ArithOp) -> Scalar>(
    unit: U,
    dampening: Scalar,
    before: Scalar,
    after: Scalar,
) -> bool {
    exists|loss: Scalar, factor: Scalar|
        {
            &&& #[trigger] answers(
                unit,
                ArithOp::Mul(dampening, Scalar { bits: VISIT_SHARE }),
                loss,
            )
            &&& #[trigger] answers(unit, ArithOp::Sub(Scalar { bits: ONE }, loss), factor)
            &&& answers(unit, ArithOp::Mul(before, factor), after)
        }
}

/// With this rate, what a tick leaves of any level is a share of it.
pub open spec fn decays<U: Fn(ArithOp) -> Scalar>(unit: U, rate: Scalar) -> bool {
    forall|decay: Scalar| #[trigger]
        answers(unit, ArithOp::Sub(Scalar { bits: ONE }, rate), decay) ==> is_share(decay)
}

/// With this dampening, what a visit leaves of any level is a share of it.
pub open spec fn visits_weaken<U: Fn(ArithOp) -> Scalar>(unit: U, dampening: Scalar) -> bool {
    forall|loss: Scalar, factor: Scalar| #[trigger]
        answers(unit, ArithOp::Mul(dampening, Scalar { bits: VISIT_SHARE }), loss)
            && #[trigger] answers(unit, ArithOp::Sub(Scalar { bits: ONE }, loss), factor)
            ==> is_share(factor)
}

/// The target at `i` is open and its pheromone can be followed.
pub open spec fn attractive(targets: Seq<Target>, levels: Seq<Scalar>, i: int) -> bool {
    &&& 0 <= i < targets.len()
    &&& i < levels.len()
    &&& !targets[i].covered
    &&& levels[i].above(Scalar { bits: FAINT })
}

/// The target at `i` is the most attractive one: none has a higher level, and none
/// behind it has as high a level.
pub open spec fn most_attractive(targets: Seq<Target>, levels: Seq<Scalar>, i: int) -> bool {
    &&& attractive(targets, levels, i)
    &&& forall|j: int| #[trigger]
        attractive(targets, levels, j) ==> {
            &&& !levels[j].above(levels[i])
            &&& j > i ==> levels[i].above(levels[j])
        }
}

/// No open target has pheromone above 0.01.
pub open spec fn nothing_to_follow(targets: Seq<Target>, levels: Seq<Scalar>) -> bool {
    forall|i: int|
        0 <= i < targets.len() && !(#[trigger] targets[i]).covered ==> !levels[i].above(
            Scalar { bits: FAINT },
        )
}

/// The stigmergic task allocation field.
///
/// Drones follow the pheromone independently; there is no coordinator. Evaporation
/// provides time pressure, and a visit keeps other drones from racing to the same
/// target.
#[derive(Debug)]
pub struct PheromoneField {
    pub targets: Vec<Target>,
    /// The pheromone level of each target.
    pub pheromone: Vec<Scalar>,
    /// Fraction decayed per tick.
    pub evaporation_rate: Scalar,
    /// Factor applied when a drone covers a target.
    pub dampening: Scalar,
}

impl Clone for PheromoneField {
    fn clone(&self) -> (copy: Self)
        ensures
            copy.targets@ == self.targets@,
            copy.pheromone@ == self.pheromone@,
            copy.evaporation_rate == self.evaporation_rate,
            copy.dampening == self.dampening,
    {
        let targets = self.targets.clone();
        let pheromone = self.pheromone.clone();
        assert(targets@ =~= self.targets@);
        assert(pheromone@ =~= self.pheromone@);
        PheromoneField {
            targets,
            pheromone,
            evaporation_rate: self.evaporation_rate,
            dampening: self.dampening,
        }
    }
}

impl PheromoneField {
    /// Each target starts with its priority as its level.
    pub fn new(targets: Vec<Target>, evaporation_rate: Scalar) -> (field: Self)
        ensures
            field.targets == targets,
            field.pheromone@ == targets@.map_values(|t: Target| t.priority),
            field.evaporation_rate == evaporation_rate,
            field.dampening == (Scalar { bits: DAMPENING }),
    {
        let mut pheromone: Vec<Scalar> = Vec::new();
        let mut i: usize = 0;
        while i < targets.len()
            invariant
                i <= targets@.len(),
                pheromone@ == targets@.take(i as int).map_values(|t: Target| t.priority),
            decreases targets@.len() - i,
        {
            pheromone.push(targets[i].priority);
            i = i + 1;
            assert(pheromone@ =~= targets@.take(i as int).map_values(|t: Target| t.priority));
        }
        assert(targets@.take(i as int) =~= targets@);
        PheromoneField {
            targets,
            pheromone,
            evaporation_rate,
            dampening: Scalar { bits: DAMPENING },
        }
    }

    /// Lets all pheromone evaporate by one tick. Returns the number of levels that are
    /// still active.
    pub fn tick<U: Fn(ArithOp) -> Scalar>(&mut self, unit: &U) -> (active: usize)
        requires
            takes_all(*unit),
        ensures
            field_evaporated(
                *unit,
                old(self).evaporation_rate,
                old(self).pheromone@,
                final(self).pheromone@,
            ),
            active == count_above(final(self).pheromone@, Scalar { bits: FAINT }),
            active == Set::new(
                |i: int|
                    0 <= i < final(self).pheromone@.len() && final(self).pheromone@[i].above(
                        Scalar { bits: FAINT },
                    ),
            ).len(),
            forall|i: int|
                0 <= i < old(self).pheromone@.len() ==> is_level(
                    #[trigger] final(self).pheromone@[i],
                ),
            factors_shrink(*unit) && decays(*unit, old(self).evaporation_rate) ==> forall|i: int|
                0 <= i < old(self).pheromone@.len() && is_level(old(self).pheromone@[i])
                    ==> !(#[trigger] final(self).pheromone@[i]).above(old(self).pheromone@[i]),
            final(self).targets == old(self).targets,
            final(self).evaporation_rate == old(self).evaporation_rate,
            final(self).dampening == old(self).dampening,
    {
        let decay = compute(unit, ArithOp::Sub(Scalar { bits: ONE }, self.evaporation_rate));
        let mut i: usize = 0;
        let ghost before = self.pheromone@;
        while i < self.pheromone.len()
            invariant
                takes_all(*unit),
                i <= before.len(),
                self.pheromone@.len() == before.len(),
                self.targets == old(self).targets,
                self.evaporation_rate == old(self).evaporation_rate,
                self.dampening == old(self).dampening,
                forall|k: int|
                    0 <= k < i ==> evaporated(
                        *unit,
                        decay,
                        before[k],
                        #[trigger] self.pheromone@[k],
                    ),
                forall|k: int| i <= k < before.len() ==> before[k] == self.pheromone@[k],
            decreases before.len() - i,
        {
            let product = compute(unit, ArithOp::Mul(self.pheromone[i], decay));
            self.pheromone.set(i, product.at_least(Scalar { bits: ZERO }));
            i = i + 1;
        }
        proof {
            if factors_shrink(*unit) && decays(*unit, old(self).evaporation_rate) {
                assert forall|k: int| 0 <= k < before.len() && is_level(before[k]) implies !(
                #[trigger] self.pheromone@[k]).above(before[k]) by {
                    evaporation_never_strengthens(
                        *unit,
                        old(self).evaporation_rate,
                        before,
                        self.pheromone@,
                        k,
                    );
                }
            }
        }
        levels_above(&self.pheromone, Scalar { bits: FAINT })
    }

    /// A drone at `(x, y)` picks the most attractive target and its bearing.
    pub fn sample_gradient<U: Fn(ArithOp) -> Scalar>(&self, unit: &U, x: Scalar, y: Scalar) -> (r:
        Option<(usize, Scalar)>)
        requires
            takes_all(*unit),
            forall|i: int|
                0 <= i < self.targets@.len() && !(#[trigger] self.targets@[i]).covered ==> i
                    < self.pheromone@.len(),
        ensures
            match r {
                None => forall|i: int| !attractive(self.targets@, self.pheromone@, i),
                Some((idx, bearing)) => {
                    &&& most_attractive(self.targets@, self.pheromone@, idx as int)
                    &&& bears(*unit, self.targets@[idx as int], x, y, bearing)
                },
            },
            r is None <==> forall|i: int|
                0 <= i < self.targets@.len() && !(#[trigger] self.targets@[i]).covered
                    ==> !self.pheromone@[i].above(Scalar { bits: FAINT }),
            r is None <==> nothing_to_follow(self.targets@, self.pheromone@),
            r matches Some((idx, bearing)) ==> {
                &&& idx < self.targets@.len()
                &&& !self.targets@[idx as int].covered
                &&& self.pheromone@[idx as int].above(Scalar { bits: FAINT })
                &&& forall|j: int|
                    0 <= j < self.targets@.len() && !(#[trigger] self.targets@[j]).covered ==> {
                        &&& !self.pheromone@[j].above(self.pheromone@[idx as int])
                        &&& j > idx ==> !self.pheromone@[j].above(Scalar { bits: FAINT })
                            || self.pheromone@[idx as int].above(self.pheromone@[j])
                    }
                &&& !(Scalar { bits: MINUS_ONE }).above(bearing)
                &&& !bearing.above(Scalar { bits: ONE })
            },
    {
        let mut best: Option<usize> = None;
        let mut i: usize = 0;
        while i < self.targets.len()
            invariant
                i <= self.targets@.len(),
                forall|k: int|
                    0 <= k < self.targets@.len() && !(#[trigger] self.targets@[k]).covered ==> k
                        < self.pheromone@.len(),
                match best {
                    None => forall|k: int|
                        k < i ==> !attractive(self.targets@, self.pheromone@, k),
                    Some(b) => {
                        &&& b < i
                        &&& attractive(self.targets@, self.pheromone@, b as int)
                        &&& forall|k: int|
                            k < i && #[trigger] attractive(self.targets@, self.pheromone@, k) ==> {
                                &&& !self.pheromone@[k].above(self.pheromone@[b as int])
                                &&& k > b ==> self.pheromone@[b as int].above(
                                    self.pheromone@[k],
                                )
                            }
                    },
                },
            decreases self.targets@.len() - i,
        {
            if !self.targets[i].covered && self.pheromone[i].exceeds(Scalar { bits: FAINT }) {
                match best {
                    None => {
                        best = Some(i);
                    },
                    Some(b) => {
                        // The later of two equal levels wins.
                        if !self.pheromone[b].exceeds(self.pheromone[i]) {
                            best = Some(i);
                        }
                    },
                }
            }
            i = i + 1;
        }
        proof {
            assert forall|j: int|
                0 <= j < self.targets@.len() && !(#[trigger] self.targets@[j]).covered implies (
            attractive(self.targets@, self.pheromone@, j) <==> self.pheromone@[j].above(
                Scalar { bits: FAINT },
            )) by {}
            if let Some(b) = best {
                assert(attractive(self.targets@, self.pheromone@, b as int));
            }
        }
        match best {
            None => None,
            Some(idx) => {
                let (dx, dist) = measure(unit, &self.targets[idx], x, y);
                let ratio = compute(
                    unit,
                    ArithOp::Div(dx, dist.at_least(Scalar { bits: NEAREST })),
                );
                let bearing = ratio.clamp(Scalar { bits: MINUS_ONE }, Scalar { bits: ONE });
                Some((idx, bearing))
            },
        }
    }

    /// A drone covers a target: it is done, and its residual pheromone is dampened.
    pub fn cover<U: Fn(ArithOp) -> Scalar>(&mut self, unit: &U, target_idx: usize)
        requires
            takes_all(*unit),
            target_idx < old(self).targets@.len() ==> target_idx < old(self).pheromone@.len(),
        ensures
            target_idx < old(self).targets@.len() ==> {
                &&& final(self).targets@ == with_covered(old(self).targets@, target_idx as int)
                &&& final(self).pheromone@ == old(self).pheromone@.update(
                    target_idx as int,
                    final(self).pheromone@[target_idx as int],
                )
                &&& answers(
                    *unit,
                    ArithOp::Mul(
                        old(self).pheromone@[target_idx as int],
                        old(self).dampening,
                    ),
                    final(self).pheromone@[target_idx as int],
                )
            },
            target_idx >= old(self).targets@.len() ==> {
                &&& final(self).targets@ == old(self).targets@
                &&& final(self).pheromone@ == old(self).pheromone@
            },
            final(self).evaporation_rate == old(self).evaporation_rate,
            final(self).dampening == old(self).dampening,
            final(self).targets@.len() == old(self).targets@.len(),
            forall|j: int|
                0 <= j < old(self).targets@.len() ==> (#[trigger] final(self).targets@[j]) == (
                Target {
                    covered: j == target_idx || old(self).targets@[j].covered,
                    ..old(self).targets@[j]
                }),
            forall|j: int|
                0 <= j < old(self).pheromone@.len() && (j != target_idx || j >= old(
                    self,
                ).targets@.len()) ==> #[trigger] final(self).pheromone@[j] == old(
                    self,
                ).pheromone@[j],
            factors_shrink(*unit) && is_share(old(self).dampening) ==> forall|j: int|
                0 <= j < old(self).pheromone@.len() && is_level(old(self).pheromone@[j])
                    ==> !(#[trigger] final(self).pheromone@[j]).above(old(self).pheromone@[j]),
    {
        if target_idx < self.targets.len() {
            let mut target = self.targets[target_idx];
            target.covered = true;
            self.targets.set(target_idx, target);
            let dampened = compute(
                unit,
                ArithOp::Mul(self.pheromone[target_idx], self.dampening),
            );
            self.pheromone.set(target_idx, dampened);
        }
    }

    /// A drone visits a target without covering it: an open target loses some pheromone,
    /// to keep other drones from racing to the same spot.
    pub fn visit<U: Fn(ArithOp) -> Scalar>(&mut self, unit: &U, target_idx: usize)
        requires
            takes_all(*unit),
            target_idx < old(self).targets@.len() && !old(
                self,
            ).targets@[target_idx as int].covered ==> target_idx < old(self).pheromone@.len(),
        ensures
            target_idx < old(self).targets@.len() && !old(
                self,
            ).targets@[target_idx as int].covered ==> {
                &&& final(self).pheromone@ == old(self).pheromone@.update(
                    target_idx as int,
                    final(self).pheromone@[target_idx as int],
                )
                &&& weakened(
                    *unit,
                    old(self).dampening,
                    old(self).pheromone@[target_idx as int],
                    final(self).pheromone@[target_idx as int],
                )
            },
            !(target_idx < old(self).targets@.len() && !old(
                self,
            ).targets@[target_idx as int].covered) ==> final(self).pheromone@ == old(
                self,
            ).pheromone@,
            final(self).targets == old(self).targets,
            final(self).evaporation_rate == old(self).evaporation_rate,
            final(self).dampening == old(self).dampening,
            target_idx < old(self).targets@.len() && !old(
                self,
            ).targets@[target_idx as int].covered ==> exists|loss: Scalar, factor: Scalar|
                {
                    &&& #[trigger] answers(
                        *unit,
                        ArithOp::Mul(old(self).dampening, Scalar { bits: VISIT_SHARE }),
                        loss,
                    )
                    &&& #[trigger] answers(
                        *unit,
                        ArithOp::Sub(Scalar { bits: ONE }, loss),
                        factor,
                    )
                    &&& answers(
                        *unit,
                        ArithOp::Mul(old(self).pheromone@[target_idx as int], factor),
                        final(self).pheromone@[target_idx as int],
                    )
                },
            factors_shrink(*unit) && visits_weaken(*unit, old(self).dampening) ==> forall|j: int|
                0 <= j < old(self).pheromone@.len() && is_level(old(self).pheromone@[j])
                    ==> !(#[trigger] final(self).pheromone@[j]).above(old(self).pheromone@[j]),
    {
        if target_idx < self.targets.len() && !self.targets[target_idx].covered {
            let loss = compute(
                unit,
                ArithOp::Mul(self.dampening, Scalar { bits: VISIT_SHARE }),
            );
            let factor = compute(unit, ArithOp::Sub(Scalar { bits: ONE }, loss));
            let level = compute(unit, ArithOp::Mul(self.pheromone[target_idx], factor));
            let ghost before = self.pheromone@;
            self.pheromone.set(target_idx, level);
            proof {
                if factors_shrink(*unit) && visits_weaken(*unit, self.dampening) && is_level(
                    before[target_idx as int],
                ) {
                    visit_never_strengthens(
                        *unit,
                        self.dampening,
                        before[target_idx as int],
                        level,
                    );
                }
            }
        }
    }

    /// The pheromone level of a target; zero where there is none.
    pub fn pheromone_at(&self, idx: usize) -> (level: Scalar)
        ensures
            level == (if idx < self.pheromone@.len() {
                self.pheromone@[idx as int]
            } else {
                Scalar { bits: ZERO }
            }),
    {
        if idx < self.pheromone.len() {
            self.pheromone[idx]
        } else {
            Scalar { bits: ZERO }
        }
    }

    /// The number of covered targets.
    pub fn covered_count(&self) -> (n: usize)
        ensures
            n == covered_in(self.targets@),
            n == Set::new(|i: int| 0 <= i < self.targets@.len() && self.targets@[i].covered).len(),
            n <= self.targets@.len(),
    {
        let mut n: usize = 0;
        let mut i: usize = 0;
        assert(self.targets@.take(0) =~= Seq::<Target>::empty());
        while i < self.targets.len()
            invariant
                i <= self.targets@.len(),
                n == covered_in(self.targets@.take(i as int)),
                n <= i,
            decreases self.targets@.len() - i,
        {
            assert(self.targets@.take(i + 1).drop_last() =~= self.targets@.take(i as int));
            if self.targets[i].covered {
                n = n + 1;
            }
            i = i + 1;
        }
        assert(self.targets@.take(i as int) =~= self.targets@);
        proof {
            covered_targets_are_counted(self.targets@);
        }
        n
    }

    /// The pheromone of all targets together.
    pub fn total_pheromone<U: Fn(ArithOp) -> Scalar>(&self, unit: &U) -> (total: Scalar)
        requires
            takes_all(*unit),
        ensures
            sums_to(*unit, self.pheromone@, total),
    {
        add_up(unit, &self.pheromone)
    }
}

/// Covering a target adds it to the covered ones, once.
pub proof fn covering_counts_once(targets: Seq<Target>, i: int)
    requires
        0 <= i < targets.len(),
    ensures
        covered_in(with_covered(targets, i)) == covered_in(targets) + (if targets[i].covered {
            0nat
        } else {
            1
        }),
    decreases targets.len(),
{
    let after = with_covered(targets, i);
    if i == targets.len() - 1 {
        assert(after.drop_last() =~= targets.drop_last());
    } else {
        assert(after.drop_last() =~= with_covered(targets.drop_last(), i));
        covering_counts_once(targets.drop_last(), i);
    }
}

/// No more targets are covered than there are, and all are covered exactly where none
/// is open.
pub proof fn coverage_is_bounded(targets: Seq<Target>)
    ensures
        covered_in(targets) <= targets.len(),
        covered_in(targets) == targets.len() <==> forall|i: int|
            0 <= i < targets.len() ==> (#[trigger] targets[i]).covered,
    decreases targets.len(),
{
    if targets.len() > 0 {
        let rest = targets.drop_last();
        coverage_is_bounded(rest);
        if covered_in(targets) == targets.len() {
            assert forall|i: int| 0 <= i < targets.len() implies (
            #[trigger] targets[i]).covered by {
                if i < rest.len() {
                    assert(rest[i].covered);
                }
            }
        }
        if forall|i: int| 0 <= i < targets.len() ==> (#[trigger] targets[i]).covered {
            assert forall|i: int| 0 <= i < rest.len() implies (#[trigger] rest[i]).covered by {
                assert(targets[i].covered);
            }
            assert(targets[targets.len() - 1].covered);
        }
    }
}

/// Where one list of targets covers at least what another covers, its count is no
/// smaller.
pub proof fn coverage_is_monotone(before: Seq<Target>, after: Seq<Target>)
    requires
        before.len() == after.len(),
        forall|i: int|
            0 <= i < before.len() && (#[trigger] before[i]).covered ==> after[i].covered,
    ensures
        covered_in(before) <= covered_in(after),
    decreases before.len(),
{
    if before.len() > 0 {
        let b = before.drop_last();
        let a = after.drop_last();
        assert forall|i: int| 0 <= i < b.len() && (#[trigger] b[i]).covered implies a[i].covered by {
            assert(before[i].covered);
        }
        coverage_is_monotone(b, a);
        assert(before[before.len() - 1].covered ==> after[before.len() - 1].covered);
    }
}

/// A covered target attracts no drone, whatever its pheromone.
pub proof fn covered_target_attracts_nobody(targets: Seq<Target>, levels: Seq<Scalar>, i: int)
    requires
        0 <= i < targets.len(),
    ensures
        !attractive(with_covered(targets, i), levels, i),
        targets[i].covered ==> !most_attractive(targets, levels, i),
{
}

/// At most one target is the most attractive one.
pub proof fn most_attractive_is_unique(
    targets: Seq<Target>,
    levels: Seq<Scalar>,
    i: int,
    j: int,
)
    requires
        most_attractive(targets, levels, i),
        most_attractive(targets, levels, j),
    ensures
        i == j,
{
    assert(attractive(targets, levels, i));
    assert(attractive(targets, levels, j));
}

/// A bearing never lies outside -1..=1.
pub proof fn bearing_stays_in_range<U: Fn(ArithOp) -> Scalar>(
    unit: U,
    t: Target,
    x: Scalar,
    y: Scalar,
    bearing: Scalar,
)
    requires
        bears(unit, t, x, y, bearing),
    ensures
        !(Scalar { bits: MINUS_ONE }).above(bearing),
        !bearing.above(Scalar { bits: ONE }),
{
}

/// With a steady unit a target has one distance from a place.
pub proof fn measuring_is_reproducible<U: Fn(ArithOp) -> Scalar>(
    unit: U,
    t: Target,
    x: Scalar,
    y: Scalar,
    left: (Scalar, Scalar),
    right: (Scalar, Scalar),
)
    requires
        steady(unit),
        measured(unit, t, x, y, left.0, left.1),
        measured(unit, t, x, y, right.0, right.1),
    ensures
        left == right,
{
}

/// With a steady unit a target has one bearing from a place.
pub proof fn bearings_are_reproducible<U: Fn(ArithOp) -> Scalar>(
    unit: U,
    t: Target,
    x: Scalar,
    y: Scalar,
    left: Scalar,
    right: Scalar,
)
    requires
        steady(unit),
        bears(unit, t, x, y, left),
        bears(unit, t, x, y, right),
    ensures
        left == right,
{
    let (dx1, dist1, ratio1) = choose|dx: Scalar, dist: Scalar, ratio: Scalar|
        {
            &&& #[trigger] measured(unit, t, x, y, dx, dist)
            &&& #[trigger] answers(
                unit,
                ArithOp::Div(dx, dist.raised_to(Scalar { bits: NEAREST })),
                ratio,
            )
            &&& left == ratio.limited(Scalar { bits: MINUS_ONE }, Scalar { bits: ONE })
        };
    let (dx2, dist2, ratio2) = choose|dx: Scalar, dist: Scalar, ratio: Scalar|
        {
            &&& #[trigger] measured(unit, t, x, y, dx, dist)
            &&& #[trigger] answers(
                unit,
                ArithOp::Div(dx, dist.raised_to(Scalar { bits: NEAREST })),
                ratio,
            )
            &&& right == ratio.limited(Scalar { bits: MINUS_ONE }, Scalar { bits: ONE })
        };
    measuring_is_reproducible(unit, t, x, y, (dx1, dist1), (dx2, dist2));
}

/// With a steady unit the same field evaporates in one way.
pub proof fn evaporation_is_reproducible<U: Fn(ArithOp) -> Scalar>(
    unit: U,
    rate: Scalar,
    before: Seq<Scalar>,
    left: Seq<Scalar>,
    right: Seq<Scalar>,
)
    requires
        steady(unit),
        field_evaporated(unit, rate, before, left),
        field_evaporated(unit, rate, before, right),
    ensures
        left == right,
{
    assert forall|i: int| 0 <= i < before.len() implies #[trigger] left[i] == right[i] by {}
    assert(left =~= right);
}

/// With a steady unit a visit weakens a level in one way.
pub proof fn weakening_is_reproducible<U: Fn(ArithOp) -> Scalar>(
    unit: U,
    dampening: Scalar,
    before: Scalar,
    left: Scalar,
    right: Scalar,
)
    requires
        steady(unit),
        weakened(unit, dampening, before, left),
        weakened(unit, dampening, before, right),
    ensures
        left == right,
{
}

/// What evaporation leaves is a number and not negative.
pub proof fn pheromone_stays_nonnegative<U: Fn(ArithOp) -> Scalar>(
    unit: U,
    rate: Scalar,
    before: Seq<Scalar>,
    after: Seq<Scalar>,
    i: int,
)
    requires
        field_evaporated(unit, rate, before, after),
        0 <= i < after.len(),
    ensures
        !after[i].is_nan(),
        !(Scalar { bits: ZERO }).above(after[i]),
{
}

/// The number of covered targets is the number of places at which a covered target stands.
pub proof fn covered_targets_are_counted(targets: Seq<Target>)
    ensures
        Set::new(|i: int| 0 <= i < targets.len() && targets[i].covered).finite(),
        covered_in(targets) == Set::new(
            |i: int| 0 <= i < targets.len() && targets[i].covered,
        ).len(),
    decreases targets.len(),
{
    let places = Set::new(|i: int| 0 <= i < targets.len() && targets[i].covered);
    if targets.len() == 0 {
        assert(places =~= Set::empty());
    } else {
        let rest = targets.drop_last();
        let fewer = Set::new(|i: int| 0 <= i < rest.len() && rest[i].covered);
        covered_targets_are_counted(rest);
        if targets.last().covered {
            assert(places =~= fewer.insert(targets.len() - 1));
        } else {
            assert(places =~= fewer);
        }
    }
}

/// The number of levels above a threshold is the number of places at which one stands.
pub proof fn levels_above_are_counted(levels: Seq<Scalar>, threshold: Scalar)
    ensures
        Set::new(|i: int| 0 <= i < levels.len() && levels[i].above(threshold)).finite(),
        count_above(levels, threshold) == Set::new(
            |i: int| 0 <= i < levels.len() && levels[i].above(threshold),
        ).len(),
    decreases levels.len(),
{
    let places = Set::new(|i: int| 0 <= i < levels.len() && levels[i].above(threshold));
    if levels.len() == 0 {
        assert(places =~= Set::empty());
    } else {
        let rest = levels.drop_last();
        let fewer = Set::new(|i: int| 0 <= i < rest.len() && rest[i].above(threshold));
        levels_above_are_counted(rest, threshold);
        if levels.last().above(threshold) {
            assert(places =~= fewer.insert(levels.len() - 1));
        } else {
            assert(places =~= fewer);
        }
    }
}

/// Covering a target sets its flag and leaves everything else about all targets as it was.
pub proof fn covering_sets_one_flag(targets: Seq<Target>, i: int, j: int)
    requires
        0 <= i < targets.len(),
        0 <= j < targets.len(),
    ensures
        with_covered(targets, i).len() == targets.len(),
        with_covered(targets, i)[i].covered,
        j != i ==> with_covered(targets, i)[j] == targets[j],
        with_covered(targets, i)[i].id == targets[i].id,
        with_covered(targets, i)[i].x == targets[i].x,
        with_covered(targets, i)[i].y == targets[i].y,
        with_covered(targets, i)[i].priority == targets[i].priority,
{
}

/// Drones follow the strongest open target, provided that its level lies above 0.01: a target
/// that is followed is open and that strong, no open target is stronger, and of equally strong
/// ones it is the last. Where any open target is strong enough, one is followed.
pub proof fn strongest_open_target_is_followed(targets: Seq<Target>, levels: Seq<Scalar>)
    ensures
        forall|i: int| #[trigger]
            attractive(targets, levels, i) <==> 0 <= i < targets.len() && i < levels.len()
                && !targets[i].covered && levels[i].above(Scalar { bits: FAINT }),
        forall|i: int| #[trigger]
            most_attractive(targets, levels, i) <==> {
                &&& attractive(targets, levels, i)
                &&& forall|j: int| #[trigger]
                    attractive(targets, levels, j) ==> !levels[j].above(levels[i]) && (j > i
                        ==> levels[i].above(levels[j]))
            },
        (exists|i: int| attractive(targets, levels, i)) ==> exists|i: int|
            most_attractive(targets, levels, i),
{
    if exists|i: int| attractive(targets, levels, i) {
        let i = choose|i: int| attractive(targets, levels, i);
        let first = lemma_one_ranks_first(targets, levels, targets.len() as int, i);
        assert(most_attractive(targets, levels, first));
    }
}

/// The target at `i` ranks first among the attractive ones of the first `n`.
spec fn ranks_first(targets: Seq<Target>, levels: Seq<Scalar>, n: int, i: int) -> bool {
    &&& i < n
    &&& attractive(targets, levels, i)
    &&& forall|j: int|
        j < n && #[trigger] attractive(targets, levels, j) ==> levels[j].rank()
            <= levels[i].rank() && (j > i ==> levels[j].rank() < levels[i].rank())
}

/// Where one of the first `n` targets is attractive, one of them ranks first.
proof fn lemma_one_ranks_first(
    targets: Seq<Target>,
    levels: Seq<Scalar>,
    n: int,
    some: int,
) -> (first: int)
    requires
        some < n,
        attractive(targets, levels, some),
    ensures
        ranks_first(targets, levels, n, first),
    decreases n,
{
    let last = n - 1;
    if some < last {
        let first = lemma_one_ranks_first(targets, levels, last, some);
        if attractive(targets, levels, last) && levels[last].rank() >= levels[first].rank() {
            last
        } else {
            first
        }
    } else if exists|i: int| i < last && attractive(targets, levels, i) {
        let earlier = choose|i: int| i < last && attractive(targets, levels, i);
        let first = lemma_one_ranks_first(targets, levels, last, earlier);
        if levels[last].rank() >= levels[first].rank() {
            last
        } else {
            first
        }
    } else {
        last
    }
}

/// Only relative position matters: where the unit finds the same offsets, a target has the
/// same distance and the same bearing.
pub proof fn only_relative_position_matters<U: Fn(ArithOp) -> Scalar>(
    unit: U,
    left: Target,
    left_x: Scalar,
    left_y: Scalar,
    right: Target,
    right_x: Scalar,
    right_y: Scalar,
    dx: Scalar,
    dy: Scalar,
    dist: Scalar,
    bearing: Scalar,
)
    requires
        steady(unit),
        answers(unit, ArithOp::Sub(left.x, left_x), dx),
        answers(unit, ArithOp::Sub(right.x, right_x), dx),
        answers(unit, ArithOp::Sub(left.y, left_y), dy),
        answers(unit, ArithOp::Sub(right.y, right_y), dy),
    ensures
        measured(unit, left, left_x, left_y, dx, dist) <==> measured(
            unit,
            right,
            right_x,
            right_y,
            dx,
            dist,
        ),
        bears(unit, left, left_x, left_y, bearing) <==> bears(
            unit,
            right,
            right_x,
            right_y,
            bearing,
        ),
{
    lemma_relative_distance(unit, left, left_x, left_y, right, right_x, right_y, dx, dy);
    lemma_relative_distance(unit, right, right_x, right_y, left, left_x, left_y, dx, dy);
}

proof fn lemma_relative_distance<U: Fn(ArithOp) -> Scalar>(
    unit: U,
    left: Target,
    left_x: Scalar,
    left_y: Scalar,
    right: Target,
    right_x: Scalar,
    right_y: Scalar,
    dx: Scalar,
    dy: Scalar,
)
    requires
        steady(unit),
        answers(unit, ArithOp::Sub(left.x, left_x), dx),
        answers(unit, ArithOp::Sub(right.x, right_x), dx),
        answers(unit, ArithOp::Sub(left.y, left_y), dy),
        answers(unit, ArithOp::Sub(right.y, right_y), dy),
    ensures
        forall|dx1: Scalar, dist: Scalar| #[trigger]
            measured(unit, left, left_x, left_y, dx1, dist) ==> dx1 == dx && measured(
                unit,
                right,
                right_x,
                right_y,
                dx,
                dist,
            ),
{
}

/// A distance is the root of the sum of the squared offsets, as the unit computes it, and
/// comes with the horizontal offset.
pub proof fn distances_are_euclidean<U: Fn(ArithOp) -> Scalar>(
    unit: U,
    t: Target,
    x: Scalar,
    y: Scalar,
    dx: Scalar,
    dy: Scalar,
    dist: Scalar,
)
    requires
        steady(unit),
        measured(unit, t, x, y, dx, dist),
        answers(unit, ArithOp::Sub(t.y, y), dy),
    ensures
        answers(unit, ArithOp::Sub(t.x, x), dx),
        exists|a: Scalar, b: Scalar, c: Scalar| #[trigger]
            answers(unit, ArithOp::Mul(dx, dx), a) && #[trigger] answers(
                unit,
                ArithOp::Mul(dy, dy),
                b,
            ) && #[trigger] answers(unit, ArithOp::Add(a, b), c) && answers(
                unit,
                ArithOp::Sqrt(c),
                dist,
            ),
{
}

/// A bearing is the horizontal offset over the distance, a distance below 0.001 counting as
/// 0.001; a quotient beyond -1 or 1 becomes -1 or 1.
pub proof fn bearings_are_offsets_over_distances<U: Fn(ArithOp) -> Scalar>(
    unit: U,
    t: Target,
    x: Scalar,
    y: Scalar,
    dx: Scalar,
    dist: Scalar,
    ratio: Scalar,
    bearing: Scalar,
)
    requires
        steady(unit),
        bears(unit, t, x, y, bearing),
        measured(unit, t, x, y, dx, dist),
        answers(
            unit,
            ArithOp::Div(
                dx,
                if dist.above(Scalar { bits: NEAREST }) {
                    dist
                } else {
                    Scalar { bits: NEAREST }
                },
            ),
            ratio,
        ),
    ensures
        (Scalar { bits: MINUS_ONE }).above(ratio) ==> bearing == (Scalar { bits: MINUS_ONE }),
        ratio.above(Scalar { bits: ONE }) ==> bearing == (Scalar { bits: ONE }),
        !(Scalar { bits: MINUS_ONE }).above(ratio) && !ratio.above(Scalar { bits: ONE })
            ==> bearing == ratio,
{
    let nearest = Scalar { bits: NEAREST };
    let (dx1, dist1, ratio1) = choose|dx1: Scalar, dist1: Scalar, ratio1: Scalar|
        {
            &&& #[trigger] measured(unit, t, x, y, dx1, dist1)
            &&& #[trigger] answers(unit, ArithOp::Div(dx1, dist1.raised_to(nearest)), ratio1)
            &&& bearing == ratio1.limited(Scalar { bits: MINUS_ONE }, Scalar { bits: ONE })
        };
    measuring_is_reproducible(unit, t, x, y, (dx, dist), (dx1, dist1));
}

/// What evaporation leaves of a level is the unit's product of the level and the decay, or
/// zero where that product is not positive; the decay is the same for all levels.
pub proof fn evaporation_is_a_product<U: Fn(ArithOp) -> Scalar>(
    unit: U,
    rate: Scalar,
    decay: Scalar,
    before: Seq<Scalar>,
    after: Seq<Scalar>,
    i: int,
    product: Scalar,
)
    requires
        steady(unit),
        field_evaporated(unit, rate, before, after),
        0 <= i < before.len(),
        answers(unit, ArithOp::Sub(Scalar { bits: ONE }, rate), decay),
        answers(unit, ArithOp::Mul(before[i], decay), product),
    ensures
        after.len() == before.len(),
        product.above(Scalar { bits: ZERO }) ==> after[i] == product,
        !product.above(Scalar { bits: ZERO }) ==> after[i] == (Scalar { bits: ZERO }),
{
    assert(evaporated(unit, decay, before[i], after[i]));
}

/// Evaporation strengthens no target, for a unit whose products with a share do not grow and
/// a rate that leaves a share.
pub proof fn evaporation_never_strengthens<U: Fn(ArithOp) -> Scalar>(
    unit: U,
    rate: Scalar,
    before: Seq<Scalar>,
    after: Seq<Scalar>,
    i: int,
)
    requires
        factors_shrink(unit),
        decays(unit, rate),
        field_evaporated(unit, rate, before, after),
        0 <= i < before.len(),
        is_level(before[i]),
    ensures
        !after[i].above(before[i]),
{
    let decay = choose|decay: Scalar| #[trigger]
        answers(unit, ArithOp::Sub(Scalar { bits: ONE }, rate), decay) && forall|k: int|
            0 <= k < before.len() ==> evaporated(unit, decay, before[k], #[trigger] after[k]);
    assert(evaporated(unit, decay, before[i], after[i]));
}

/// What a visit leaves of a level is itself the unit's product of the level and the visit
/// factor, which is one less 0.3 times the dampening.
pub proof fn visit_is_a_product<U: Fn(ArithOp) -> Scalar>(
    unit: U,
    dampening: Scalar,
    before: Scalar,
    after: Scalar,
    loss: Scalar,
    factor: Scalar,
)
    requires
        steady(unit),
        weakened(unit, dampening, before, after),
        answers(unit, ArithOp::Mul(dampening, Scalar { bits: VISIT_SHARE }), loss),
        answers(unit, ArithOp::Sub(Scalar { bits: ONE }, loss), factor),
    ensures
        answers(unit, ArithOp::Mul(before, factor), after),
{
}

/// A visit strengthens no target, for a unit whose products with a share do not grow and a
/// dampening that leaves a share.
pub proof fn visit_never_strengthens<U: Fn(ArithOp) -> Scalar>(
    unit: U,
    dampening: Scalar,
    before: Scalar,
    after: Scalar,
)
    requires
        factors_shrink(unit),
        visits_weaken(unit, dampening),
        weakened(unit, dampening, before, after),
        is_level(before),
    ensures
        !after.above(before),
{
}

} // verus!
