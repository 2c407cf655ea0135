//! The aggregate body ("klod") and its absorption decision gates.
//!
//! A candidate is absorbed only if two independent checks pass:
//!
//! * the radius gate: the candidate's distance from the aggregate's
//!   center is below `total_mass / BASELINE_MASS` units, so the reach
//!   grows linearly with accumulated mass;
//! * the weight gate: the candidate's weight is below
//!   `max(|velocity| * 1.2 / MAX_KLOD_SPEED, 0.5) * total_mass / 10`,
//!   so capacity grows with speed, floored so that a stationary
//!   aggregate can still absorb light objects.
//!
//! Both gates are stated below over squared magnitudes, which avoids
//! square roots and is exact because every compared quantity is
//! non-negative.

use vstd::prelude::*;

use crate::geom::{lemma_square_bound, Vec3};
use crate::{BASELINE_MASS, MAGNITUDE_LIMIT, MAX_KLOD_SPEED, SCALE};

verus! {

/// The single growing aggregate body.
///
/// `limbs` is the roster of arena slots currently attached as limbs;
/// the containing world keeps it consistent with the slot tags.
#[derive(Debug)]
pub struct Klod {
    /// Identity of this aggregate incarnation; stale events carrying
    /// another id are ignored.
    pub id: u64,
    /// Accumulated mass in thousandths, never below `BASELINE_MASS`
    /// while well-formed.
    pub total_mass: i64,
    pub position: Vec3,
    pub velocity: Vec3,
    /// Whether no limb currently touches anything; derived each tick
    /// from the contact list.
    pub in_free_fall: bool,
    /// Arena indices of the attached limb shards.
    pub limbs: Vec<usize>,
}

/// Specification-level image of a `Klod`, with the roster as a sequence.
pub struct KlodModel {
    pub id: u64,
    pub total_mass: i64,
    pub position: Vec3,
    pub velocity: Vec3,
    pub in_free_fall: bool,
    pub limbs: Seq<usize>,
}

impl View for Klod {
    type V = KlodModel;

    open spec fn view(&self) -> KlodModel {
        KlodModel {
            id: self.id,
            total_mass: self.total_mass,
            position: self.position,
            velocity: self.velocity,
            in_free_fall: self.in_free_fall,
            limbs: self.limbs@,
        }
    }
}

impl KlodModel {
    /// Numeric sanity of the aggregate record itself.
    pub open spec fn bounded(self) -> bool {
        &&& 1 <= self.total_mass <= MAGNITUDE_LIMIT
        &&& self.position.within(MAGNITUDE_LIMIT as int)
        &&& self.velocity.within(MAGNITUDE_LIMIT as int)
    }
}

/// The radius gate: `distance(rel) < total_mass / BASELINE_MASS` units,
/// squared. `rel` is the candidate's translation relative to the
/// aggregate's center, in thousandths.
pub open spec fn radius_gate(total_mass: int, rel: Vec3) -> bool {
    rel.norm_sq() * (BASELINE_MASS * BASELINE_MASS) < total_mass * total_mass * (SCALE * SCALE)
}

/// Whether the speed bonus `|velocity| * 1.2 / MAX_KLOD_SPEED` is at or
/// below its floor of one half, squared (`1.2 = 6/5`, so the bonus is at
/// most one half exactly when `12 * |velocity| <= 5 * MAX_KLOD_SPEED`).
pub open spec fn speed_bonus_floored(velocity: Vec3) -> bool {
    144 * velocity.norm_sq() <= 25 * (MAX_KLOD_SPEED * MAX_KLOD_SPEED)
}

/// The weight gate:
/// `weight < max(|velocity| * 1.2 / MAX_KLOD_SPEED, 0.5) * total_mass / 10`.
/// On the floored branch this is `20 * weight < total_mass`; otherwise it
/// is `25 * MAX_KLOD_SPEED * weight < 3 * total_mass * |velocity|`,
/// squared. Exact for the non-negative weights and masses the world
/// admits.
pub open spec fn weight_gate(total_mass: int, weight: int, velocity: Vec3) -> bool {
    if speed_bonus_floored(velocity) {
        20 * weight < total_mass
    } else {
        (25 * MAX_KLOD_SPEED * weight) * (25 * MAX_KLOD_SPEED * weight) < 9 * (total_mass
            * total_mass) * velocity.norm_sq()
    }
}

/// Both gates together: the full absorption decision.
pub open spec fn may_absorb_spec(total_mass: int, weight: int, rel: Vec3, velocity: Vec3) -> bool {
    radius_gate(total_mass, rel) && weight_gate(total_mass, weight, velocity)
}

impl Klod {
    /// Radius gate check: is a candidate at relative translation `rel`
    /// close enough to the center to be absorbed?
    pub fn within_radius(&self, rel: Vec3) -> (r: bool)
        requires
            1 <= self.total_mass <= MAGNITUDE_LIMIT,
            rel.within(4 * MAGNITUDE_LIMIT as int),
        ensures
            r == radius_gate(self.total_mass as int, rel),
    {
        let ns: i128 = rel.norm_sq_exec();
        let m: i128 = self.total_mass as i128;
        let baseline_sq: i128 = 17_640_000;
        let scale_sq: i128 = 1_000_000;
        proof {
            assert(BASELINE_MASS * BASELINE_MASS == 17_640_000int) by (nonlinear_arith);
            assert(SCALE * SCALE == 1_000_000int) by (nonlinear_arith);
            assert(0 <= ns <= 48_000_000_000_000_000_000int) by {
                lemma_square_bound(rel.x as int, 4 * MAGNITUDE_LIMIT as int);
                lemma_square_bound(rel.y as int, 4 * MAGNITUDE_LIMIT as int);
                lemma_square_bound(rel.z as int, 4 * MAGNITUDE_LIMIT as int);
                assert((4 * MAGNITUDE_LIMIT) * (4 * MAGNITUDE_LIMIT)
                    == 16_000_000_000_000_000_000int) by (nonlinear_arith);
            };
            assert(0 <= m * m <= 1_000_000_000_000_000_000int) by (nonlinear_arith)
                requires
                    1 <= m <= 1_000_000_000int,
            ;
        }
        ns * baseline_sq < m * m * scale_sq
    }

    /// Weight gate check: can a candidate of this weight be absorbed at
    /// the given aggregate velocity?
    pub fn can_slurp(&self, weight: i64, velocity: Vec3) -> (r: bool)
        requires
            1 <= self.total_mass <= MAGNITUDE_LIMIT,
            0 <= weight <= MAGNITUDE_LIMIT,
            velocity.within(MAGNITUDE_LIMIT as int),
        ensures
            r == weight_gate(self.total_mass as int, weight as int, velocity),
    {
        let ns: i128 = velocity.norm_sq_exec();
        let m: i128 = self.total_mass as i128;
        let w: i128 = weight as i128;
        // 25 * MAX_KLOD_SPEED * MAX_KLOD_SPEED and 25 * MAX_KLOD_SPEED,
        // written out so that the solver sees literal bounds.
        let speed_cap_sq: i128 = 19_600_000_000;
        let gate_factor: i128 = 700_000;
        proof {
            assert(25 * (MAX_KLOD_SPEED * MAX_KLOD_SPEED) == 19_600_000_000int)
                by (nonlinear_arith);
            assert(25 * MAX_KLOD_SPEED == 700_000int);
            assert(0 <= ns <= 3_000_000_000_000_000_000int) by {
                lemma_square_bound(velocity.x as int, MAGNITUDE_LIMIT as int);
                lemma_square_bound(velocity.y as int, MAGNITUDE_LIMIT as int);
                lemma_square_bound(velocity.z as int, MAGNITUDE_LIMIT as int);
            };
            assert(0 <= 700_000 * w <= 700_000_000_000_000int);
            assert(0 <= (700_000 * w) * (700_000 * w)
                <= 490_000_000_000_000_000_000_000_000_000int) by (nonlinear_arith)
                requires
                    0 <= 700_000 * w <= 700_000_000_000_000int,
            ;
            assert(0 <= m * m <= 1_000_000_000_000_000_000int) by (nonlinear_arith)
                requires
                    1 <= m <= 1_000_000_000int,
            ;
            assert(0 <= 9 * (m * m) * ns <= 27_000_000_000_000_000_000_000_000_000_000_000_000int)
                by (nonlinear_arith)
                requires
                    0 <= m * m <= 1_000_000_000_000_000_000int,
                    0 <= ns <= 3_000_000_000_000_000_000int,
            ;
        }
        if 144 * ns <= speed_cap_sq {
            20 * w < m
        } else {
            let lhs: i128 = gate_factor * w;
            lhs * lhs < 9 * (m * m) * ns
        }
    }

    /// The full absorption decision over one candidate: both gates must
    /// pass.
    pub fn may_absorb(&self, weight: i64, rel: Vec3, velocity: Vec3) -> (r: bool)
        requires
            1 <= self.total_mass <= MAGNITUDE_LIMIT,
            0 <= weight <= MAGNITUDE_LIMIT,
            rel.within(4 * MAGNITUDE_LIMIT as int),
            velocity.within(MAGNITUDE_LIMIT as int),
        ensures
            r == may_absorb_spec(self.total_mass as int, weight as int, rel, velocity),
    {
        self.within_radius(rel) && self.can_slurp(weight, velocity)
    }

    /// The score value of the accumulated mass: ten times the mass
    /// gained over the baseline, in thousandths.
    pub fn weight(&self) -> (r: i64)
        requires
            1 <= self.total_mass <= MAGNITUDE_LIMIT,
        ensures
            r == (self.total_mass - BASELINE_MASS) * 10,
    {
        (self.total_mass - BASELINE_MASS) * 10
    }
}

/// Radius-gate scaling law: at baseline mass the reach is exactly one
/// unit, at twice the baseline mass exactly two units, whatever the
/// direction of the candidate.
pub proof fn lemma_radius_gate_scaling(rel: Vec3)
    ensures
        radius_gate(BASELINE_MASS as int, rel) <==> rel.norm_sq() < SCALE * SCALE,
        radius_gate(2 * BASELINE_MASS as int, rel) <==> rel.norm_sq() < 4 * (SCALE * SCALE),
{
    let ns = rel.norm_sq();
    assert((ns * (BASELINE_MASS * BASELINE_MASS) < BASELINE_MASS * BASELINE_MASS * (SCALE * SCALE))
        <==> ns < SCALE * SCALE) by (nonlinear_arith);
    assert((ns * (BASELINE_MASS * BASELINE_MASS) < (2 * BASELINE_MASS) * (2 * BASELINE_MASS) * (
    SCALE * SCALE)) <==> ns < 4 * (SCALE * SCALE)) by (nonlinear_arith);
}

/// Weight-gate floor law: at zero velocity the speed bonus sits at its
/// floor of one half, so a candidate is absorbable exactly when twenty
/// times its weight is below the aggregate's mass
/// (`weight < 0.5 * total_mass / 10`).
pub proof fn lemma_weight_gate_floor(total_mass: int, weight: int)
    ensures
        weight_gate(total_mass, weight, Vec3 { x: 0, y: 0, z: 0 }) <==> 20 * weight < total_mass,
{
}

} // verus!
