//! Decision-gate behaviour on concrete values: radius-gate scaling,
//! the weight-gate floor, and the edge cases around both.

use klod::geom::Vec3;
use klod::klod::Klod;
use klod::powers::Power;
use klod::state::{EndReason, GameOver, GameState};
use klod::{BASELINE_MASS, MAX_KLOD_SPEED};

fn bare_klod(total_mass: i64, velocity: Vec3) -> Klod {
    Klod {
        id: 0,
        total_mass,
        position: Vec3 { x: 0, y: 0, z: 0 },
        velocity,
        in_free_fall: true,
        limbs: Vec::new(),
    }
}

fn zero() -> Vec3 {
    Vec3 { x: 0, y: 0, z: 0 }
}

#[test]
fn radius_gate_scales_with_mass() {
    // At baseline mass the reach is one unit.
    let k = bare_klod(BASELINE_MASS, zero());
    assert!(k.within_radius(Vec3 { x: 500, y: 0, z: 0 }));
    assert!(k.within_radius(Vec3 { x: 999, y: 0, z: 0 }));
    assert!(!k.within_radius(Vec3 { x: 1000, y: 0, z: 0 }));
    // At twice the baseline mass the reach is two units.
    let k2 = bare_klod(2 * BASELINE_MASS, zero());
    assert!(k2.within_radius(Vec3 { x: 1999, y: 0, z: 0 }));
    assert!(!k2.within_radius(Vec3 { x: 2000, y: 0, z: 0 }));
}

#[test]
fn radius_gate_zero_distance_passes() {
    let k = bare_klod(BASELINE_MASS, zero());
    assert!(k.within_radius(zero()));
}

#[test]
fn radius_gate_uses_euclidean_distance() {
    // (600, 800, 0) has length exactly 1000, i.e. one unit.
    let k = bare_klod(BASELINE_MASS, zero());
    assert!(!k.within_radius(Vec3 { x: 600, y: 800, z: 0 }));
    assert!(k.within_radius(Vec3 { x: 600, y: 799, z: 0 }));
}

#[test]
fn weight_gate_floor_at_zero_velocity() {
    // At rest the speed bonus is floored at one half, so the limit is
    // 0.5 * total_mass / 10: at baseline mass (4.2) that is 0.21.
    let k = bare_klod(BASELINE_MASS, zero());
    assert!(k.can_slurp(209, zero()));
    assert!(!k.can_slurp(210, zero()));
}

#[test]
fn weight_gate_zero_weight_passes() {
    let k = bare_klod(BASELINE_MASS, zero());
    assert!(k.can_slurp(0, zero()));
}

#[test]
fn weight_gate_speed_bonus() {
    // At top speed the bonus is 1.2, so the limit is 1.2 * 4.2 / 10 =
    // 0.504.
    let fast = Vec3 { x: MAX_KLOD_SPEED, y: 0, z: 0 };
    let k = bare_klod(BASELINE_MASS, fast);
    assert!(k.can_slurp(503, fast));
    assert!(!k.can_slurp(504, fast));
    // A slow roll stays on the floor: half the speed needed for a 0.5
    // bonus changes nothing.
    let slow = Vec3 { x: 5833, y: 0, z: 0 };
    assert!(k.can_slurp(209, slow));
    assert!(!k.can_slurp(210, slow));
}

#[test]
fn may_absorb_needs_both_gates() {
    let k = bare_klod(BASELINE_MASS, zero());
    // Radius fine, weight too heavy.
    assert!(!k.may_absorb(300, Vec3 { x: 500, y: 0, z: 0 }, zero()));
    // Weight fine, too far away.
    assert!(!k.may_absorb(100, Vec3 { x: 1500, y: 0, z: 0 }, zero()));
    // Both fine.
    assert!(k.may_absorb(100, Vec3 { x: 500, y: 0, z: 0 }, zero()));
}

#[test]
fn bone_mass_score() {
    let k = bare_klod(8700, zero());
    assert_eq!(k.weight(), (8700 - BASELINE_MASS) * 10);
    let base = bare_klod(BASELINE_MASS, zero());
    assert_eq!(base.weight(), 0);
}

#[test]
fn power_labels() {
    assert_eq!(Power::Fire.label(), "Fire");
    assert_eq!(Power::Water.label(), "Water");
    assert_eq!(Power::Cat.label(), "Cat");
    assert_eq!(Power::AmberRod.label(), "AmberRod");
    assert_eq!(Power::Dig.label(), "Dig");
    assert_eq!(Power::Saw.label(), "Saw");
    assert_eq!(Power::Neutral.label(), "Neutral");
}

#[test]
fn vector_arithmetic() {
    let a = Vec3 { x: 3, y: -4, z: 5 };
    let b = Vec3 { x: 1, y: 1, z: 1 };
    assert_eq!(a.plus(b), Vec3 { x: 4, y: -3, z: 6 });
    assert_eq!(a.minus(b), Vec3 { x: 2, y: -5, z: 4 });
    assert_eq!(a.scaled(10), Vec3 { x: 30, y: -40, z: 50 });
    assert_eq!(a.norm_sq_exec(), 9 + 16 + 25);
    assert_eq!(Vec3::zero(), Vec3 { x: 0, y: 0, z: 0 });
}

#[test]
fn game_states_are_distinct() {
    assert_ne!(GameState::MainMenu, GameState::Playing);
    assert_ne!(GameState::Pause, GameState::Editor);
    assert_eq!(GameState::TimeUp, GameState::TimeUp);
    assert_ne!(GameState::GameComplete, GameState::TimeUp);
    let over = GameOver(EndReason::Victory);
    assert_eq!(over.0, EndReason::Victory);
    assert_ne!(EndReason::Victory, EndReason::Loss);
}
