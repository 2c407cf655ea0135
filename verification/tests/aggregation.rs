//! World-level behaviour: spawning, absorption transactions, shatter,
//! reset, free-fall derivation and elemental obstacles, on concrete
//! scenarios.

use klod::geom::Vec3;
use klod::powers::Power;
use klod::world::{AggloData, AgglomerateToKlod, Body, Contact, World};
use klod::{BASELINE_MASS, MAGNITUDE_LIMIT};

fn v(x: i64, y: i64, z: i64) -> Vec3 {
    Vec3 { x, y, z }
}

/// A world with a camera and a freshly spawned aggregate at the origin.
fn playing_world() -> World {
    let mut w = World::new(v(0, 0, 0));
    w.spawn_camera();
    w.spawn_klod();
    assert!(w.klod.is_some());
    w
}

fn klod_mass(w: &World) -> i64 {
    w.klod.as_ref().expect("an aggregate should exist").total_mass
}

fn roster_len(w: &World) -> usize {
    w.klod.as_ref().expect("an aggregate should exist").limbs.len()
}

/// Absorb one candidate through the full contact pipeline: emit events
/// for the contact between the core ball and the candidate, then drain
/// them.
fn contact_and_absorb(w: &mut World, candidate: usize) {
    let ball = w.klod.as_ref().unwrap().limbs[0];
    let events = w.shlurp_agglomerable(&vec![Contact { first: ball, second: candidate }]);
    w.agglo_to_klod(&events);
}

#[test]
fn spawn_is_idempotent() {
    let mut w = playing_world();
    let id = w.klod.as_ref().unwrap().id;
    let mass = klod_mass(&w);
    let bodies = w.bodies.len();
    w.spawn_klod();
    assert!(w.klod.is_some());
    assert_eq!(w.klod.as_ref().unwrap().id, id);
    assert_eq!(klod_mass(&w), mass);
    assert_eq!(w.bodies.len(), bodies);
}

#[test]
fn spawn_needs_camera() {
    let mut w = World::new(v(0, 0, 0));
    w.spawn_klod();
    assert!(w.klod.is_none());
    assert_eq!(w.bodies.len(), 0);
    w.spawn_camera();
    w.spawn_klod();
    assert!(w.klod.is_some());
    // Core ball plus six decorative hand parts.
    assert_eq!(w.bodies.len(), 7);
    assert_eq!(klod_mass(&w), BASELINE_MASS);
    assert_eq!(roster_len(&w), 1);
}

#[test]
fn absorption_accumulates_mass_exactly() {
    let mut w = playing_world();
    let c1 = w.spawn_agglomerable(AggloData::new(100, Power::Neutral), v(500, 0, 0), 7, 0, 0, None);
    let c2 = w.spawn_agglomerable(AggloData::new(150, Power::Neutral), v(0, 400, 0), 8, 0, 0, None);
    contact_and_absorb(&mut w, c1);
    assert_eq!(klod_mass(&w), BASELINE_MASS + 100);
    contact_and_absorb(&mut w, c2);
    assert_eq!(klod_mass(&w), BASELINE_MASS + 100 + 150);
    assert_eq!(roster_len(&w), 3);
    // The candidate slots were repurposed in place into limbs.
    assert!(matches!(w.bodies[c1], Body::Limb { mass: 100, .. }));
    assert!(matches!(w.bodies[c2], Body::Limb { mass: 150, .. }));
}

#[test]
fn absorption_captures_relative_pose() {
    let mut w = World::new(v(100, 200, 300));
    w.spawn_camera();
    w.spawn_klod();
    let c = w.spawn_agglomerable(AggloData::new(100, Power::Neutral), v(400, 200, 300), 7, 0, 0, None);
    contact_and_absorb(&mut w, c);
    match &w.bodies[c] {
        Body::Limb { rel_pos, .. } => assert_eq!(*rel_pos, v(300, 0, 0)),
        other => panic!("expected a limb, found {:?}", other),
    }
}

#[test]
fn rejected_absorption_changes_nothing() {
    let mut w = playing_world();
    // Too heavy for a resting aggregate: 0.3 >= 0.5 * 4.2 / 10.
    let c = w.spawn_agglomerable(AggloData::new(300, Power::Neutral), v(500, 0, 0), 7, 0, 0, None);
    contact_and_absorb(&mut w, c);
    assert_eq!(klod_mass(&w), BASELINE_MASS);
    assert_eq!(roster_len(&w), 1);
    assert!(matches!(w.bodies[c], Body::Candidate { .. }));
}

#[test]
fn stale_or_malformed_events_are_skipped() {
    let mut w = playing_world();
    let c = w.spawn_agglomerable(AggloData::new(100, Power::Neutral), v(500, 0, 0), 7, 0, 0, None);
    // Wrong aggregate id.
    let stale = w.klod.as_ref().unwrap().id + 1;
    w.absorb(AgglomerateToKlod { klod: stale, agglo: c, agglo_weight: 100 });
    assert_eq!(klod_mass(&w), BASELINE_MASS);
    // Slot out of bounds.
    let id = w.klod.as_ref().unwrap().id;
    w.absorb(AgglomerateToKlod { klod: id, agglo: w.bodies.len(), agglo_weight: 100 });
    assert_eq!(klod_mass(&w), BASELINE_MASS);
    // Slot that holds no candidate (the core ball).
    let ball = w.klod.as_ref().unwrap().limbs[0];
    w.absorb(AgglomerateToKlod { klod: id, agglo: ball, agglo_weight: 100 });
    assert_eq!(klod_mass(&w), BASELINE_MASS);
    // Unrepresentable weight.
    w.absorb(AgglomerateToKlod { klod: id, agglo: c, agglo_weight: 0 });
    w.absorb(AgglomerateToKlod { klod: id, agglo: c, agglo_weight: MAGNITUDE_LIMIT + 1 });
    assert_eq!(klod_mass(&w), BASELINE_MASS);
    assert!(matches!(w.bodies[c], Body::Candidate { .. }));
}

#[test]
fn end_to_end_gate_scenario() {
    // Aggregate at baseline mass 4.2, at rest; candidate of weight 0.3
    // at relative distance 0.5: the radius gate passes but the weight
    // gate fails (0.3 >= 0.5 * 0.42), so the absorption is rejected.
    let mut w = playing_world();
    let c = w.spawn_agglomerable(AggloData::new(300, Power::Neutral), v(500, 0, 0), 7, 0, 0, None);
    contact_and_absorb(&mut w, c);
    assert_eq!(klod_mass(&w), BASELINE_MASS);
    // At twice the baseline mass the weight gate limit becomes 0.42,
    // both gates pass, and the mass grows to exactly 8.7.
    w.klod.as_mut().unwrap().total_mass = 2 * BASELINE_MASS;
    contact_and_absorb(&mut w, c);
    assert_eq!(klod_mass(&w), 2 * BASELINE_MASS + 300);
}

#[test]
fn shatter_restores_baseline() {
    let mut w = playing_world();
    let c1 = w.spawn_agglomerable(AggloData::new(100, Power::Fire), v(500, 0, 0), 7, 0, 0, None);
    let c2 = w.spawn_agglomerable(AggloData::new(150, Power::Water), v(0, 400, 0), 8, 0, 0, None);
    contact_and_absorb(&mut w, c1);
    contact_and_absorb(&mut w, c2);
    assert_eq!(klod_mass(&w), BASELINE_MASS + 250);
    w.destroy_klod();
    assert_eq!(klod_mass(&w), BASELINE_MASS);
    assert_eq!(roster_len(&w), 0);
    assert_eq!(w.klod.as_ref().unwrap().velocity, v(0, 0, 0));
}

#[test]
fn shatter_throws_fragments_outward() {
    let mut w = playing_world();
    let c = w.spawn_agglomerable(AggloData::new(100, Power::Neutral), v(500, 0, 0), 7, 0, 0, None);
    contact_and_absorb(&mut w, c);
    // Give the aggregate a pre-shatter velocity: it becomes the recoil
    // base of every fragment, and is zeroed on the aggregate itself.
    w.klod.as_mut().unwrap().velocity = v(0, 0, 2000);
    w.destroy_klod();
    // The absorbed limb flies out at ten times its relative pose plus
    // the recoil base, keeping its mass and collider.
    match &w.bodies[c] {
        Body::Dynamic { position, velocity, mass, shape } => {
            assert_eq!(*position, v(500, 0, 0));
            assert_eq!(*velocity, v(5000, 0, 2000));
            assert_eq!(*mass, 100);
            assert_eq!(*shape, 7);
        },
        other => panic!("expected a dynamic fragment, found {:?}", other),
    }
    // A decorative hand part flies out at three times its offset.
    match &w.bodies[1] {
        Body::Dynamic { velocity, .. } => assert_eq!(*velocity, v(2400, 0, 2000)),
        other => panic!("expected a dynamic fragment, found {:?}", other),
    }
    // Shattering without an aggregate is a no-op.
    let mut empty = World::new(v(0, 0, 0));
    empty.destroy_klod();
    assert!(empty.klod.is_none());
}

#[test]
fn reset_respawns_fresh_aggregate() {
    let mut w = playing_world();
    let c = w.spawn_agglomerable(AggloData::new(100, Power::Neutral), v(500, 0, 0), 7, 0, 0, None);
    let survivor = w.spawn_agglomerable(AggloData::new(200, Power::Fire), v(5000, 0, 0), 9, 0, 0, None);
    contact_and_absorb(&mut w, c);
    w.klod.as_mut().unwrap().position = v(900, 900, 900);
    let before = w.bodies.len();
    w.reset_klod();
    assert_eq!(klod_mass(&w), BASELINE_MASS);
    assert_eq!(roster_len(&w), 1);
    assert_eq!(w.klod.as_ref().unwrap().position, v(0, 0, 0));
    // The absorbed limb was despawned outright, not thrown outward.
    assert!(matches!(w.bodies[c], Body::Vacant));
    // Freestanding candidates survive a reset.
    assert!(matches!(w.bodies[survivor], Body::Candidate { .. }));
    // A fresh core ball and hand parts were attached.
    assert_eq!(w.bodies.len(), before + 7);
    // Resetting without an aggregate spawns one.
    let mut empty = World::new(v(1, 2, 3));
    empty.spawn_camera();
    empty.reset_klod();
    assert!(empty.klod.is_some());
    assert_eq!(empty.klod.as_ref().unwrap().position, v(1, 2, 3));
}

#[test]
fn freefall_follows_limb_contacts() {
    let mut w = playing_world();
    let ball = w.klod.as_ref().unwrap().limbs[0];
    // No contacts: free fall.
    w.set_freefall(&vec![]);
    assert!(w.klod.as_ref().unwrap().in_free_fall);
    // A contact touching the core ball: not in free fall.
    w.set_freefall(&vec![Contact { first: 999, second: ball }]);
    assert!(!w.klod.as_ref().unwrap().in_free_fall);
    // Contacts touching nothing of the aggregate: free fall again.
    w.set_freefall(&vec![Contact { first: 999, second: 998 }]);
    assert!(w.klod.as_ref().unwrap().in_free_fall);
}

#[test]
fn contact_classification() {
    let mut w = playing_world();
    let ball = w.klod.as_ref().unwrap().limbs[0];
    let id = w.klod.as_ref().unwrap().id;
    let c = w.spawn_agglomerable(AggloData::new(100, Power::Neutral), v(500, 0, 0), 7, 0, 0, None);
    // Limb-candidate in either order yields the same event.
    let e1 = w.shlurp_agglomerable(&vec![Contact { first: ball, second: c }]);
    let e2 = w.shlurp_agglomerable(&vec![Contact { first: c, second: ball }]);
    assert_eq!(e1, vec![AgglomerateToKlod { klod: id, agglo: c, agglo_weight: 100 }]);
    assert_eq!(e2, e1);
    // Candidate-candidate and limb-limb pairs yield nothing.
    let none1 = w.shlurp_agglomerable(&vec![Contact { first: c, second: c }]);
    assert!(none1.is_empty());
    let none2 = w.shlurp_agglomerable(&vec![Contact { first: ball, second: ball }]);
    assert!(none2.is_empty());
    // Out-of-bounds slots yield nothing.
    let none3 = w.shlurp_agglomerable(&vec![Contact { first: 999, second: c }]);
    assert!(none3.is_empty());
}

#[test]
fn obstacle_breaks_on_power_superset() {
    let mut w = playing_world();
    let fire = w.spawn_agglomerable(AggloData::new(100, Power::Fire), v(500, 0, 0), 7, 0, 0, None);
    let water = w.spawn_agglomerable(AggloData::new(100, Power::Water), v(0, 400, 0), 8, 0, 0, None);
    contact_and_absorb(&mut w, fire);
    contact_and_absorb(&mut w, water);
    // Roster powers are now {Fire, Water, Neutral} (the core ball is
    // neutral): a superset of {Fire, Water}.
    let obstacle = w.spawn_obstacle(vec![Power::Fire, Power::Water], v(2000, 0, 0));
    w.break_elemental_obstacle(Contact { first: fire, second: obstacle });
    assert!(matches!(w.bodies[obstacle], Body::Vacant));
    // The contributing limbs were consumed; the neutral core remains.
    assert!(matches!(w.bodies[fire], Body::Vacant));
    assert!(matches!(w.bodies[water], Body::Vacant));
    assert_eq!(roster_len(&w), 1);
    let mass = klod_mass(&w);
    assert_eq!(mass, BASELINE_MASS + 200);
}

#[test]
fn obstacle_survives_missing_power() {
    let mut w = playing_world();
    let fire = w.spawn_agglomerable(AggloData::new(100, Power::Fire), v(500, 0, 0), 7, 0, 0, None);
    contact_and_absorb(&mut w, fire);
    // Roster powers {Fire, Neutral} do not cover {Fire, Water}.
    let obstacle = w.spawn_obstacle(vec![Power::Fire, Power::Water], v(2000, 0, 0));
    w.break_elemental_obstacle(Contact { first: fire, second: obstacle });
    assert!(matches!(w.bodies[obstacle], Body::Obstacle { .. }));
    assert!(matches!(w.bodies[fire], Body::Limb { .. }));
    assert_eq!(roster_len(&w), 2);
    // A contact without a limb on either side does nothing.
    let c = w.spawn_agglomerable(AggloData::new(100, Power::Water), v(0, 400, 0), 9, 0, 0, None);
    w.break_elemental_obstacle(Contact { first: c, second: obstacle });
    assert!(matches!(w.bodies[obstacle], Body::Obstacle { .. }));
}

#[test]
fn decorative_visual_follows_its_candidate() {
    let mut w = playing_world();
    let decor = w.spawn_decor();
    let c = w.spawn_agglomerable(
        AggloData::new(100, Power::Fire),
        v(500, 0, 0),
        7,
        0,
        0,
        Some(decor),
    );
    assert!(matches!(w.bodies[decor], Body::Decor));
    contact_and_absorb(&mut w, c);
    // The decorative sub-entity became an attached accessory mirroring
    // the limb's pose.
    match &w.bodies[decor] {
        Body::Accessory { rel_pos } => assert_eq!(*rel_pos, v(500, 0, 0)),
        other => panic!("expected an accessory, found {:?}", other),
    }
    // Breaking an obstacle that consumes the limb destroys the visual
    // with it.
    let obstacle = w.spawn_obstacle(vec![Power::Fire], v(2000, 0, 0));
    w.break_elemental_obstacle(Contact { first: c, second: obstacle });
    assert!(matches!(w.bodies[c], Body::Vacant));
    assert!(matches!(w.bodies[decor], Body::Vacant));
    assert!(matches!(w.bodies[obstacle], Body::Vacant));
}

#[test]
fn event_queue_drains_in_order() {
    let mut w = playing_world();
    let ball = w.klod.as_ref().unwrap().limbs[0];
    let near = w.spawn_agglomerable(AggloData::new(100, Power::Neutral), v(500, 0, 0), 7, 0, 0, None);
    // Just outside the baseline reach, but inside the reach the first
    // absorption grants: whether it is absorbed depends on queue order.
    let far = w.spawn_agglomerable(AggloData::new(100, Power::Neutral), v(1010, 0, 0), 8, 0, 0, None);
    let contacts = vec![
        Contact { first: ball, second: near },
        Contact { first: ball, second: far },
    ];
    let events = w.shlurp_agglomerable(&contacts);
    assert_eq!(events.len(), 2);
    w.agglo_to_klod(&events);
    // The near candidate was absorbed first, growing the reach past
    // 1.01 units, so the far one followed in the same drain.
    assert_eq!(klod_mass(&w), BASELINE_MASS + 200);
    assert!(matches!(w.bodies[near], Body::Limb { .. }));
    assert!(matches!(w.bodies[far], Body::Limb { .. }));
}

#[test]
fn mass_cap_rejects_unrepresentable_growth() {
    let mut w = playing_world();
    let c = w.spawn_agglomerable(AggloData::new(1000, Power::Neutral), v(100, 0, 0), 7, 0, 0, None);
    // Make the aggregate heavy enough that both gates pass, while any
    // further growth would exceed the representable range.
    w.klod.as_mut().unwrap().total_mass = MAGNITUDE_LIMIT;
    contact_and_absorb(&mut w, c);
    assert_eq!(klod_mass(&w), MAGNITUDE_LIMIT);
    assert!(matches!(w.bodies[c], Body::Candidate { .. }));
}
