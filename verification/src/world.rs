//! The arena of physics bodies and the aggregate's state transitions:
//! spawning, absorption, shatter/reset, obstacle breaking and free-fall
//! derivation.
//!
//! Each body occupies one arena slot under a stable index; changing a
//! body's role (candidate to limb, limb to independent fragment) changes
//! the slot's tag in place, so every scene-graph link held by the host
//! engine survives the transition. The aggregate's roster lists the slots
//! currently attached as limbs, and well-formedness ties the roster and
//! the slot tags together.
//!
//! Every transition has a specification-level counterpart (a function
//! from world model to world model); the executable methods are proved to
//! realise exactly those functions, and the laws at the end of this file
//! are proved about the functions themselves.

use vstd::prelude::*;

use crate::geom::Vec3;
use crate::klod::{may_absorb_spec, Klod, KlodModel};
use crate::powers::Power;
use crate::{BASELINE_MASS, MAGNITUDE_LIMIT};

verus! {

/// Scaling applied to a limb's relative translation when it is thrown
/// outward by a shatter.
pub const LIMB_RECOIL_FACTOR: i64 = 10;

/// Scaling applied to a decorative accessory's relative translation when
/// it is thrown outward by a shatter.
pub const ACCESSORY_RECOIL_FACTOR: i64 = 3;

/// Distance from the aggregate's center at which the decorative hand
/// parts sit, in thousandths of a unit.
pub const HAND_OFFSET: i64 = 800;

/// Opaque asset handle for the aggregate's core ball collider.
pub const KLOD_BALL_SHAPE: u64 = 0;

/// Opaque asset handle for the small box collider given to shattered
/// decorative accessories.
pub const DEBRIS_SHAPE: u64 = 1;

/// Mass given to a shattered decorative accessory, in thousandths.
pub const DEBRIS_MASS: i64 = 1000;

/// One physics body, tagged with its current role.
#[derive(Debug)]
pub enum Body {
    /// A despawned or never-used slot.
    Vacant,
    /// A freestanding dynamic object eligible for absorption.
    Candidate {
        /// Mass-equivalent used by the weight gate and added on
        /// absorption, in thousandths.
        weight: i64,
        power: Power,
        position: Vec3,
        /// Opaque collider handle owned by the asset layer.
        shape: u64,
        friction: i64,
        restitution: i64,
        /// Decorative sub-entity that follows this object, if any.
        visual: Option<usize>,
    },
    /// An absorbed fragment, attached to the aggregate.
    Limb {
        /// Id of the owning aggregate.
        owner: u64,
        /// Decorative sub-entity inherited from the candidate, if any.
        visual: Option<usize>,
        /// Pose relative to the aggregate, captured once at absorption.
        rel_pos: Vec3,
        mass: i64,
        power: Power,
        shape: u64,
        friction: i64,
        restitution: i64,
    },
    /// A decorative part attached to the aggregate; no independent
    /// physics.
    Accessory { rel_pos: Vec3 },
    /// A decorative sub-entity of a freestanding candidate.
    Decor,
    /// An independent dynamic body that is not absorbable (a shattered
    /// fragment).
    Dynamic { position: Vec3, velocity: Vec3, mass: i64, shape: u64 },
    /// A breakable obstacle demanding the listed powers.
    Obstacle { position: Vec3, required_powers: Vec<Power> },
}

/// A contact reported by the physics engine between two arena slots.
#[derive(Clone, Copy, Debug, PartialEq, Eq, Structural)]
pub struct Contact {
    pub first: usize,
    pub second: usize,
}

/// An accepted-for-consideration absorption event: a contact between a
/// limb of aggregate `klod` and candidate slot `agglo`, carrying the
/// candidate's weight at emission time.
#[derive(Clone, Copy, Debug, PartialEq, Eq, Structural)]
pub struct AgglomerateToKlod {
    pub klod: u64,
    pub agglo: usize,
    pub agglo_weight: i64,
}

/// Specification-level image of a `World`.
#[verifier::ext_equal]
pub struct WorldModel {
    pub klod: Option<KlodModel>,
    pub bodies: Seq<Body>,
    pub camera: bool,
    pub spawn_point: Vec3,
    pub next_id: u64,
}

/// The level state: at most one aggregate, an arena of bodies, and the
/// spawn-time configuration the host engine provided.
#[derive(Debug)]
pub struct World {
    pub klod: Option<Klod>,
    pub bodies: Vec<Body>,
    /// Whether the orbit camera exists; the aggregate refuses to spawn
    /// without one.
    pub camera: bool,
    /// Where the aggregate (re)appears.
    pub spawn_point: Vec3,
    /// Source of fresh aggregate ids.
    pub next_id: u64,
}

impl View for World {
    type V = WorldModel;

    open spec fn view(&self) -> WorldModel {
        WorldModel {
            klod: match self.klod {
                Some(k) => Some(k@),
                None => None,
            },
            bodies: self.bodies@,
            camera: self.camera,
            spawn_point: self.spawn_point,
            next_id: self.next_id,
        }
    }
}

impl Body {
    /// Numeric sanity of one slot. Fragments (`Dynamic`) are inert:
    /// nothing computes with their fields again, so they carry no bound.
    pub open spec fn bounded(self) -> bool {
        match self {
            Body::Candidate { weight, position, .. } => {
                &&& 1 <= weight <= MAGNITUDE_LIMIT
                &&& position.within(MAGNITUDE_LIMIT as int)
            },
            Body::Limb { rel_pos, mass, .. } => {
                &&& 1 <= mass <= MAGNITUDE_LIMIT
                &&& rel_pos.within(2 * MAGNITUDE_LIMIT as int)
            },
            Body::Accessory { rel_pos } => rel_pos.within(2 * MAGNITUDE_LIMIT as int),
            Body::Obstacle { position, required_powers } => {
                &&& position.within(MAGNITUDE_LIMIT as int)
                &&& required_powers@.len() >= 1
            },
            _ => true,
        }
    }
}

impl WorldModel {
    /// The aggregate's roster and the arena agree: every rostered slot
    /// is a limb owned by this aggregate, no slot is rostered twice, and
    /// every limb slot is rostered.
    pub open spec fn roster_ok(self) -> bool {
        self.klod matches Some(k) ==> {
            &&& forall|j: int|
                0 <= j < k.limbs.len() ==> k.limbs[j] < self.bodies.len()
                    && self.bodies[k.limbs[j] as int] is Limb
            &&& forall|j1: int, j2: int|
                0 <= j1 < k.limbs.len() && 0 <= j2 < k.limbs.len() && j1 != j2
                    ==> k.limbs[j1] != k.limbs[j2]
            &&& forall|i: int|
                0 <= i < self.bodies.len() && self.bodies[i] is Limb ==> exists|j: int|
                    0 <= j < k.limbs.len() && k.limbs[j] == i
            &&& forall|i: int|
                0 <= i < self.bodies.len()
                    ==> (#[trigger] self.bodies[i] matches Body::Limb { owner, .. } ==> owner
                    == k.id)
        }
    }

    /// Visual links are well-aimed and unshared: a limb's visual is an
    /// accessory slot, a candidate's visual is a decor slot, and no two
    /// bodies point at the same visual.
    pub open spec fn links_ok(self) -> bool {
        &&& forall|i: int|
            0 <= i < self.bodies.len()
                ==> (#[trigger] self.bodies[i] matches Body::Limb { visual: Some(v), .. } ==> v
                < self.bodies.len() && self.bodies[v as int] is Accessory)
        &&& forall|i: int|
            0 <= i < self.bodies.len()
                ==> (#[trigger] self.bodies[i] matches Body::Candidate { visual: Some(v), .. }
                ==> v < self.bodies.len() && self.bodies[v as int] is Decor)
        &&& forall|i1: int, i2: int|
            0 <= i1 < self.bodies.len() && 0 <= i2 < self.bodies.len() && i1 != i2 ==> (
            #[trigger] body_visual(self.bodies[i1]) matches Some(v1)
                ==> (#[trigger] body_visual(self.bodies[i2]) matches Some(v2) ==> v1 != v2))
    }

    /// Well-formedness of the whole level state.
    pub open spec fn wf(self) -> bool {
        &&& forall|i: int| 0 <= i < self.bodies.len() ==> self.bodies[i].bounded()
        &&& (self.klod matches Some(k) ==> k.bounded())
        &&& (self.klod is None ==> forall|i: int|
            0 <= i < self.bodies.len() ==> !(self.bodies[i] is Limb) && !(self.bodies[i]
                is Accessory))
        &&& self.roster_ok()
        &&& self.links_ok()
    }

    /// The aggregate's mass, or zero when none exists.
    pub open spec fn klod_mass(self) -> int {
        match self.klod {
            Some(k) => k.total_mass as int,
            None => 0,
        }
    }
}

/// The visual link of a slot, whatever its role.
pub open spec fn body_visual(b: Body) -> Option<usize> {
    match b {
        Body::Candidate { visual, .. } => visual,
        Body::Limb { visual, .. } => visual,
        _ => None,
    }
}

/// A child's translation expressed relative to a reference frame sitting
/// at `reference`: the componentwise difference.
pub fn transform_relative_to(point: Vec3, reference: Vec3) -> (r: Vec3)
    requires
        point.within(100 * MAGNITUDE_LIMIT as int),
        reference.within(100 * MAGNITUDE_LIMIT as int),
    ensures
        r == point.spec_minus(reference),
{
    point.minus(reference)
}

// ---------------------------------------------------------------------
// Spawning
// ---------------------------------------------------------------------

/// The aggregate's core ball shard, as it is created at spawn time.
pub open spec fn spec_core_ball(id: u64) -> Body {
    Body::Limb {
        owner: id,
        visual: None,
        rel_pos: Vec3 { x: 0, y: 0, z: 0 },
        mass: BASELINE_MASS,
        power: Power::Neutral,
        shape: KLOD_BALL_SHAPE,
        friction: 0,
        restitution: 0,
    }
}

/// The six decorative hand parts, one along each axis direction.
pub open spec fn spec_hand_parts() -> Seq<Body> {
    seq![
        Body::Accessory { rel_pos: Vec3 { x: HAND_OFFSET, y: 0, z: 0 } },
        Body::Accessory { rel_pos: Vec3 { x: (-HAND_OFFSET) as i64, y: 0, z: 0 } },
        Body::Accessory { rel_pos: Vec3 { x: 0, y: HAND_OFFSET, z: 0 } },
        Body::Accessory { rel_pos: Vec3 { x: 0, y: (-HAND_OFFSET) as i64, z: 0 } },
        Body::Accessory { rel_pos: Vec3 { x: 0, y: 0, z: HAND_OFFSET } },
        Body::Accessory { rel_pos: Vec3 { x: 0, y: 0, z: (-HAND_OFFSET) as i64 } },
    ]
}

/// Spawning the aggregate: a no-op if one already exists (idempotent
/// spawn) or if no camera exists; otherwise a fresh aggregate appears at
/// the spawn point with baseline mass, its core ball shard, and its
/// decorative hand parts.
pub open spec fn spawn_transition(w: WorldModel) -> WorldModel {
    if w.klod is Some || !w.camera {
        w
    } else {
        WorldModel {
            klod: Some(
                KlodModel {
                    id: w.next_id,
                    total_mass: BASELINE_MASS,
                    position: w.spawn_point,
                    velocity: Vec3 { x: 0, y: 0, z: 0 },
                    in_free_fall: true,
                    limbs: seq![w.bodies.len() as usize],
                },
            ),
            bodies: w.bodies.push(spec_core_ball(w.next_id)) + spec_hand_parts(),
            camera: w.camera,
            spawn_point: w.spawn_point,
            next_id: if w.next_id == u64::MAX {
                0
            } else {
                (w.next_id + 1) as u64
            },
        }
    }
}

impl World {
    /// An empty level: no aggregate, no bodies, no camera yet.
    pub fn new(spawn_point: Vec3) -> (w: World)
        requires
            spawn_point.within(MAGNITUDE_LIMIT as int),
        ensures
            w@ == (WorldModel {
                klod: None,
                bodies: Seq::<Body>::empty(),
                camera: false,
                spawn_point: spawn_point,
                next_id: 0u64,
            }),
            w@.wf(),
    {
        let w = World {
            klod: None,
            bodies: Vec::new(),
            camera: false,
            spawn_point,
            next_id: 0,
        };
        proof {
            assert(w@ =~= WorldModel {
                klod: None,
                bodies: Seq::<Body>::empty(),
                camera: false,
                spawn_point: spawn_point,
                next_id: 0u64,
            });
        }
        w
    }

    /// Bring the camera up; a second call changes nothing.
    pub fn spawn_camera(&mut self)
        ensures
            final(self)@ == (WorldModel { camera: true, ..old(self)@ }),
    {
        self.camera = true;
        proof {
            assert(self@ =~= WorldModel { camera: true, ..old(self)@ });
        }
    }

    /// Spawn the aggregate if absent; see [`spawn_transition`].
    pub fn spawn_klod(&mut self)
        requires
            old(self)@.wf(),
            old(self)@.spawn_point.within(MAGNITUDE_LIMIT as int),
        ensures
            final(self)@ == spawn_transition(old(self)@),
            final(self)@.wf(),
    {
        if self.klod.is_some() {
            return ;
        }
        if !self.camera {
            return ;
        }
        let id = self.next_id;
        let ball_at = self.bodies.len();
        self.bodies.push(
            Body::Limb {
                owner: id,
                visual: None,
                rel_pos: Vec3 { x: 0, y: 0, z: 0 },
                mass: BASELINE_MASS,
                power: Power::Neutral,
                shape: KLOD_BALL_SHAPE,
                friction: 0,
                restitution: 0,
            },
        );
        self.bodies.push(Body::Accessory { rel_pos: Vec3 { x: HAND_OFFSET, y: 0, z: 0 } });
        self.bodies.push(Body::Accessory { rel_pos: Vec3 { x: -HAND_OFFSET, y: 0, z: 0 } });
        self.bodies.push(Body::Accessory { rel_pos: Vec3 { x: 0, y: HAND_OFFSET, z: 0 } });
        self.bodies.push(Body::Accessory { rel_pos: Vec3 { x: 0, y: -HAND_OFFSET, z: 0 } });
        self.bodies.push(Body::Accessory { rel_pos: Vec3 { x: 0, y: 0, z: HAND_OFFSET } });
        self.bodies.push(Body::Accessory { rel_pos: Vec3 { x: 0, y: 0, z: -HAND_OFFSET } });
        let mut limbs: Vec<usize> = Vec::new();
        limbs.push(ball_at);
        self.klod = Some(
            Klod {
                id,
                total_mass: BASELINE_MASS,
                position: self.spawn_point,
                velocity: Vec3 { x: 0, y: 0, z: 0 },
                in_free_fall: true,
                limbs,
            },
        );
        self.next_id = if id == u64::MAX {
            0
        } else {
            id + 1
        };
        proof {
            let prev = old(self)@;
            assert(self@.bodies =~= prev.bodies.push(spec_core_ball(id)) + spec_hand_parts());
            assert(self@ =~~= spawn_transition(prev));
            lemma_spawn_preserves_wf(prev);
        }
    }
}

/// Spawning preserves well-formedness.
pub proof fn lemma_spawn_preserves_wf(w: WorldModel)
    requires
        w.wf(),
        w.spawn_point.within(MAGNITUDE_LIMIT as int),
        w.bodies.len() <= usize::MAX,
    ensures
        spawn_transition(w).wf(),
{
    let t = spawn_transition(w);
    if w.klod is None && w.camera {
        let n = w.bodies.len() as int;
        let k = t.klod.unwrap();
        assert(forall|i: int| 0 <= i < n ==> t.bodies[i] == w.bodies[i]);
        assert(t.bodies[n] == spec_core_ball(w.next_id));
        assert forall|i: int| n + 1 <= i < t.bodies.len() implies t.bodies[i]
            is Accessory by {
            assert(t.bodies[i] == spec_hand_parts()[i - n - 1]);
        }
        assert(forall|i: int| 0 <= i < t.bodies.len() ==> t.bodies[i].bounded());
        // The roster holds exactly the new core ball: the old arena held
        // no limb slots at all while the aggregate was absent.
        assert(k.limbs =~= seq![n as usize]);
        assert forall|i: int| 0 <= i < t.bodies.len() && t.bodies[i] is Limb implies exists|j: int|
            0 <= j < k.limbs.len() && k.limbs[j] == i by {
            assert(i == n);
            assert(k.limbs[0] == n as usize);
        }
        assert(t.roster_ok());
        assert(t.links_ok());
    }
}

/// Spawning twice in a row is the same as spawning once: the second
/// request finds the aggregate present and changes nothing.
pub proof fn lemma_spawn_idempotent(w: WorldModel)
    ensures
        spawn_transition(spawn_transition(w)) == spawn_transition(w),
{
}

// ---------------------------------------------------------------------
// Absorption
// ---------------------------------------------------------------------

/// Whether an absorption event is accepted against the current state:
/// the targeted aggregate still exists under the event's id, the slot
/// still holds a candidate, the weight is representable, the grown mass
/// stays representable, and both decision gates pass on the candidate's
/// pose relative to the aggregate.
pub open spec fn accepts(w: WorldModel, ev: AgglomerateToKlod) -> bool {
    &&& w.klod matches Some(k)
    &&& k.id == ev.klod
    &&& ev.agglo < w.bodies.len()
    &&& w.bodies[ev.agglo as int] matches Body::Candidate { position, .. }
    &&& 1 <= ev.agglo_weight <= MAGNITUDE_LIMIT
    &&& k.total_mass + ev.agglo_weight <= MAGNITUDE_LIMIT
    &&& may_absorb_spec(
        k.total_mass as int,
        ev.agglo_weight as int,
        position.spec_minus(k.position),
        k.velocity,
    )
}

/// One absorption: if the event is accepted, the candidate's slot turns
/// into a limb holding its pose relative to the aggregate, its decorative
/// sub-entity (if any) becomes an attached accessory mirroring that pose,
/// the roster gains the slot, and the aggregate's mass grows by exactly
/// the event's weight. A rejected event changes nothing.
pub open spec fn absorb_transition(w: WorldModel, ev: AgglomerateToKlod) -> WorldModel {
    if !accepts(w, ev) {
        w
    } else {
        match w.klod {
            Some(k) => match w.bodies[ev.agglo as int] {
                Body::Candidate { weight: _, power, position, shape, friction, restitution, visual } => {
                    let rel = position.spec_minus(k.position);
                    let limb = Body::Limb {
                        owner: k.id,
                        visual,
                        rel_pos: rel,
                        mass: ev.agglo_weight,
                        power,
                        shape,
                        friction,
                        restitution,
                    };
                    let bodies1 = match visual {
                        Some(v) => w.bodies.update(v as int, Body::Accessory { rel_pos: rel }),
                        None => w.bodies,
                    };
                    WorldModel {
                        klod: Some(
                            KlodModel {
                                id: k.id,
                                total_mass: (k.total_mass + ev.agglo_weight) as i64,
                                position: k.position,
                                velocity: k.velocity,
                                in_free_fall: k.in_free_fall,
                                limbs: k.limbs.push(ev.agglo),
                            },
                        ),
                        bodies: bodies1.update(ev.agglo as int, limb),
                        ..w
                    }
                },
                _ => w,
            },
            None => w,
        }
    }
}

/// A queue of absorption events applied in order.
pub open spec fn absorb_all(w: WorldModel, evs: Seq<AgglomerateToKlod>) -> WorldModel
    decreases evs.len(),
{
    if evs.len() == 0 {
        w
    } else {
        absorb_all(absorb_transition(w, evs[0]), evs.subrange(1, evs.len() as int))
    }
}

/// Absorbing preserves well-formedness.
pub proof fn lemma_absorb_preserves_wf(w: WorldModel, ev: AgglomerateToKlod)
    requires
        w.wf(),
    ensures
        absorb_transition(w, ev).wf(),
{
    let t = absorb_transition(w, ev);
    if accepts(w, ev) {
        let k = w.klod->Some_0;
        let tk = t.klod->Some_0;
        let a = ev.agglo as int;
        assert(t.bodies.len() == w.bodies.len());
        // Every slot's visual link is unchanged: the new limb keeps the
        // candidate's link, and decor as well as accessory slots link
        // nothing.
        assert(forall|i: int|
            0 <= i < w.bodies.len() ==> body_visual(#[trigger] t.bodies[i]) == body_visual(
                w.bodies[i],
            ));
        assert(forall|i: int| 0 <= i < t.bodies.len() ==> (#[trigger] t.bodies[i]).bounded());
        assert forall|i: int|
            0 <= i < t.bodies.len() && t.bodies[i] is Limb implies exists|j: int|
            0 <= j < tk.limbs.len() && tk.limbs[j] == i by {
            if i == a {
                assert(tk.limbs[tk.limbs.len() - 1] == ev.agglo);
            } else {
                assert(w.bodies[i] is Limb);
                let j = choose|j: int| 0 <= j < k.limbs.len() && k.limbs[j] == i;
                assert(tk.limbs[j] == i);
            }
        }
        assert(t.roster_ok());
        // Link targets survive: the only touched slots are the candidate
        // (now the limb) and its decor (now an accessory), and no other
        // body shares that decor by link injectivity.
        assert forall|i: int|
            0 <= i < t.bodies.len() implies (#[trigger] t.bodies[i] matches Body::Limb {
            visual: Some(v),
            ..
        } ==> v < t.bodies.len() && t.bodies[v as int] is Accessory) by {
            match t.bodies[i] {
                Body::Limb { visual: Some(v), .. } => {
                    if i == a {
                        assert(w.bodies[v as int] is Decor);
                    } else {
                        assert(w.bodies[i] matches Body::Limb { visual: Some(v2), .. } && v2 == v);
                        assert(w.bodies[v as int] is Accessory);
                        match body_visual(w.bodies[a]) {
                            Some(av) => {
                                assert(body_visual(w.bodies[i]) == Some(v));
                                assert(v != av);
                            },
                            None => {},
                        }
                    }
                },
                _ => {},
            }
        }
        assert forall|i: int|
            0 <= i < t.bodies.len() implies (#[trigger] t.bodies[i] matches Body::Candidate {
            visual: Some(v),
            ..
        } ==> v < t.bodies.len() && t.bodies[v as int] is Decor) by {
            match t.bodies[i] {
                Body::Candidate { visual: Some(v), .. } => {
                    assert(i != a);
                    assert(w.bodies[i] matches Body::Candidate { visual: Some(v2), .. } && v2
                        == v);
                    assert(w.bodies[v as int] is Decor);
                    match body_visual(w.bodies[a]) {
                        Some(av) => {
                            assert(body_visual(w.bodies[i]) == Some(v));
                            assert(v != av);
                        },
                        None => {},
                    }
                },
                _ => {},
            }
        }
        assert(t.links_ok());
    }
}

impl World {
    /// Apply one absorption event; see [`absorb_transition`]. A missing
    /// aggregate, a stale aggregate id, a slot that no longer holds a
    /// candidate, an unrepresentable weight, or a failed gate all leave
    /// the world unchanged.
    pub fn absorb(&mut self, ev: AgglomerateToKlod)
        requires
            old(self)@.wf(),
        ensures
            final(self)@ == absorb_transition(old(self)@, ev),
            final(self)@.wf(),
    {
        proof {
            lemma_absorb_preserves_wf(old(self)@, ev);
        }
        let ghost prev = self@;
        let (kid, kmass, kpos, kvel) = match &self.klod {
            Some(k) => (k.id, k.total_mass, k.position, k.velocity),
            None => {
                return ;
            },
        };
        if kid != ev.klod {
            return ;
        }
        if ev.agglo >= self.bodies.len() {
            return ;
        }
        let (cpower, cpos, cshape, cfriction, crestitution, cvisual) = match &self.bodies[ev.agglo] {
            Body::Candidate { weight: _, power, position, shape, friction, restitution, visual } => (
                *power,
                *position,
                *shape,
                *friction,
                *restitution,
                *visual,
            ),
            _ => {
                return ;
            },
        };
        if ev.agglo_weight < 1 || ev.agglo_weight > MAGNITUDE_LIMIT {
            return ;
        }
        if kmass > MAGNITUDE_LIMIT - ev.agglo_weight {
            return ;
        }
        let rel = transform_relative_to(cpos, kpos);
        let decision = match &self.klod {
            Some(k) => k.may_absorb(ev.agglo_weight, rel, kvel),
            None => false,
        };
        if !decision {
            return ;
        }
        if let Some(v) = cvisual {
            proof {
                assert(prev.bodies[ev.agglo as int] matches Body::Candidate {
                    visual: Some(vv),
                    ..
                } && vv == v);
            }
            self.bodies.set(v, Body::Accessory { rel_pos: rel });
        }
        self.bodies.set(
            ev.agglo,
            Body::Limb {
                owner: kid,
                visual: cvisual,
                rel_pos: rel,
                mass: ev.agglo_weight,
                power: cpower,
                shape: cshape,
                friction: cfriction,
                restitution: crestitution,
            },
        );
        let mut k = self.klod.take().unwrap();
        k.total_mass = k.total_mass + ev.agglo_weight;
        k.limbs.push(ev.agglo);
        self.klod = Some(k);
        proof {
            assert(self@ =~~= absorb_transition(prev, ev));
        }
    }

    /// Drain a queue of absorption events in order; see [`absorb_all`].
    pub fn agglo_to_klod(&mut self, events: &Vec<AgglomerateToKlod>)
        requires
            old(self)@.wf(),
        ensures
            final(self)@ == absorb_all(old(self)@, events@),
            final(self)@.wf(),
    {
        let ghost prev = self@;
        let n = events.len();
        let mut i: usize = 0;
        while i < n
            invariant
                i <= n,
                n == events.len(),
                self@ == absorb_all(prev, events@.take(i as int)),
                self@.wf(),
            decreases n - i,
        {
            let ghost before = self@;
            self.absorb(events[i]);
            proof {
                assert(events@.take(i + 1) =~= events@.take(i as int).push(events@[i as int]));
                lemma_absorb_all_push(prev, events@.take(i as int), events@[i as int]);
            }
            i = i + 1;
        }
        proof {
            assert(events@.take(n as int) =~= events@);
        }
    }
}

/// Appending one event to a queue is the same as draining the queue and
/// then applying the event.
pub proof fn lemma_absorb_all_push(w: WorldModel, evs: Seq<AgglomerateToKlod>, ev: AgglomerateToKlod)
    ensures
        absorb_all(w, evs.push(ev)) == absorb_transition(absorb_all(w, evs), ev),
    decreases evs.len(),
{
    if evs.len() == 0 {
        assert(evs.push(ev)[0] == ev);
        assert(evs.push(ev).subrange(1, 1) =~= Seq::<AgglomerateToKlod>::empty());
        assert(absorb_all(w, evs.push(ev)) == absorb_all(
            absorb_transition(w, ev),
            Seq::<AgglomerateToKlod>::empty(),
        ));
        assert(absorb_all(w, evs) == w);
    } else {
        let rest = evs.subrange(1, evs.len() as int);
        assert(evs.push(ev)[0] == evs[0]);
        assert(evs.push(ev).subrange(1, evs.push(ev).len() as int) =~= rest.push(ev));
        lemma_absorb_all_push(absorb_transition(w, evs[0]), rest, ev);
        assert(absorb_all(w, evs.push(ev)) == absorb_all(
            absorb_transition(w, evs[0]),
            rest.push(ev),
        ));
        assert(absorb_all(w, evs) == absorb_all(absorb_transition(w, evs[0]), rest));
    }
}

/// Mass bookkeeping is exact: an accepted absorption adds exactly the
/// absorbed weight to the aggregate's mass, and a rejected event leaves
/// the world untouched.
pub proof fn lemma_absorb_mass_exact(w: WorldModel, ev: AgglomerateToKlod)
    ensures
        accepts(w, ev) ==> absorb_transition(w, ev).klod_mass() == w.klod_mass()
            + ev.agglo_weight,
        !accepts(w, ev) ==> absorb_transition(w, ev) == w,
{
}

/// The summed weight of a queue's accepted events, each judged against
/// the state in which it applies.
pub open spec fn accepted_weight_sum(w: WorldModel, evs: Seq<AgglomerateToKlod>) -> int
    decreases evs.len(),
{
    if evs.len() == 0 {
        0
    } else {
        (if accepts(w, evs[0]) {
            evs[0].agglo_weight as int
        } else {
            0
        }) + accepted_weight_sum(absorb_transition(w, evs[0]), evs.subrange(1, evs.len() as int))
    }
}

/// Draining a queue grows the aggregate's mass by exactly the summed
/// weight of the accepted events.
pub proof fn lemma_mass_bookkeeping(w: WorldModel, evs: Seq<AgglomerateToKlod>)
    ensures
        absorb_all(w, evs).klod_mass() == w.klod_mass() + accepted_weight_sum(w, evs),
    decreases evs.len(),
{
    if evs.len() > 0 {
        lemma_absorb_mass_exact(w, evs[0]);
        lemma_mass_bookkeeping(absorb_transition(w, evs[0]), evs.subrange(1, evs.len() as int));
    }
}

/// Mass monotonicity: over any queue of absorption events, the
/// aggregate's mass never decreases (each accepted event adds a positive
/// weight, each rejected event changes nothing).
pub proof fn lemma_mass_monotonic(w: WorldModel, evs: Seq<AgglomerateToKlod>)
    ensures
        absorb_all(w, evs).klod_mass() >= w.klod_mass(),
    decreases evs.len(),
{
    if evs.len() > 0 {
        lemma_absorb_mass_exact(w, evs[0]);
        lemma_mass_monotonic(absorb_transition(w, evs[0]), evs.subrange(1, evs.len() as int));
    }
}

/// Absorption never creates or destroys the aggregate.
pub proof fn lemma_absorb_all_keeps_klod(w: WorldModel, evs: Seq<AgglomerateToKlod>)
    ensures
        absorb_all(w, evs).klod is Some <==> w.klod is Some,
    decreases evs.len(),
{
    if evs.len() > 0 {
        lemma_absorb_all_keeps_klod(absorb_transition(w, evs[0]), evs.subrange(1, evs.len() as int));
    }
}

// ---------------------------------------------------------------------
// Shatter and reset
// ---------------------------------------------------------------------

/// What a shatter does to one arena slot, given the aggregate's center
/// and its velocity captured before the operation (`recoil`): limbs and
/// accessories become independent dynamic fragments thrown outward in
/// proportion to how far off-center they sat; everything else is
/// untouched.
pub open spec fn shatter_slot(kpos: Vec3, recoil: Vec3, b: Body) -> Body {
    match b {
        Body::Limb { rel_pos, mass, shape, .. } => Body::Dynamic {
            position: kpos.spec_plus(rel_pos),
            velocity: rel_pos.spec_scaled(LIMB_RECOIL_FACTOR as int).spec_plus(recoil),
            mass,
            shape,
        },
        Body::Accessory { rel_pos } => Body::Dynamic {
            position: kpos.spec_plus(rel_pos),
            velocity: rel_pos.spec_scaled(ACCESSORY_RECOIL_FACTOR as int).spec_plus(recoil),
            mass: DEBRIS_MASS,
            shape: DEBRIS_SHAPE,
        },
        other => other,
    }
}

/// Shattering the aggregate: a no-op without one; otherwise every limb
/// and every attached accessory is detached and becomes an independent
/// dynamic fragment, the roster empties, the aggregate's velocity is
/// zeroed, and its mass snaps back to the baseline.
pub open spec fn shatter_transition(w: WorldModel) -> WorldModel {
    match w.klod {
        None => w,
        Some(k) => WorldModel {
            klod: Some(
                KlodModel {
                    id: k.id,
                    total_mass: BASELINE_MASS,
                    position: k.position,
                    velocity: Vec3 { x: 0, y: 0, z: 0 },
                    in_free_fall: k.in_free_fall,
                    limbs: Seq::empty(),
                },
            ),
            bodies: Seq::new(w.bodies.len(), |i: int| shatter_slot(k.position, k.velocity, w.bodies[i])),
            ..w
        },
    }
}

/// Shattering preserves well-formedness.
pub proof fn lemma_shatter_preserves_wf(w: WorldModel)
    requires
        w.wf(),
    ensures
        shatter_transition(w).wf(),
{
    let t = shatter_transition(w);
    match w.klod {
        None => {},
        Some(k) => {
        assert(forall|i: int|
            0 <= i < t.bodies.len() ==> #[trigger] t.bodies[i] == shatter_slot(
                k.position,
                k.velocity,
                w.bodies[i],
            ));
        assert(forall|i: int| 0 <= i < t.bodies.len() ==> !(#[trigger] t.bodies[i] is Limb));
        assert(forall|i: int| 0 <= i < t.bodies.len() ==> (#[trigger] t.bodies[i]).bounded());
        // A slot that still links a visual was left untouched (only
        // candidates link visuals now, and candidates do not shatter),
        // so link targets and link injectivity carry over.
        assert(forall|i: int|
            0 <= i < t.bodies.len() ==> (body_visual(#[trigger] t.bodies[i]) is Some
                ==> t.bodies[i] == w.bodies[i]));
        assert(t.links_ok());
        },
    }
}

/// What a full aggregate reset does to one arena slot: limbs and
/// attached accessories are despawned outright; everything else is
/// untouched.
pub open spec fn reset_slot(b: Body) -> Body {
    match b {
        Body::Limb { .. } => Body::Vacant,
        Body::Accessory { .. } => Body::Vacant,
        other => other,
    }
}

/// Resetting the aggregate for a fresh run: if none exists it is
/// spawned; otherwise the existing one is moved back to the spawn point
/// with baseline mass and zero velocity, every limb and accessory is
/// despawned, and a fresh core ball and hand parts are attached.
pub open spec fn reset_transition(w: WorldModel) -> WorldModel {
    match w.klod {
        None => spawn_transition(w),
        Some(k) => WorldModel {
            klod: Some(
                KlodModel {
                    id: k.id,
                    total_mass: BASELINE_MASS,
                    position: w.spawn_point,
                    velocity: Vec3 { x: 0, y: 0, z: 0 },
                    in_free_fall: k.in_free_fall,
                    limbs: seq![w.bodies.len() as usize],
                },
            ),
            bodies: Seq::new(w.bodies.len(), |i: int| reset_slot(w.bodies[i])).push(
                spec_core_ball(k.id),
            ) + spec_hand_parts(),
            ..w
        },
    }
}

/// Resetting preserves well-formedness.
pub proof fn lemma_reset_preserves_wf(w: WorldModel)
    requires
        w.wf(),
        w.spawn_point.within(MAGNITUDE_LIMIT as int),
        w.bodies.len() <= usize::MAX,
    ensures
        reset_transition(w).wf(),
{
    let t = reset_transition(w);
    match w.klod {
        None => {
            lemma_spawn_preserves_wf(w);
        },
        Some(k) => {
        let n = w.bodies.len() as int;
        let tk = t.klod.unwrap();
        assert(forall|i: int|
            0 <= i < n ==> #[trigger] t.bodies[i] == reset_slot(w.bodies[i]));
        assert(t.bodies[n] == spec_core_ball(k.id));
        assert forall|i: int| n + 1 <= i < t.bodies.len() implies t.bodies[i]
            is Accessory by {
            assert(t.bodies[i] == spec_hand_parts()[i - n - 1]);
        }
        assert(forall|i: int| 0 <= i < t.bodies.len() ==> (#[trigger] t.bodies[i]).bounded());
        assert(tk.limbs =~= seq![n as usize]);
        assert forall|i: int| 0 <= i < t.bodies.len() && t.bodies[i] is Limb implies exists|j: int|
            0 <= j < tk.limbs.len() && tk.limbs[j] == i by {
            assert(i == n);
            assert(tk.limbs[0] == n as usize);
        }
        assert(t.roster_ok());
        // A slot that still links a visual was left untouched (only
        // candidates link visuals after the reset pass, and candidates
        // are not despawned), so link targets and injectivity carry over.
        assert(forall|i: int|
            0 <= i < t.bodies.len() ==> (body_visual(#[trigger] t.bodies[i]) is Some ==> 0 <= i
                < n && t.bodies[i] == w.bodies[i]));
        assert(t.links_ok());
        },
    }
}

impl World {
    /// Shatter the aggregate; see [`shatter_transition`].
    pub fn destroy_klod(&mut self)
        requires
            old(self)@.wf(),
        ensures
            final(self)@ == shatter_transition(old(self)@),
            final(self)@.wf(),
    {
        let ghost prev = self@;
        let (kid, kpos, kvel, kff) = match &self.klod {
            Some(k) => (k.id, k.position, k.velocity, k.in_free_fall),
            None => {
                return ;
            },
        };
        self.klod = Some(
            Klod {
                id: kid,
                total_mass: BASELINE_MASS,
                position: kpos,
                velocity: Vec3 { x: 0, y: 0, z: 0 },
                in_free_fall: kff,
                limbs: Vec::new(),
            },
        );
        let n = self.bodies.len();
        let mut i: usize = 0;
        while i < n
            invariant
                i <= n,
                n == self.bodies.len(),
                prev.wf(),
                prev.klod matches Some(pk) && pk.position == kpos && pk.velocity == kvel,
                self@.klod == shatter_transition(prev).klod,
                self@.camera == prev.camera,
                self@.spawn_point == prev.spawn_point,
                self@.next_id == prev.next_id,
                prev.bodies.len() == n,
                forall|j: int|
                    0 <= j < i ==> #[trigger] self@.bodies[j] == shatter_slot(
                        kpos,
                        kvel,
                        prev.bodies[j],
                    ),
                forall|j: int| i <= j < n ==> #[trigger] self@.bodies[j] == prev.bodies[j],
            decreases n - i,
        {
            proof {
                assert(self@.bodies[i as int] == prev.bodies[i as int]);
                assert(prev.bodies[i as int].bounded());
                assert(kpos.within(MAGNITUDE_LIMIT as int));
            }
            let next = match &self.bodies[i] {
                Body::Limb { rel_pos, mass, shape, .. } => Some(
                    Body::Dynamic {
                        position: kpos.plus(*rel_pos),
                        velocity: rel_pos.scaled(LIMB_RECOIL_FACTOR).plus(kvel),
                        mass: *mass,
                        shape: *shape,
                    },
                ),
                Body::Accessory { rel_pos } => Some(
                    Body::Dynamic {
                        position: kpos.plus(*rel_pos),
                        velocity: rel_pos.scaled(ACCESSORY_RECOIL_FACTOR).plus(kvel),
                        mass: DEBRIS_MASS,
                        shape: DEBRIS_SHAPE,
                    },
                ),
                _ => None,
            };
            if let Some(b) = next {
                self.bodies.set(i, b);
            }
            i = i + 1;
        }
        proof {
            assert(self@.bodies =~= shatter_transition(prev).bodies);
            assert(self@ =~~= shatter_transition(prev));
            lemma_shatter_preserves_wf(prev);
        }
    }

    /// Reset the aggregate for a fresh run; see [`reset_transition`].
    pub fn reset_klod(&mut self)
        requires
            old(self)@.wf(),
            old(self)@.spawn_point.within(MAGNITUDE_LIMIT as int),
        ensures
            final(self)@ == reset_transition(old(self)@),
            final(self)@.wf(),
    {
        let ghost prev = self@;
        let (kid, kff) = match &self.klod {
            Some(k) => (k.id, k.in_free_fall),
            None => {
                self.spawn_klod();
                return ;
            },
        };
        let n = self.bodies.len();
        let mut i: usize = 0;
        while i < n
            invariant
                i <= n,
                n == self.bodies.len(),
                self@.klod == prev.klod,
                self@.camera == prev.camera,
                self@.spawn_point == prev.spawn_point,
                self@.next_id == prev.next_id,
                prev.bodies.len() == n,
                forall|j: int|
                    0 <= j < i ==> #[trigger] self@.bodies[j] == reset_slot(prev.bodies[j]),
                forall|j: int| i <= j < n ==> #[trigger] self@.bodies[j] == prev.bodies[j],
            decreases n - i,
        {
            proof {
                assert(self@.bodies[i as int] == prev.bodies[i as int]);
            }
            let vacate = match &self.bodies[i] {
                Body::Limb { .. } => true,
                Body::Accessory { .. } => true,
                _ => false,
            };
            if vacate {
                self.bodies.set(i, Body::Vacant);
            }
            i = i + 1;
        }
        let ghost cleared = self@.bodies;
        proof {
            assert(cleared =~= Seq::new(prev.bodies.len(), |j: int| reset_slot(prev.bodies[j])));
        }
        let ball_at = self.bodies.len();
        self.bodies.push(
            Body::Limb {
                owner: kid,
                visual: None,
                rel_pos: Vec3 { x: 0, y: 0, z: 0 },
                mass: BASELINE_MASS,
                power: Power::Neutral,
                shape: KLOD_BALL_SHAPE,
                friction: 0,
                restitution: 0,
            },
        );
        self.bodies.push(Body::Accessory { rel_pos: Vec3 { x: HAND_OFFSET, y: 0, z: 0 } });
        self.bodies.push(Body::Accessory { rel_pos: Vec3 { x: -HAND_OFFSET, y: 0, z: 0 } });
        self.bodies.push(Body::Accessory { rel_pos: Vec3 { x: 0, y: HAND_OFFSET, z: 0 } });
        self.bodies.push(Body::Accessory { rel_pos: Vec3 { x: 0, y: -HAND_OFFSET, z: 0 } });
        self.bodies.push(Body::Accessory { rel_pos: Vec3 { x: 0, y: 0, z: HAND_OFFSET } });
        self.bodies.push(Body::Accessory { rel_pos: Vec3 { x: 0, y: 0, z: -HAND_OFFSET } });
        let mut limbs: Vec<usize> = Vec::new();
        limbs.push(ball_at);
        self.klod = Some(
            Klod {
                id: kid,
                total_mass: BASELINE_MASS,
                position: self.spawn_point,
                velocity: Vec3 { x: 0, y: 0, z: 0 },
                in_free_fall: kff,
                limbs,
            },
        );
        proof {
            assert(self@.bodies =~= cleared.push(
                spec_core_ball(kid),
            ) + spec_hand_parts());
            assert(self@.bodies =~= reset_transition(prev).bodies);
            assert(self@ =~~= reset_transition(prev));
            lemma_reset_preserves_wf(prev);
        }
    }
}

// ---------------------------------------------------------------------
// Level population
// ---------------------------------------------------------------------

/// Spawn-time description of an absorbable object: its mass-equivalent
/// weight and its elemental power.
#[derive(Clone, Copy, Debug, PartialEq, Eq, Structural)]
pub struct AggloData {
    pub mass: i64,
    pub power: Power,
}

impl AggloData {
    pub fn new(mass: i64, power: Power) -> (d: AggloData)
        ensures
            d == (AggloData { mass, power }),
    {
        AggloData { mass, power }
    }
}

impl World {
    /// Add a freestanding decorative sub-entity, to be linked from a
    /// candidate spawned afterwards.
    pub fn spawn_decor(&mut self) -> (idx: usize)
        requires
            old(self)@.wf(),
        ensures
            final(self)@ == (WorldModel {
                bodies: old(self)@.bodies.push(Body::Decor),
                ..old(self)@
            }),
            final(self)@.wf(),
            idx == old(self)@.bodies.len(),
    {
        let idx = self.bodies.len();
        self.bodies.push(Body::Decor);
        proof {
            assert(self@ =~~= (WorldModel { bodies: old(self)@.bodies.push(Body::Decor), ..old(
                self,
            )@ }));
            assert(self@.wf());
        }
        idx
    }

    /// Add an absorbable object to the level. A decorative sub-entity
    /// may be linked, provided it is a decor slot that nothing else
    /// links yet.
    pub fn spawn_agglomerable(
        &mut self,
        data: AggloData,
        position: Vec3,
        shape: u64,
        friction: i64,
        restitution: i64,
        visual: Option<usize>,
    ) -> (idx: usize)
        requires
            old(self)@.wf(),
            1 <= data.mass <= MAGNITUDE_LIMIT,
            position.within(MAGNITUDE_LIMIT as int),
            visual matches Some(v) ==> v < old(self)@.bodies.len() && old(self)@.bodies[v as int]
                is Decor && forall|i: int|
                0 <= i < old(self)@.bodies.len() ==> body_visual(#[trigger] old(
                    self,
                )@.bodies[i]) != Some(v),
        ensures
            final(self)@ == (WorldModel {
                bodies: old(self)@.bodies.push(
                    Body::Candidate {
                        weight: data.mass,
                        power: data.power,
                        position,
                        shape,
                        friction,
                        restitution,
                        visual,
                    },
                ),
                ..old(self)@
            }),
            final(self)@.wf(),
            idx == old(self)@.bodies.len(),
    {
        let idx = self.bodies.len();
        self.bodies.push(
            Body::Candidate {
                weight: data.mass,
                power: data.power,
                position,
                shape,
                friction,
                restitution,
                visual,
            },
        );
        proof {
            let t = self@;
            let prev = old(self)@;
            assert(t =~~= (WorldModel {
                bodies: prev.bodies.push(
                    Body::Candidate {
                        weight: data.mass,
                        power: data.power,
                        position,
                        shape,
                        friction,
                        restitution,
                        visual,
                    },
                ),
                ..prev
            }));
            assert(forall|i: int| 0 <= i < prev.bodies.len() ==> t.bodies[i] == prev.bodies[i]);
            assert(t.roster_ok());
            assert(t.links_ok());
        }
        idx
    }

    /// Add a breakable obstacle demanding the given non-empty power set.
    pub fn spawn_obstacle(&mut self, required_powers: Vec<Power>, position: Vec3) -> (idx: usize)
        requires
            old(self)@.wf(),
            required_powers@.len() >= 1,
            position.within(MAGNITUDE_LIMIT as int),
        ensures
            final(self)@ == (WorldModel {
                bodies: old(self)@.bodies.push(Body::Obstacle { position, required_powers }),
                ..old(self)@
            }),
            final(self)@.wf(),
            idx == old(self)@.bodies.len(),
    {
        let idx = self.bodies.len();
        let ghost b = Body::Obstacle { position, required_powers };
        self.bodies.push(Body::Obstacle { position, required_powers });
        proof {
            assert(self@ =~~= (WorldModel { bodies: old(self)@.bodies.push(b), ..old(self)@ }));
            assert(forall|i: int|
                0 <= i < old(self)@.bodies.len() ==> self@.bodies[i] == old(self)@.bodies[i]);
            assert(self@.wf());
        }
        idx
    }
}

// ---------------------------------------------------------------------
// Contact classification and free-fall
// ---------------------------------------------------------------------

/// Classify one contact: a contact between a limb and a candidate (in
/// either order) yields an absorption event against the limb's owner,
/// carrying the candidate's current weight; any other pairing yields
/// nothing. When both slots qualify on both sides, the limb on the first
/// side wins, as the event emitter checks the first side first.
pub open spec fn slurp_one(bodies: Seq<Body>, c: Contact) -> Option<AgglomerateToKlod> {
    if c.first < bodies.len() && c.second < bodies.len() {
        match (bodies[c.first as int], bodies[c.second as int]) {
            (Body::Limb { owner, .. }, Body::Candidate { weight, .. }) => Some(
                AgglomerateToKlod { klod: owner, agglo: c.second, agglo_weight: weight },
            ),
            (Body::Candidate { weight, .. }, Body::Limb { owner, .. }) => Some(
                AgglomerateToKlod { klod: owner, agglo: c.first, agglo_weight: weight },
            ),
            _ => None,
        }
    } else {
        None
    }
}

/// All events emitted for a tick's contact list, in emission order.
pub open spec fn slurp_all(bodies: Seq<Body>, contacts: Seq<Contact>) -> Seq<AgglomerateToKlod>
    decreases contacts.len(),
{
    if contacts.len() == 0 {
        Seq::empty()
    } else {
        let rest = slurp_all(bodies, contacts.drop_last());
        match slurp_one(bodies, contacts.last()) {
            Some(e) => rest.push(e),
            None => rest,
        }
    }
}

/// Whether a contact involves arena slot `b`.
pub open spec fn touches(c: Contact, b: int) -> bool {
    c.first == b || c.second == b
}

/// Whether any contact in the tick's list involves arena slot `b`.
pub open spec fn has_active_contact(contacts: Seq<Contact>, b: int) -> bool {
    exists|i: int| 0 <= i < contacts.len() && touches(#[trigger] contacts[i], b)
}

/// Whether none of the aggregate's limbs touches anything.
pub open spec fn roster_free(k: KlodModel, contacts: Seq<Contact>) -> bool {
    forall|j: int| 0 <= j < k.limbs.len() ==> !has_active_contact(contacts, #[trigger] k.limbs[j] as int)
}

/// Deriving the free-fall flag: the aggregate is in free fall exactly
/// when no limb has an active contact. Without an aggregate this is a
/// no-op.
pub open spec fn freefall_transition(w: WorldModel, contacts: Seq<Contact>) -> WorldModel {
    match w.klod {
        None => w,
        Some(k) => WorldModel {
            klod: Some(KlodModel { in_free_fall: roster_free(k, contacts), ..k }),
            ..w
        },
    }
}

/// Whether any contact in `contacts` involves slot `b`.
fn any_contact_with(contacts: &Vec<Contact>, b: usize) -> (r: bool)
    ensures
        r == has_active_contact(contacts@, b as int),
{
    let n = contacts.len();
    let mut i: usize = 0;
    while i < n
        invariant
            i <= n,
            n == contacts.len(),
            !has_active_contact(contacts@.take(i as int), b as int),
        decreases n - i,
    {
        let c = contacts[i];
        if c.first == b || c.second == b {
            proof {
                assert(touches(contacts@[i as int], b as int));
            }
            return true;
        }
        proof {
            assert forall|j: int| 0 <= j < i + 1 implies !touches(
                #[trigger] contacts@.take(i + 1)[j],
                b as int,
            ) by {
                assert(contacts@.take(i + 1)[j] == contacts@[j]);
                if j < i {
                    assert(contacts@.take(i as int)[j] == contacts@[j]);
                }
            }
        }
        i = i + 1;
    }
    proof {
        assert(contacts@.take(n as int) =~= contacts@);
    }
    false
}

impl World {
    /// Classify a tick's contacts into absorption events; see
    /// [`slurp_all`].
    pub fn shlurp_agglomerable(&self, contacts: &Vec<Contact>) -> (events: Vec<
        AgglomerateToKlod,
    >)
        ensures
            events@ == slurp_all(self@.bodies, contacts@),
    {
        let mut events: Vec<AgglomerateToKlod> = Vec::new();
        let n = contacts.len();
        let mut i: usize = 0;
        while i < n
            invariant
                i <= n,
                n == contacts.len(),
                events@ == slurp_all(self@.bodies, contacts@.take(i as int)),
            decreases n - i,
        {
            let c = contacts[i];
            if c.first < self.bodies.len() && c.second < self.bodies.len() {
                match (&self.bodies[c.first], &self.bodies[c.second]) {
                    (Body::Limb { owner, .. }, Body::Candidate { weight, .. }) => {
                        events.push(
                            AgglomerateToKlod {
                                klod: *owner,
                                agglo: c.second,
                                agglo_weight: *weight,
                            },
                        );
                    },
                    (Body::Candidate { weight, .. }, Body::Limb { owner, .. }) => {
                        events.push(
                            AgglomerateToKlod { klod: *owner, agglo: c.first, agglo_weight: *weight },
                        );
                    },
                    _ => {},
                }
            }
            proof {
                assert(contacts@.take(i + 1).drop_last() =~= contacts@.take(i as int));
                assert(contacts@.take(i + 1).last() == contacts@[i as int]);
            }
            i = i + 1;
        }
        proof {
            assert(contacts@.take(n as int) =~= contacts@);
        }
        events
    }

    /// Recompute the aggregate's free-fall flag from a tick's contact
    /// list; see [`freefall_transition`].
    pub fn set_freefall(&mut self, contacts: &Vec<Contact>)
        requires
            old(self)@.wf(),
        ensures
            final(self)@ == freefall_transition(old(self)@, contacts@),
            final(self)@.wf(),
    {
        let ghost prev = self@;
        let limb_count = match &self.klod {
            Some(k) => k.limbs.len(),
            None => {
                return ;
            },
        };
        let mut free = true;
        let mut j: usize = 0;
        while j < limb_count
            invariant
                j <= limb_count,
                self@ == prev,
                prev.klod matches Some(pk) && limb_count == pk.limbs.len(),
                free <==> (forall|j2: int|
                    0 <= j2 < j ==> !has_active_contact(
                        contacts@,
                        #[trigger] prev.klod.unwrap().limbs[j2] as int,
                    )),
            decreases limb_count - j,
        {
            let b = match &self.klod {
                Some(k) => k.limbs[j],
                None => {
                    proof {
                        assert(false);
                    }
                    0
                },
            };
            if any_contact_with(contacts, b) {
                free = false;
            }
            j = j + 1;
        }
        let mut k = self.klod.take().unwrap();
        k.in_free_fall = free;
        self.klod = Some(k);
        proof {
            assert(free == roster_free(prev.klod.unwrap(), contacts@));
            assert(self@ =~~= freefall_transition(prev, contacts@));
            assert(self@.wf());
        }
    }
}

// ---------------------------------------------------------------------
// Elemental obstacles
// ---------------------------------------------------------------------

/// Whether one body is a limb carrying power `p`.
pub open spec fn limb_has_power(b: Body, p: Power) -> bool {
    b matches Body::Limb { power, .. } && power == p
}

/// Whether some limb in the arena carries power `p`. Because absorption
/// is cumulative, this is the set of every power the aggregate has ever
/// absorbed and not yet spent or shattered away.
pub open spec fn limbs_with_power(bodies: Seq<Body>, p: Power) -> bool {
    exists|i: int| 0 <= i < bodies.len() && limb_has_power(#[trigger] bodies[i], p)
}

/// Whether the arena's limbs jointly supply every required power: set
/// containment, not a counted match — one limb per required power
/// suffices even if several limbs share a power.
pub open spec fn required_satisfied(required: Seq<Power>, bodies: Seq<Body>) -> bool {
    forall|j: int| 0 <= j < required.len() ==> limbs_with_power(bodies, #[trigger] required[j])
}

/// Which slot a breaking contact targets: when one side is a limb, the
/// other side is the obstacle candidate (the first side is checked
/// first, as the event consumer does).
pub open spec fn break_target(bodies: Seq<Body>, c: Contact) -> Option<usize> {
    if c.first < bodies.len() && c.second < bodies.len() {
        if bodies[c.first as int] is Limb {
            Some(c.second)
        } else if bodies[c.second as int] is Limb {
            Some(c.first)
        } else {
            None
        }
    } else {
        None
    }
}

/// Whether a body is a limb that a broken obstacle consumes: a limb
/// whose power is among the required ones.
pub open spec fn breaks_limb(b: Body, required: Seq<Power>) -> bool {
    b matches Body::Limb { power, .. } && required.contains(power)
}

/// Whether slot `i` is the decorative visual of a limb that the broken
/// obstacle consumes.
pub open spec fn visual_of_consumed_limb(bodies: Seq<Body>, required: Seq<Power>, i: int) -> bool {
    exists|l: int|
        0 <= l < bodies.len() && (#[trigger] bodies[l] matches Body::Limb {
            power,
            visual: Some(v),
            ..
        } && required.contains(power) && v == i)
}

/// What breaking an obstacle at `obs` does to one arena slot: the
/// obstacle is despawned, and so is every limb contributing a required
/// power together with its decorative visual.
pub open spec fn break_slot(bodies: Seq<Body>, required: Seq<Power>, obs: int, i: int) -> Body {
    if i == obs {
        Body::Vacant
    } else if breaks_limb(bodies[i], required) {
        Body::Vacant
    } else if bodies[i] is Accessory && visual_of_consumed_limb(bodies, required, i) {
        Body::Vacant
    } else {
        bodies[i]
    }
}

/// The roster after an obstacle break: the rostered slots whose limbs
/// were not consumed, in their original order.
pub open spec fn kept_limbs(bodies: Seq<Body>, required: Seq<Power>, limbs: Seq<usize>) -> Seq<
    usize,
>
    decreases limbs.len(),
{
    if limbs.len() == 0 {
        Seq::empty()
    } else {
        let rest = kept_limbs(bodies, required, limbs.drop_last());
        if breaks_limb(bodies[limbs.last() as int], required) {
            rest
        } else {
            rest.push(limbs.last())
        }
    }
}

/// Breaking an obstacle on a contact: if one contact side is a limb and
/// the other an obstacle whose required powers are all present among the
/// aggregate's limbs, the obstacle is destroyed together with every
/// contributing limb (and its decorative visual), and the roster drops
/// the consumed limbs. Otherwise nothing changes.
pub open spec fn break_transition(w: WorldModel, c: Contact) -> WorldModel {
    match break_target(w.bodies, c) {
        None => w,
        Some(obs) => match w.bodies[obs as int] {
            Body::Obstacle { required_powers, .. } => {
                if required_satisfied(required_powers@, w.bodies) {
                    WorldModel {
                        bodies: Seq::new(
                            w.bodies.len(),
                            |i: int| break_slot(w.bodies, required_powers@, obs as int, i),
                        ),
                        klod: match w.klod {
                            Some(k) => Some(
                                KlodModel {
                                    limbs: kept_limbs(w.bodies, required_powers@, k.limbs),
                                    ..k
                                },
                            ),
                            None => None,
                        },
                        ..w
                    }
                } else {
                    w
                }
            },
            _ => w,
        },
    }
}

/// Index-wise characterisation of [`kept_limbs`]: its entries are
/// exactly the original entries whose limbs survive, without duplicates
/// when the original had none.
pub proof fn lemma_kept_limbs_props(bodies: Seq<Body>, required: Seq<Power>, limbs: Seq<usize>)
    requires
        forall|j1: int, j2: int|
            0 <= j1 < limbs.len() && 0 <= j2 < limbs.len() && j1 != j2 ==> limbs[j1] != limbs[j2],
    ensures
        forall|j: int|
            0 <= j < kept_limbs(bodies, required, limbs).len() ==> limbs.contains(
                #[trigger] kept_limbs(bodies, required, limbs)[j],
            ) && !breaks_limb(bodies[kept_limbs(bodies, required, limbs)[j] as int], required),
        forall|x: usize|
            limbs.contains(x) && !breaks_limb(bodies[x as int], required) ==> kept_limbs(
                bodies,
                required,
                limbs,
            ).contains(x),
        forall|j1: int, j2: int|
            0 <= j1 < kept_limbs(bodies, required, limbs).len() && 0 <= j2 < kept_limbs(
                bodies,
                required,
                limbs,
            ).len() && j1 != j2 ==> kept_limbs(bodies, required, limbs)[j1] != kept_limbs(
                bodies,
                required,
                limbs,
            )[j2],
    decreases limbs.len(),
{
    let kept = kept_limbs(bodies, required, limbs);
    if limbs.len() > 0 {
        let prefix = limbs.drop_last();
        let last = limbs.last();
        let rest = kept_limbs(bodies, required, prefix);
        lemma_kept_limbs_props(bodies, required, prefix);
        // The last entry differs from every prefix entry, hence from
        // every kept prefix entry.
        assert forall|j: int| 0 <= j < rest.len() implies rest[j] != last by {
            let x = rest[j];
            assert(prefix.contains(x));
            let j0 = choose|j0: int| 0 <= j0 < prefix.len() && prefix[j0] == x;
            assert(limbs[j0] == x);
            assert(limbs[limbs.len() - 1] == last);
        }
        assert forall|x: usize|
            limbs.contains(x) && !breaks_limb(bodies[x as int], required) implies kept.contains(
            x,
        ) by {
            let j0 = choose|j0: int| 0 <= j0 < limbs.len() && limbs[j0] == x;
            if j0 < limbs.len() - 1 {
                assert(prefix[j0] == x);
                assert(prefix.contains(x));
                assert(rest.contains(x));
                let jr = choose|jr: int| 0 <= jr < rest.len() && rest[jr] == x;
                assert(kept[jr] == x);
            } else {
                assert(x == last);
                assert(kept[kept.len() - 1] == x);
            }
        }
        assert forall|j: int|
            0 <= j < kept.len() implies limbs.contains(#[trigger] kept[j]) && !breaks_limb(
            bodies[kept[j] as int],
            required,
        ) by {
            if j < rest.len() {
                assert(kept[j] == rest[j]);
                assert(prefix.contains(rest[j]));
                let j0 = choose|j0: int| 0 <= j0 < prefix.len() && prefix[j0] == rest[j];
                assert(limbs[j0] == rest[j]);
            } else {
                assert(kept[j] == last);
                assert(limbs[limbs.len() - 1] == last);
            }
        }
    }
}

/// Breaking an obstacle preserves well-formedness.
pub proof fn lemma_break_preserves_wf(w: WorldModel, c: Contact)
    requires
        w.wf(),
    ensures
        break_transition(w, c).wf(),
{
    let t = break_transition(w, c);
    match break_target(w.bodies, c) {
        None => {},
        Some(obs) => match w.bodies[obs as int] {
            Body::Obstacle { required_powers, .. } => {
                let req = required_powers@;
                if required_satisfied(req, w.bodies) {
                    let n = w.bodies.len() as int;
                    assert(forall|i: int|
                        0 <= i < n ==> #[trigger] t.bodies[i] == break_slot(w.bodies, req, obs as int, i));
                    assert(forall|i: int| 0 <= i < n ==> (#[trigger] t.bodies[i]).bounded());
                    // A breaking contact names a limb, so the aggregate
                    // exists.
                    assert(w.bodies[c.first as int] is Limb || w.bodies[c.second as int] is Limb);
                    assert(w.klod is Some);
                    let k = w.klod.unwrap();
                    let tk = t.klod.unwrap();
                    lemma_kept_limbs_props(w.bodies, req, k.limbs);
                    assert(tk.limbs == kept_limbs(w.bodies, req, k.limbs));
                    // Kept rostered slots still hold their limbs.
                    assert forall|j: int|
                        0 <= j < tk.limbs.len() implies tk.limbs[j] < n && t.bodies[tk.limbs[j] as int]
                        is Limb by {
                        let x = tk.limbs[j];
                        assert(k.limbs.contains(x));
                        let j0 = choose|j0: int| 0 <= j0 < k.limbs.len() && k.limbs[j0] == x;
                        assert(w.bodies[x as int] is Limb);
                        assert(!breaks_limb(w.bodies[x as int], req));
                        assert(x as int != obs);
                        assert(!(w.bodies[x as int] is Accessory));
                        assert(t.bodies[x as int] == w.bodies[x as int]);
                    }
                    // Every surviving limb slot is still rostered.
                    assert forall|i: int|
                        0 <= i < n && t.bodies[i] is Limb implies exists|j: int|
                        0 <= j < tk.limbs.len() && tk.limbs[j] == i by {
                        assert(t.bodies[i] == break_slot(w.bodies, req, obs as int, i));
                        assert(w.bodies[i] is Limb);
                        assert(!breaks_limb(w.bodies[i], req));
                        let j0 = choose|j0: int| 0 <= j0 < k.limbs.len() && k.limbs[j0] == i;
                        assert(k.limbs[j0] == i);
                        assert(k.limbs.contains(i as usize));
                        assert(tk.limbs.contains(i as usize));
                        let jr = choose|jr: int| 0 <= jr < tk.limbs.len() && tk.limbs[jr] == i;
                        assert(tk.limbs[jr] == i);
                    }
                    assert(t.roster_ok());
                    // Surviving links: a slot that still links a visual
                    // was left untouched, and its target was not
                    // despawned (the obstacle is no accessory, and a
                    // shared visual would contradict link injectivity).
                    assert forall|i: int|
                        0 <= i < n implies (#[trigger] t.bodies[i] matches Body::Limb {
                        visual: Some(v),
                        ..
                    } ==> v < n && t.bodies[v as int] is Accessory) by {
                        match t.bodies[i] {
                            Body::Limb { visual: Some(v), .. } => {
                                assert(t.bodies[i] == w.bodies[i]);
                                assert(w.bodies[v as int] is Accessory);
                                assert(!breaks_limb(w.bodies[i], req));
                                assert(!visual_of_consumed_limb(w.bodies, req, v as int)) by {
                                    if visual_of_consumed_limb(w.bodies, req, v as int) {
                                        let l = choose|l: int|
                                            0 <= l < w.bodies.len() && (#[trigger] w.bodies[l] matches Body::Limb {
                                                power,
                                                visual: Some(u),
                                                ..
                                            } && req.contains(power) && u == v);
                                        assert(body_visual(w.bodies[l]) == Some(v));
                                        assert(body_visual(w.bodies[i]) == Some(v));
                                        assert(l != i);
                                    }
                                }
                                assert(t.bodies[v as int] == w.bodies[v as int]);
                            },
                            _ => {},
                        }
                    }
                    assert forall|i: int|
                        0 <= i < n implies (#[trigger] t.bodies[i] matches Body::Candidate {
                        visual: Some(v),
                        ..
                    } ==> v < n && t.bodies[v as int] is Decor) by {
                        match t.bodies[i] {
                            Body::Candidate { visual: Some(v), .. } => {
                                assert(t.bodies[i] == w.bodies[i]);
                                assert(w.bodies[v as int] is Decor);
                                assert(t.bodies[v as int] == w.bodies[v as int]);
                            },
                            _ => {},
                        }
                    }
                    assert(forall|i: int|
                        0 <= i < n ==> (body_visual(#[trigger] t.bodies[i]) is Some ==> t.bodies[i]
                            == w.bodies[i]));
                    assert(t.links_ok());
                }
            },
            _ => {},
        },
    }
}

/// The required powers of an obstacle slot, or the empty list.
pub open spec fn obstacle_req(b: Body) -> Seq<Power> {
    match b {
        Body::Obstacle { required_powers, .. } => required_powers@,
        _ => Seq::empty(),
    }
}

/// Whether rostered limb `l` is consumed and links visual slot `i`.
spec fn limb_links_consumed(bodies: Seq<Body>, req: Seq<Power>, l: usize, i: int) -> bool {
    bodies[l as int] matches Body::Limb { power, visual: Some(v), .. } && req.contains(power) && v
        == i
}

/// Whether the first `jj` roster entries include slot `i` as a consumed
/// limb.
spec fn consumed_by_prefix(
    bodies: Seq<Body>,
    req: Seq<Power>,
    limbs: Seq<usize>,
    jj: int,
    i: int,
) -> bool {
    exists|j2: int| 0 <= j2 < jj && #[trigger] limbs[j2] == i && breaks_limb(bodies[i], req)
}

/// Whether the first `jj` roster entries include a consumed limb whose
/// visual is slot `i`.
spec fn visual_consumed_by_prefix(
    bodies: Seq<Body>,
    req: Seq<Power>,
    limbs: Seq<usize>,
    jj: int,
    i: int,
) -> bool {
    exists|j2: int|
        0 <= j2 < jj && limb_links_consumed(bodies, req, #[trigger] limbs[j2], i)
}

/// The arena after the first `jj` roster entries have been processed by
/// the destruction pass.
spec fn processed_slot(bodies: Seq<Body>, req: Seq<Power>, limbs: Seq<usize>, jj: int, i: int) -> Body {
    if consumed_by_prefix(bodies, req, limbs, jj, i) {
        Body::Vacant
    } else if visual_consumed_by_prefix(bodies, req, limbs, jj, i) {
        Body::Vacant
    } else {
        bodies[i]
    }
}

/// Whether `p` occurs in the list.
fn power_in(required: &Vec<Power>, p: Power) -> (r: bool)
    ensures
        r == required@.contains(p),
{
    let n = required.len();
    let mut i: usize = 0;
    while i < n
        invariant
            i <= n,
            n == required.len(),
            forall|j: int| 0 <= j < i ==> required@[j] != p,
        decreases n - i,
    {
        if required[i] == p {
            return true;
        }
        i = i + 1;
    }
    false
}

impl World {
    /// Whether some attached limb carries power `p`.
    fn roster_has_power(&self, p: Power) -> (r: bool)
        requires
            self@.wf(),
        ensures
            r == limbs_with_power(self@.bodies, p),
    {
        let limb_count = match &self.klod {
            Some(k) => k.limbs.len(),
            None => {
                proof {
                    assert forall|i: int|
                        0 <= i < self@.bodies.len() implies !limb_has_power(
                        #[trigger] self@.bodies[i],
                        p,
                    ) by {
                        assert(!(self@.bodies[i] is Limb));
                    }
                }
                return false;
            },
        };
        let mut j: usize = 0;
        while j < limb_count
            invariant
                j <= limb_count,
                self@.wf(),
                self@.klod matches Some(pk) && limb_count == pk.limbs.len(),
                forall|j2: int|
                    0 <= j2 < j ==> !limb_has_power(
                        self@.bodies[#[trigger] self@.klod.unwrap().limbs[j2] as int],
                        p,
                    ),
            decreases limb_count - j,
        {
            let b = match &self.klod {
                Some(k) => k.limbs[j],
                None => {
                    proof {
                        assert(false);
                    }
                    0
                },
            };
            let found = match &self.bodies[b] {
                Body::Limb { power, .. } => *power == p,
                _ => false,
            };
            if found {
                proof {
                    assert(limb_has_power(self@.bodies[b as int], p));
                }
                return true;
            }
            j = j + 1;
        }
        proof {
            let k = self@.klod.unwrap();
            assert forall|i: int|
                0 <= i < self@.bodies.len() implies !limb_has_power(
                #[trigger] self@.bodies[i],
                p,
            ) by {
                if self@.bodies[i] is Limb {
                    let j2 = choose|j2: int| 0 <= j2 < k.limbs.len() && k.limbs[j2] == i;
                    assert(!limb_has_power(self@.bodies[k.limbs[j2] as int], p));
                }
            }
        }
        false
    }

    /// Whether the attached limbs jointly supply every required power.
    fn has_all_powers(&self, required: &Vec<Power>) -> (r: bool)
        requires
            self@.wf(),
        ensures
            r == required_satisfied(required@, self@.bodies),
    {
        let n = required.len();
        let mut j: usize = 0;
        while j < n
            invariant
                j <= n,
                n == required.len(),
                self@.wf(),
                forall|j2: int|
                    0 <= j2 < j ==> limbs_with_power(self@.bodies, #[trigger] required@[j2]),
            decreases n - j,
        {
            if !self.roster_has_power(required[j]) {
                return false;
            }
            j = j + 1;
        }
        true
    }

    /// Break an obstacle on a contact; see [`break_transition`]. If no
    /// side of the contact is a limb, the other side is no obstacle, or
    /// a required power is missing from the limb roster, nothing
    /// changes.
    pub fn break_elemental_obstacle(&mut self, c: Contact)
        requires
            old(self)@.wf(),
        ensures
            final(self)@ == break_transition(old(self)@, c),
            final(self)@.wf(),
    {
        proof {
            lemma_break_preserves_wf(old(self)@, c);
        }
        let ghost prev = self@;
        if c.first >= self.bodies.len() || c.second >= self.bodies.len() {
            return ;
        }
        let first_limb = matches!(&self.bodies[c.first], Body::Limb { .. });
        let second_limb = matches!(&self.bodies[c.second], Body::Limb { .. });
        let obs = if first_limb {
            c.second
        } else if second_limb {
            c.first
        } else {
            return ;
        };
        let ghost req = obstacle_req(prev.bodies[obs as int]);
        let req_len = match &self.bodies[obs] {
            Body::Obstacle { required_powers, .. } => required_powers.len(),
            _ => {
                return ;
            },
        };
        // Take a private copy of the required powers, so that the arena
        // can be mutated while they are consulted.
        let mut required: Vec<Power> = Vec::new();
        let mut t: usize = 0;
        while t < req_len
            invariant
                t <= req_len,
                self@ == prev,
                obs < prev.bodies.len(),
                req == obstacle_req(prev.bodies[obs as int]),
                req_len == req.len(),
                required@ == req.take(t as int),
            decreases req_len - t,
        {
            let p = match &self.bodies[obs] {
                Body::Obstacle { required_powers, .. } => required_powers[t],
                _ => {
                    proof {
                        assert(false);
                    }
                    Power::Neutral
                },
            };
            required.push(p);
            proof {
                assert(req.take(t + 1) =~= req.take(t as int).push(req[t as int]));
            }
            t = t + 1;
        }
        proof {
            assert(required@ =~= req);
        }
        if !self.has_all_powers(&required) {
            return ;
        }
        // A limb exists on one contact side, so the aggregate exists.
        let limb_count = match &self.klod {
            Some(k) => k.limbs.len(),
            None => {
                proof {
                    assert(false);
                }
                return ;
            },
        };
        let ghost limbs = prev.klod.unwrap().limbs;
        let n = self.bodies.len();
        // Destruction pass: despawn every consumed limb and its visual.
        let mut jj: usize = 0;
        while jj < limb_count
            invariant
                jj <= limb_count,
                prev.wf(),
                n == self.bodies.len(),
                prev.bodies.len() == n,
                self@.klod == prev.klod,
                self@.camera == prev.camera,
                self@.spawn_point == prev.spawn_point,
                self@.next_id == prev.next_id,
                prev.klod matches Some(pk) && pk.limbs == limbs && limb_count == limbs.len(),
                required@ == req,
                forall|i: int|
                    0 <= i < n ==> #[trigger] self@.bodies[i] == processed_slot(
                        prev.bodies,
                        req,
                        limbs,
                        jj as int,
                        i,
                    ),
            decreases limb_count - jj,
        {
            let b = match &self.klod {
                Some(k) => k.limbs[jj],
                None => {
                    proof {
                        assert(false);
                    }
                    0
                },
            };
            proof {
                assert(b == limbs[jj as int]);
                assert(b < n && prev.bodies[b as int] is Limb);
                assert(!consumed_by_prefix(prev.bodies, req, limbs, jj as int, b as int)) by {
                    if consumed_by_prefix(prev.bodies, req, limbs, jj as int, b as int) {
                        let j2 = choose|j2: int|
                            0 <= j2 < jj && #[trigger] limbs[j2] == b as int && breaks_limb(
                                prev.bodies[b as int],
                                req,
                            );
                        assert(limbs[j2] == limbs[jj as int]);
                    }
                }
                assert(!visual_consumed_by_prefix(prev.bodies, req, limbs, jj as int, b as int))
                    by {
                    if visual_consumed_by_prefix(prev.bodies, req, limbs, jj as int, b as int) {
                        let j2 = choose|j2: int|
                            0 <= j2 < jj && limb_links_consumed(
                                prev.bodies,
                                req,
                                #[trigger] limbs[j2],
                                b as int,
                            );
                        assert(prev.bodies[b as int] is Accessory);
                    }
                }
                assert(self@.bodies[b as int] == prev.bodies[b as int]);
            }
            let (consumed, vis) = match &self.bodies[b] {
                Body::Limb { power, visual, .. } => (power_in(&required, *power), *visual),
                _ => {
                    proof {
                        assert(false);
                    }
                    (false, None)
                },
            };
            if consumed {
                if let Some(v) = vis {
                    proof {
                        assert(prev.bodies[b as int] matches Body::Limb { visual: Some(vv), .. }
                            && vv == v);
                        assert(v < n && prev.bodies[v as int] is Accessory);
                    }
                    self.bodies.set(v, Body::Vacant);
                }
                self.bodies.set(b, Body::Vacant);
            }
            proof {
                assert forall|i: int|
                    0 <= i < n implies self@.bodies[i] == processed_slot(
                    prev.bodies,
                    req,
                    limbs,
                    jj + 1,
                    i,
                ) by {
                    if consumed && i == b as int {
                        assert(breaks_limb(prev.bodies[b as int], req));
                        assert(limbs[jj as int] == i);
                        assert(consumed_by_prefix(prev.bodies, req, limbs, jj + 1, i));
                    } else if consumed && (vis matches Some(v) && i == v as int) {
                        assert(limb_links_consumed(prev.bodies, req, limbs[jj as int], i));
                        assert(visual_consumed_by_prefix(prev.bodies, req, limbs, jj + 1, i));
                        assert(!consumed_by_prefix(prev.bodies, req, limbs, jj + 1, i)) by {
                            if consumed_by_prefix(prev.bodies, req, limbs, jj + 1, i) {
                                assert(prev.bodies[i] is Limb);
                                assert(prev.bodies[i] is Accessory);
                            }
                        }
                    } else {
                        // Untouched: the new roster entry adds no way to
                        // consume this slot.
                        assert(self@.bodies[i] == processed_slot(
                            prev.bodies,
                            req,
                            limbs,
                            jj as int,
                            i,
                        ));
                        assert(consumed_by_prefix(prev.bodies, req, limbs, jj + 1, i)
                            == consumed_by_prefix(prev.bodies, req, limbs, jj as int, i)) by {
                            if consumed_by_prefix(prev.bodies, req, limbs, jj + 1, i) {
                                let j2 = choose|j2: int|
                                    0 <= j2 < jj + 1 && #[trigger] limbs[j2] == i && breaks_limb(
                                        prev.bodies[i],
                                        req,
                                    );
                                if j2 == jj {
                                    assert(i == b as int);
                                    assert(consumed);
                                }
                            }
                        }
                        assert(visual_consumed_by_prefix(prev.bodies, req, limbs, jj + 1, i)
                            == visual_consumed_by_prefix(prev.bodies, req, limbs, jj as int, i))
                            by {
                            if visual_consumed_by_prefix(prev.bodies, req, limbs, jj + 1, i) {
                                let j2 = choose|j2: int|
                                    0 <= j2 < jj + 1 && limb_links_consumed(
                                        prev.bodies,
                                        req,
                                        #[trigger] limbs[j2],
                                        i,
                                    );
                                if j2 == jj {
                                    assert(limb_links_consumed(prev.bodies, req, b, i));
                                    assert(consumed);
                                    assert(vis matches Some(v) && v as int == i);
                                }
                            }
                        }
                    }
                }
            }
            jj = jj + 1;
        }
        // The obstacle itself.
        proof {
            assert(self@.bodies[obs as int] == prev.bodies[obs as int]) by {
                assert(!consumed_by_prefix(prev.bodies, req, limbs, limb_count as int, obs as int))
                    by {
                    if consumed_by_prefix(prev.bodies, req, limbs, limb_count as int, obs as int) {
                        assert(prev.bodies[obs as int] is Limb);
                    }
                }
                assert(!visual_consumed_by_prefix(
                    prev.bodies,
                    req,
                    limbs,
                    limb_count as int,
                    obs as int,
                )) by {
                    if visual_consumed_by_prefix(
                        prev.bodies,
                        req,
                        limbs,
                        limb_count as int,
                        obs as int,
                    ) {
                        let j2 = choose|j2: int|
                            0 <= j2 < limb_count && limb_links_consumed(
                                prev.bodies,
                                req,
                                #[trigger] limbs[j2],
                                obs as int,
                            );
                        assert(prev.bodies[obs as int] is Accessory);
                    }
                }
            }
        }
        self.bodies.set(obs, Body::Vacant);
        // Roster rebuild: keep exactly the slots still tagged as limbs.
        let mut new_limbs: Vec<usize> = Vec::new();
        let mut t2: usize = 0;
        while t2 < limb_count
            invariant
                t2 <= limb_count,
                prev.wf(),
                n == self.bodies.len(),
                prev.bodies.len() == n,
                self@.klod == prev.klod,
                prev.klod matches Some(pk) && pk.limbs == limbs && limb_count == limbs.len(),
                obs < n,
                prev.bodies[obs as int] is Obstacle,
                forall|i: int|
                    0 <= i < n ==> #[trigger] self@.bodies[i] == (if i == obs as int {
                        Body::Vacant
                    } else {
                        processed_slot(prev.bodies, req, limbs, limb_count as int, i)
                    }),
                new_limbs@ == kept_limbs(prev.bodies, req, limbs.take(t2 as int)),
            decreases limb_count - t2,
        {
            let b = match &self.klod {
                Some(k) => k.limbs[t2],
                None => {
                    proof {
                        assert(false);
                    }
                    0
                },
            };
            let keep = matches!(&self.bodies[b], Body::Limb { .. });
            proof {
                assert(b == limbs[t2 as int]);
                assert(prev.bodies[b as int] is Limb);
                assert(b as int != obs as int);
                assert(!visual_consumed_by_prefix(
                    prev.bodies,
                    req,
                    limbs,
                    limb_count as int,
                    b as int,
                )) by {
                    if visual_consumed_by_prefix(
                        prev.bodies,
                        req,
                        limbs,
                        limb_count as int,
                        b as int,
                    ) {
                        let j2 = choose|j2: int|
                            0 <= j2 < limb_count && limb_links_consumed(
                                prev.bodies,
                                req,
                                #[trigger] limbs[j2],
                                b as int,
                            );
                        assert(prev.bodies[b as int] is Accessory);
                    }
                }
                assert(self@.bodies[b as int] == processed_slot(
                    prev.bodies,
                    req,
                    limbs,
                    limb_count as int,
                    b as int,
                ));
                if breaks_limb(prev.bodies[b as int], req) {
                    assert(consumed_by_prefix(prev.bodies, req, limbs, limb_count as int, b as int))
                        by {
                        assert(limbs[t2 as int] == b as int);
                    }
                    assert(!keep);
                } else {
                    assert(!consumed_by_prefix(
                        prev.bodies,
                        req,
                        limbs,
                        limb_count as int,
                        b as int,
                    ));
                    assert(keep);
                }
                assert(limbs.take(t2 + 1).drop_last() =~= limbs.take(t2 as int));
                assert(limbs.take(t2 + 1).last() == limbs[t2 as int]);
            }
            if keep {
                new_limbs.push(b);
            }
            t2 = t2 + 1;
        }
        proof {
            assert(limbs.take(limb_count as int) =~= limbs);
        }
        let mut k = self.klod.take().unwrap();
        k.limbs = new_limbs;
        self.klod = Some(k);
        // The processed arena is exactly the break transition's arena.
        proof {
            let target = break_transition(prev, c);
            assert forall|i: int|
                0 <= i < n implies self@.bodies[i] == break_slot(
                prev.bodies,
                req,
                obs as int,
                i,
            ) by {
                if i != obs as int {
                    if breaks_limb(prev.bodies[i], req) {
                        let j2 = choose|j2: int| 0 <= j2 < limbs.len() && limbs[j2] == i;
                        assert(consumed_by_prefix(prev.bodies, req, limbs, limb_count as int, i));
                    } else if prev.bodies[i] is Accessory && visual_of_consumed_limb(
                        prev.bodies,
                        req,
                        i,
                    ) {
                        let l = choose|l: int|
                            0 <= l < prev.bodies.len() && (#[trigger] prev.bodies[l] matches Body::Limb {
                                power,
                                visual: Some(v),
                                ..
                            } && req.contains(power) && v == i);
                        let j2 = choose|j2: int| 0 <= j2 < limbs.len() && limbs[j2] == l;
                        assert(limb_links_consumed(prev.bodies, req, limbs[j2], i));
                        assert(visual_consumed_by_prefix(
                            prev.bodies,
                            req,
                            limbs,
                            limb_count as int,
                            i,
                        ));
                    } else {
                        assert(!consumed_by_prefix(prev.bodies, req, limbs, limb_count as int, i))
                            by {
                            if consumed_by_prefix(prev.bodies, req, limbs, limb_count as int, i) {
                                assert(breaks_limb(prev.bodies[i], req));
                            }
                        }
                        assert(!visual_consumed_by_prefix(
                            prev.bodies,
                            req,
                            limbs,
                            limb_count as int,
                            i,
                        )) by {
                            if visual_consumed_by_prefix(
                                prev.bodies,
                                req,
                                limbs,
                                limb_count as int,
                                i,
                            ) {
                                let j2 = choose|j2: int|
                                    0 <= j2 < limb_count && limb_links_consumed(
                                        prev.bodies,
                                        req,
                                        #[trigger] limbs[j2],
                                        i,
                                    );
                                assert(prev.bodies[limbs[j2] as int] matches Body::Limb {
                                    power,
                                    visual: Some(v),
                                    ..
                                } && req.contains(power) && v == i);
                                assert(visual_of_consumed_limb(prev.bodies, req, i));
                                assert(prev.bodies[i] is Accessory);
                            }
                        }
                    }
                }
            }
            assert(self@.bodies =~= target.bodies);
            assert(self@ =~~= target);
        }
    }
}

// ---------------------------------------------------------------------
// Laws
// ---------------------------------------------------------------------

/// Shatter restores the baseline: after any sequence of absorption
/// events followed by one shatter, the aggregate is back at baseline
/// mass with an empty limb roster.
pub proof fn lemma_shatter_restores_baseline(w: WorldModel, evs: Seq<AgglomerateToKlod>)
    requires
        w.klod is Some,
    ensures
        shatter_transition(absorb_all(w, evs)).klod matches Some(k) && k.total_mass
            == BASELINE_MASS && k.limbs.len() == 0,
{
    lemma_absorb_all_keeps_klod(w, evs);
}

/// Obstacle containment: on a breaking contact that names an obstacle,
/// the obstacle is destroyed exactly when the powers present across all
/// attached limbs form a superset of its required powers.
pub proof fn lemma_obstacle_containment(w: WorldModel, c: Contact, obs: usize)
    requires
        break_target(w.bodies, c) == Some(obs),
        w.bodies[obs as int] is Obstacle,
    ensures
        break_transition(w, c).bodies[obs as int] is Vacant <==> required_satisfied(
            obstacle_req(w.bodies[obs as int]),
            w.bodies,
        ),
{
    let req = obstacle_req(w.bodies[obs as int]);
    if required_satisfied(req, w.bodies) {
        assert(break_transition(w, c).bodies[obs as int] == break_slot(
            w.bodies,
            req,
            obs as int,
            obs as int,
        ));
    }
}

} // verus!
