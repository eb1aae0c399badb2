//! The fixed-timestep movement integrator.
//!
//! Every character and projectile advances by its velocity times the
//! timestep and is then clamped so that its box stays inside the arena.
//! Obstacles and explosions never move. Only positions change.

use crate::entity::{Entity, Kind};
use crate::geometry::{lemma_nearest, Arena, Point};
use crate::registry::{Registry, World};
use vstd::prelude::*;

verus! {

/// Where one step of `dt` time units takes the entity: its position plus
/// velocity times `dt`, clamped to the arena.
pub open spec fn destination(e: Entity, arena: Arena, dt: u16) -> Point {
    arena.nearest(e.pos.x + e.velocity().x * dt, e.pos.y + e.velocity().y * dt, e.half)
}

/// The entity after one movement step. A movable entity remembers where it
/// came from; the others are left untouched.
pub open spec fn moved(e: Entity, arena: Arena, dt: u16) -> Entity {
    if e.movable() {
        Entity { pos: destination(e, arena, dt), prev: e.pos, ..e }
    } else {
        e
    }
}

impl World {
    /// The world after every entity has taken one movement step.
    pub open spec fn integrated(self, dt: u16) -> World {
        World { entities: self.entities.map_values(|e: Entity| moved(e, self.arena, dt)), ..self }
    }
}

/// After a movement step an entity lies inside the arena, within
/// `[min + half, max - half]` on both axes.
pub proof fn lemma_moved_in_bounds(e: Entity, arena: Arena, dt: u16)
    requires
        e.legal(arena),
    ensures
        moved(e, arena, dt).legal(arena),
        arena.min.x + e.half.x <= moved(e, arena, dt).pos.x <= arena.max.x - e.half.x,
        arena.min.y + e.half.y <= moved(e, arena, dt).pos.y <= arena.max.y - e.half.y,
        moved(e, arena, dt).id == e.id,
        moved(e, arena, dt).half == e.half,
        moved(e, arena, dt).team == e.team,
        moved(e, arena, dt).kind == e.kind,
{
    lemma_nearest(
        arena,
        e.pos.x + e.velocity().x * dt,
        e.pos.y + e.velocity().y * dt,
        e.half,
    );
}

/// A movement step whose target lies inside the arena reaches it exactly.
pub proof fn lemma_moved_freely(e: Entity, arena: Arena, dt: u16)
    requires
        e.legal(arena),
        e.movable(),
        arena.min.x + e.half.x <= e.pos.x + e.velocity().x * dt <= arena.max.x - e.half.x,
        arena.min.y + e.half.y <= e.pos.y + e.velocity().y * dt <= arena.max.y - e.half.y,
    ensures
        moved(e, arena, dt).pos.x == e.pos.x + e.velocity().x * dt,
        moved(e, arena, dt).pos.y == e.pos.y + e.velocity().y * dt,
{
    lemma_nearest(
        arena,
        e.pos.x + e.velocity().x * dt,
        e.pos.y + e.velocity().y * dt,
        e.half,
    );
}

/// The movement integrator keeps a well-formed world well-formed.
pub proof fn lemma_integrated_wf(w: World, dt: u16)
    requires
        w.wf(),
    ensures
        w.integrated(dt).wf(),
{
    let r = w.integrated(dt);
    assert forall|i: int| 0 <= i < r.entities.len() implies (#[trigger] r.entities[i]).legal(
        r.arena,
    ) && r.entities[i].id == w.entities[i].id by {
        assert(w.entities[i].legal(w.arena));
        lemma_moved_in_bounds(w.entities[i], w.arena, dt);
    }
    assert forall|i: int, j: int| 0 <= i < j < r.entities.len() implies r.entities[i].id
        < r.entities[j].id by {
        assert(r.entities[i].legal(r.arena));
        assert(r.entities[j].legal(r.arena));
        assert(w.entities[i].id < w.entities[j].id);
    }
    assert forall|i: int| 0 <= i < r.entities.len() implies r.entities[i].id < r.next_id by {
        assert(r.entities[i].legal(r.arena));
    }
}

/// After the movement step every entity is found under its identifier as
/// before, one step further.
pub proof fn lemma_lookup_integrated(w: World, dt: u16, id: u64)
    requires
        w.wf(),
    ensures
        w.integrated(dt).lookup(id) == match w.lookup(id) {
            Some(e) => Some(moved(e, w.arena, dt)),
            None => None,
        },
{
    let r = w.integrated(dt);
    assert forall|i: int| 0 <= i < w.entities.len() implies r.entities[i].id
        == w.entities[i].id by {
        assert(w.entities[i].legal(w.arena));
        lemma_moved_in_bounds(w.entities[i], w.arena, dt);
    }
    crate::registry::lemma_lookup_aligned(w, r, id);
}

/// The product of a velocity component and a timestep.
fn displacement(v: i32, dt: u16) -> (d: i64)
    ensures
        d == v * dt,
        -0x8000_0000_0000 <= d <= 0x8000_0000_0000,
{
    assert(-0x8000_0000_0000 <= v * dt <= 0x8000_0000_0000) by (nonlinear_arith)
        requires
            -0x8000_0000 <= v < 0x8000_0000,
            0 <= dt < 0x1_0000,
    ;
    (v as i64) * (dt as i64)
}

/// Advances one entity by one step of `dt` time units.
pub fn step_entity(e: &Entity, arena: &Arena, dt: u16) -> (r: Entity)
    requires
        arena.admits(e.half),
    ensures
        r == moved(*e, *arena, dt),
{
    let velocity = match e.kind {
        Kind::Character(c) => c.velocity,
        Kind::Projectile(p) => p.velocity,
        _ => {
            return *e;
        },
    };
    let x: i64 = e.pos.x as i64 + displacement(velocity.x, dt);
    let y: i64 = e.pos.y as i64 + displacement(velocity.y, dt);
    let pos = arena.clamp(x, y, e.half);
    Entity { id: e.id, pos, prev: e.pos, half: e.half, team: e.team, kind: e.kind }
}

impl Registry {
    /// Advances every movable entity by one step of `dt` time units.
    pub fn integrate(&mut self, dt: u16)
        requires
            old(self).wf(),
        ensures
            final(self).wf(),
            final(self)@ == old(self)@.integrated(dt),
            final(self)@.arena == old(self)@.arena,
    {
        let ghost before = self@;
        let arena = self.arena();
        let n = self.len();
        let mut i: usize = 0;
        while i < n
            invariant
                i <= n,
                n == before.entities.len(),
                before.wf(),
                self.wf(),
                arena == before.arena,
                self@.arena == before.arena,
                self@.next_id == before.next_id,
                self@.entities.len() == n,
                forall|k: int| 0 <= k < i ==> self@.entities[k] == moved(before.entities[k], arena, dt),
                forall|k: int| i <= k < n ==> self@.entities[k] == before.entities[k],
            decreases n - i,
        {
            let e = self.entity_at(i).unwrap();
            proof {
                assert(before.entities[i as int].legal(arena));
                lemma_moved_in_bounds(e, arena, dt);
            }
            let m = step_entity(&e, &arena, dt);
            self.replace(i, m);
            i += 1;
        }
        proof {
            assert(self@.entities =~= before.integrated(dt).entities);
        }
    }
}

} // verus!
