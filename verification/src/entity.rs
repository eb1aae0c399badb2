//! The kinds of simulated entities and what makes one of them legal.

use crate::geometry::{Arena, Direction, Point};
use vstd::prelude::*;

verus! {

/// Faction tag. Projectiles never harm characters of their own team.
#[derive(Clone, Copy, Debug, PartialEq, Eq, Structural)]
pub enum Team {
    Players,
    Enemies,
    Neutral,
}

/// A player or enemy combatant.
#[derive(Clone, Copy, Debug, PartialEq, Eq, Structural)]
pub struct Character {
    /// Displacement per unit of time.
    pub velocity: Point,
    pub facing: Direction,
    /// Positive while the character is alive.
    pub health: u32,
    /// While set, projectile damage is nullified.
    pub shield_active: bool,
    /// Ticks of shield left; positive exactly while the shield is active.
    pub shield_timer: u32,
    /// Ticks until the next attack is allowed.
    pub cooldown: u32,
}

/// A bullet in flight.
#[derive(Clone, Copy, Debug, PartialEq, Eq, Structural)]
pub struct Projectile {
    /// Displacement per unit of time, fixed when the projectile is fired.
    pub velocity: Point,
    /// Identifier of the character that fired it.
    pub owner: u64,
    /// Ticks left to live; positive while the projectile exists.
    pub lifetime: u32,
    pub damage: u32,
}

/// What an obstacle is made of.
#[derive(Clone, Copy, Debug, PartialEq, Eq, Structural)]
pub enum Material {
    Indestructible,
    Breakable,
}

/// A wall segment.
#[derive(Clone, Copy, Debug, PartialEq, Eq, Structural)]
pub struct Obstacle {
    pub material: Material,
    /// Hits a breakable segment can still take; unused otherwise.
    pub health: u32,
}

/// A transient effect left behind by a destroyed character or obstacle.
#[derive(Clone, Copy, Debug, PartialEq, Eq, Structural)]
pub struct Explosion {
    /// Ticks since the explosion appeared; always below `duration`.
    pub elapsed: u32,
    pub duration: u32,
}

/// What an entity is, with the data of its kind.
#[derive(Clone, Copy, Debug, PartialEq, Eq, Structural)]
pub enum Kind {
    Character(Character),
    Projectile(Projectile),
    Obstacle(Obstacle),
    Explosion(Explosion),
}

/// One live entity of the simulation.
#[derive(Clone, Copy, Debug, PartialEq, Eq, Structural)]
pub struct Entity {
    /// Unique for the lifetime of the registry that issued it.
    pub id: u64,
    /// Centre of the bounding box.
    pub pos: Point,
    /// Centre before the most recent movement step.
    pub prev: Point,
    /// Half extents of the bounding box.
    pub half: Point,
    pub team: Team,
    pub kind: Kind,
}

impl Kind {
    /// The kind-specific counters are in their live range.
    pub open spec fn live(self) -> bool {
        match self {
            Kind::Character(c) => c.health > 0 && (c.shield_active <==> c.shield_timer > 0),
            Kind::Projectile(p) => p.lifetime > 0,
            Kind::Obstacle(o) => o.material == Material::Breakable ==> o.health > 0,
            Kind::Explosion(x) => x.elapsed < x.duration,
        }
    }

    /// Whether the kind-specific counters are in their live range.
    pub fn is_live(&self) -> (ok: bool)
        ensures
            ok == self.live(),
    {
        match self {
            Kind::Character(c) => c.health > 0 && (c.shield_active == (c.shield_timer > 0)),
            Kind::Projectile(p) => p.lifetime > 0,
            Kind::Obstacle(o) => match o.material {
                Material::Breakable => o.health > 0,
                Material::Indestructible => true,
            },
            Kind::Explosion(x) => x.elapsed < x.duration,
        }
    }
}

impl Entity {
    /// The entity may be stored in a registry over `arena`: its box lies
    /// inside the arena now and before its last move, and its counters are
    /// in their live range.
    pub open spec fn legal(self, arena: Arena) -> bool {
        &&& arena.holds(self.pos, self.half)
        &&& arena.holds(self.prev, self.half)
        &&& self.kind.live()
    }

    /// The entity is a character.
    pub open spec fn is_character(self) -> bool {
        self.kind is Character
    }

    /// The entity is a projectile.
    pub open spec fn is_projectile(self) -> bool {
        self.kind is Projectile
    }

    /// The entity is an obstacle.
    pub open spec fn is_obstacle(self) -> bool {
        self.kind is Obstacle
    }

    /// The entity is an explosion.
    pub open spec fn is_explosion(self) -> bool {
        self.kind is Explosion
    }

    /// Characters and projectiles move; obstacles and explosions do not.
    pub open spec fn movable(self) -> bool {
        self.kind is Character || self.kind is Projectile
    }

    /// The velocity of a movable entity, zero for the others.
    pub open spec fn velocity(self) -> Point {
        match self.kind {
            Kind::Character(c) => c.velocity,
            Kind::Projectile(p) => p.velocity,
            _ => Point { x: 0, y: 0 },
        }
    }

    /// Characters and breakable obstacles can lose health.
    pub open spec fn vulnerable(self) -> bool {
        match self.kind {
            Kind::Character(_) => true,
            Kind::Obstacle(o) => o.material == Material::Breakable,
            _ => false,
        }
    }

    /// The health of a vulnerable entity, zero for the others.
    pub open spec fn health(self) -> u32 {
        match self.kind {
            Kind::Character(c) => c.health,
            Kind::Obstacle(o) => if o.material == Material::Breakable {
                o.health
            } else {
                0
            },
            _ => 0,
        }
    }

    /// The same entity with its health set to `health`; entities that are not
    /// vulnerable are returned as they are.
    pub open spec fn with_health(self, health: u32) -> Entity {
        match self.kind {
            Kind::Character(c) => Entity {
                kind: Kind::Character(Character { health, ..c }),
                ..self
            },
            Kind::Obstacle(o) => if o.material == Material::Breakable {
                Entity { kind: Kind::Obstacle(Obstacle { health, ..o }), ..self }
            } else {
                self
            },
            _ => self,
        }
    }

    /// Whether the entity may be stored in a registry over `arena`.
    pub fn is_legal(&self, arena: &Arena) -> (ok: bool)
        ensures
            ok == self.legal(*arena),
    {
        arena.contains_box(self.pos, self.half) && arena.contains_box(self.prev, self.half)
            && self.kind.is_live()
    }

    /// Whether the entity can lose health.
    pub fn can_be_hurt(&self) -> (ok: bool)
        ensures
            ok == self.vulnerable(),
    {
        match self.kind {
            Kind::Character(_) => true,
            Kind::Obstacle(o) => match o.material {
                Material::Breakable => true,
                Material::Indestructible => false,
            },
            _ => false,
        }
    }

    /// The health of a vulnerable entity, zero for the others.
    pub fn current_health(&self) -> (h: u32)
        ensures
            h == self.health(),
    {
        match self.kind {
            Kind::Character(c) => c.health,
            Kind::Obstacle(o) => match o.material {
                Material::Breakable => o.health,
                Material::Indestructible => 0,
            },
            _ => 0,
        }
    }

    /// The same entity with its health set to `health`; an entity that cannot
    /// be hurt is returned as it is.
    pub fn set_health(&self, health: u32) -> (e: Entity)
        ensures
            e == self.with_health(health),
    {
        match self.kind {
            Kind::Character(c) => Entity {
                id: self.id,
                pos: self.pos,
                prev: self.prev,
                half: self.half,
                team: self.team,
                kind: Kind::Character(
                    Character {
                        velocity: c.velocity,
                        facing: c.facing,
                        health,
                        shield_active: c.shield_active,
                        shield_timer: c.shield_timer,
                        cooldown: c.cooldown,
                    },
                ),
            },
            Kind::Obstacle(o) => match o.material {
                Material::Breakable => Entity {
                    id: self.id,
                    pos: self.pos,
                    prev: self.prev,
                    half: self.half,
                    team: self.team,
                    kind: Kind::Obstacle(Obstacle { material: o.material, health }),
                },
                Material::Indestructible => *self,
            },
            _ => *self,
        }
    }
}

} // verus!
