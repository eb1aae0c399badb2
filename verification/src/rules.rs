//! The fixed numbers a session is played by.

use crate::geometry::{Arena, Point};
use vstd::prelude::*;

verus! {

/// Sizes, speeds and durations, all in sub-units, time units and ticks.
#[derive(Clone, Copy, Debug, PartialEq, Eq)]
pub struct Rules {
    /// Time units that pass in one tick.
    pub timestep: u16,
    /// Half extents of every character.
    pub character_half: Point,
    /// Sub-units a steered character covers per time unit.
    pub character_speed: u16,
    /// Health a character starts with.
    pub character_health: u32,
    /// Ticks of shield a character starts with; zero for none.
    pub shield_ticks: u32,
    /// Ticks that must pass between two attacks of one character.
    pub reload_ticks: u32,
    /// Distance from a character's centre at which its projectiles appear.
    pub muzzle_offset: u16,
    /// Half extents of every projectile.
    pub projectile_half: Point,
    /// Sub-units a projectile covers per time unit.
    pub projectile_speed: u16,
    /// Ticks a projectile lives if it strikes nothing.
    pub projectile_lifetime: u32,
    /// Health a projectile takes from what it strikes.
    pub projectile_damage: u32,
    /// Ticks an explosion lasts.
    pub explosion_duration: u32,
}

impl Rules {
    /// The rules can be played in `arena`: time advances, characters start
    /// alive, projectiles and explosions last at least one tick, and
    /// characters and projectiles fit the arena.
    pub open spec fn fit(self, arena: Arena) -> bool {
        &&& self.timestep > 0
        &&& self.character_health > 0
        &&& self.projectile_lifetime > 0
        &&& self.explosion_duration > 0
        &&& arena.admits(self.character_half)
        &&& arena.admits(self.projectile_half)
    }

    /// Whether the rules can be played in `arena`.
    pub fn fits(&self, arena: &Arena) -> (ok: bool)
        ensures
            ok == self.fit(*arena),
    {
        self.timestep > 0 && self.character_health > 0 && self.projectile_lifetime > 0
            && self.explosion_duration > 0 && arena.can_admit(self.character_half)
            && arena.can_admit(self.projectile_half)
    }
}

} // verus!
