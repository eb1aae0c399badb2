//! The lifecycle manager: what appears, ages and disappears.
//!
//! It turns attack requests into projectiles, ages every timer once per
//! tick, removes what has run out, and carries out what the collision
//! resolver reported: spent projectiles leave, damage is taken, and whatever
//! is destroyed leaves an explosion behind.

use crate::collision::{reduced, spares, Event};
use crate::entity::{Character, Entity, Explosion, Kind, Projectile, Team};
use crate::geometry::{lemma_nearest, Direction, Point};
use crate::registry::{
    lemma_dropped_wf, lemma_locate, lemma_lookup_id, lemma_replaced_wf, lemma_spawned_wf,
    lemma_without_wf, ascending, Registry, World,
};
use crate::rules::Rules;
use vstd::prelude::*;

verus! {

/// What one character is asked to do during a tick.
#[derive(Clone, Copy, Debug, PartialEq, Eq)]
pub struct Intent {
    /// Identifier of the character addressed.
    pub character: u64,
    /// Where to move, or `None` to stand still.
    pub heading: Option<Direction>,
    /// Whether to attack.
    pub fire: bool,
}

/// A character turned towards `heading` and set in motion at `speed`, or
/// stopped if there is no heading. Other entities cannot be steered.
pub open spec fn steered(e: Entity, heading: Option<Direction>, speed: u16) -> Entity {
    match e.kind {
        Kind::Character(c) => match heading {
            Some(d) => Entity {
                kind: Kind::Character(Character { velocity: d.step(speed), facing: d, ..c }),
                ..e
            },
            None => Entity {
                kind: Kind::Character(Character { velocity: Point { x: 0, y: 0 }, ..c }),
                ..e
            },
        },
        _ => e,
    }
}

/// The projectile a character fires: it flies where the character faces,
/// belongs to the character and has the damage and lifetime of the rules.
pub open spec fn shot(e: Entity, rules: Rules) -> Kind {
    let facing = match e.kind {
        Kind::Character(c) => c.facing,
        _ => Direction::Up,
    };
    Kind::Projectile(
        Projectile {
            velocity: facing.step(rules.projectile_speed),
            owner: e.id,
            lifetime: rules.projectile_lifetime,
            damage: rules.projectile_damage,
        },
    )
}

/// A character that has just fired and has to wait before it fires again.
pub open spec fn reloaded(e: Entity, rules: Rules) -> Entity {
    match e.kind {
        Kind::Character(c) => Entity {
            kind: Kind::Character(Character { cooldown: rules.reload_ticks, ..c }),
            ..e
        },
        _ => e,
    }
}

/// The entity one tick older, or `None` if its time has run out.
///
/// A character's shield timer and attack cooldown count down and the shield
/// ends when its timer reaches zero. A projectile loses one tick of lifetime
/// and expires at zero. An explosion gains one tick and ends when it has
/// lasted its duration. Obstacles do not age.
pub open spec fn aged(e: Entity) -> Option<Entity> {
    match e.kind {
        Kind::Character(c) => {
            let shield_timer = if c.shield_active && c.shield_timer > 0 {
                (c.shield_timer - 1) as u32
            } else {
                c.shield_timer
            };
            let cooldown = if c.cooldown > 0 {
                (c.cooldown - 1) as u32
            } else {
                0
            };
            Some(
                Entity {
                    kind: Kind::Character(
                        Character {
                            shield_timer,
                            shield_active: c.shield_active && shield_timer > 0,
                            cooldown,
                            ..c
                        },
                    ),
                    ..e
                },
            )
        },
        Kind::Projectile(p) => if p.lifetime > 1 {
            Some(
                Entity {
                    kind: Kind::Projectile(Projectile { lifetime: (p.lifetime - 1) as u32, ..p }),
                    ..e
                },
            )
        } else {
            None
        },
        Kind::Obstacle(_) => Some(e),
        Kind::Explosion(x) => if x.elapsed + 1 < x.duration {
            Some(
                Entity {
                    kind: Kind::Explosion(Explosion { elapsed: (x.elapsed + 1) as u32, ..x }),
                    ..e
                },
            )
        } else {
            None
        },
    }
}

/// The entities of `s` that outlive this tick, each one tick older.
pub open spec fn survivors(s: Seq<Entity>) -> Seq<Entity>
    decreases s.len(),
{
    if s.len() == 0 {
        Seq::empty()
    } else {
        match aged(s.last()) {
            Some(e) => survivors(s.drop_last()).push(e),
            None => survivors(s.drop_last()),
        }
    }
}

/// The explosion left behind by a destroyed entity.
pub open spec fn blast(rules: Rules) -> Kind {
    Kind::Explosion(Explosion { elapsed: 0, duration: rules.explosion_duration })
}

impl World {
    /// The world after the entity `id` has been steered.
    pub open spec fn steering(self, id: u64, heading: Option<Direction>, speed: u16) -> World {
        match self.locate(id) {
            Some(i) => self.replaced(i, steered(self.entities[i], heading, speed)),
            None => self,
        }
    }

    /// Where the projectile of the character `e` appears: at the character's
    /// position, offset in the direction it faces, and no further than the
    /// arena allows.
    pub open spec fn muzzle(self, e: Entity, rules: Rules) -> Point {
        let facing = match e.kind {
            Kind::Character(c) => c.facing,
            _ => Direction::Up,
        };
        self.arena.nearest(
            e.pos.x + facing.dx() * rules.muzzle_offset,
            e.pos.y + facing.dy() * rules.muzzle_offset,
            rules.projectile_half,
        )
    }

    /// An attack request for `id` is granted: `id` is a character whose
    /// cooldown has elapsed, and the projectile can be spawned.
    pub open spec fn fires(self, id: u64, rules: Rules) -> bool {
        match self.lookup(id) {
            Some(e) => match e.kind {
                Kind::Character(c) => c.cooldown == 0 && self.newcomer(
                    self.muzzle(e, rules),
                    rules.projectile_half,
                    e.team,
                    shot(e, rules),
                ) is Some,
                _ => false,
            },
            None => false,
        }
    }

    /// The world after an attack request for `id`: if it is granted, one
    /// projectile appears and the character starts to reload; if not,
    /// nothing changes.
    pub open spec fn attacked(self, id: u64, rules: Rules) -> World {
        if self.fires(id, rules) {
            let i = self.locate(id)->0;
            let e = self.entities[i];
            self.spawned(self.muzzle(e, rules), rules.projectile_half, e.team, shot(e, rules))
                .replaced(i, reloaded(e, rules))
        } else {
            self
        }
    }

    /// The world after one intent has been followed: the character is
    /// steered, then attacks if asked to.
    pub open spec fn obeyed(self, intent: Intent, rules: Rules) -> World {
        let w = self.steering(intent.character, intent.heading, rules.character_speed);
        if intent.fire {
            w.attacked(intent.character, rules)
        } else {
            w
        }
    }

    /// The world after all intents have been followed, in order.
    pub open spec fn obeyed_all(self, intents: Seq<Intent>, rules: Rules) -> World
        decreases intents.len(),
    {
        if intents.len() == 0 {
            self
        } else {
            self.obeyed_all(intents.drop_last(), rules).obeyed(intents.last(), rules)
        }
    }

    /// The world one tick older.
    pub open spec fn matured(self) -> World {
        World { entities: survivors(self.entities), ..self }
    }

    /// The world after the entity `id` has taken `damage`. An entity whose
    /// health reaches zero is removed; one that cannot be hurt is unharmed.
    pub open spec fn hurt(self, id: u64, damage: u32) -> World {
        match self.locate(id) {
            Some(i) => {
                let e = self.entities[i];
                if !e.vulnerable() {
                    self
                } else if reduced(e.health(), damage) == 0 {
                    self.dropped(i)
                } else {
                    self.replaced(i, e.with_health(reduced(e.health(), damage)))
                }
            },
            None => self,
        }
    }

    /// The world after one event has been carried out.
    pub open spec fn applied(self, event: Event, rules: Rules) -> World {
        match event {
            Event::Hit { projectile, target, damage } => self.without(projectile).hurt(
                target,
                damage,
            ),
            Event::Escaped { projectile } => self.without(projectile),
            Event::Destroyed { entity, at, half } => self.without(entity).spawned(
                at,
                half,
                Team::Neutral,
                blast(rules),
            ),
        }
    }

    /// The world after all events have been carried out, in order.
    pub open spec fn applied_all(self, events: Seq<Event>, rules: Rules) -> World
        decreases events.len(),
    {
        if events.len() == 0 {
            self
        } else {
            self.applied_all(events.drop_last(), rules).applied(events.last(), rules)
        }
    }
}

/// Steering changes nothing but a character's velocity and facing.
pub proof fn lemma_steered(e: Entity, heading: Option<Direction>, speed: u16)
    ensures
        steered(e, heading, speed).id == e.id,
        steered(e, heading, speed).pos == e.pos,
        steered(e, heading, speed).prev == e.prev,
        steered(e, heading, speed).half == e.half,
        steered(e, heading, speed).team == e.team,
        steered(e, heading, speed).kind.live() == e.kind.live(),
        !e.is_character() ==> steered(e, heading, speed) == e,
{
}

/// Growing older keeps an entity legal and changes nothing but its timers.
pub proof fn lemma_aged(e: Entity)
    ensures
        aged(e) matches Some(a) ==> {
            &&& a.id == e.id
            &&& a.pos == e.pos
            &&& a.prev == e.prev
            &&& a.half == e.half
            &&& a.team == e.team
            &&& (e.kind.live() ==> a.kind.live())
            &&& (a.kind is Character <==> e.kind is Character)
            &&& (a.kind is Projectile <==> e.kind is Projectile)
            &&& (a.kind is Obstacle <==> e.kind is Obstacle)
            &&& (a.kind is Explosion <==> e.kind is Explosion)
            &&& a.health() == e.health()
        },
        aged(e) is None ==> e.kind is Projectile || e.kind is Explosion,
{
}

/// The followed intent leaves the world well-formed.
pub proof fn lemma_obeyed_wf(w: World, intent: Intent, rules: Rules)
    requires
        w.wf(),
    ensures
        w.obeyed(intent, rules).wf(),
        w.obeyed(intent, rules).arena == w.arena,
{
    let id = intent.character;
    lemma_lookup_id(w, id);
    let s = w.steering(id, intent.heading, rules.character_speed);
    match w.locate(id) {
        Some(i) => {
            lemma_replaced_wf(w, i, steered(w.entities[i], intent.heading, rules.character_speed));
        },
        None => {},
    }
    if intent.fire && s.fires(id, rules) {
        lemma_lookup_id(s, id);
        let i = s.locate(id)->0;
        let e = s.entities[i];
        let mid = s.spawned(s.muzzle(e, rules), rules.projectile_half, e.team, shot(e, rules));
        lemma_spawned_wf(s, s.muzzle(e, rules), rules.projectile_half, e.team, shot(e, rules));
        lemma_replaced_wf(mid, i, reloaded(e, rules));
    }
}

/// Following intents leaves the world well-formed.
pub proof fn lemma_obeyed_all_wf(w: World, intents: Seq<Intent>, rules: Rules)
    requires
        w.wf(),
    ensures
        w.obeyed_all(intents, rules).wf(),
        w.obeyed_all(intents, rules).arena == w.arena,
    decreases intents.len(),
{
    if intents.len() > 0 {
        lemma_obeyed_all_wf(w, intents.drop_last(), rules);
        lemma_obeyed_wf(w.obeyed_all(intents.drop_last(), rules), intents.last(), rules);
    }
}

/// Every survivor stems from an entity of `s`: the survivor at `k` is the
/// aged form of the entity at the position returned.
pub proof fn lemma_survivors(s: Seq<Entity>, k: int) -> (j: int)
    requires
        0 <= k < survivors(s).len(),
    ensures
        0 <= j < s.len(),
        aged(s[j]) == Some(survivors(s)[k]),
    decreases s.len(),
{
    let rest = survivors(s.drop_last());
    if aged(s.last()) is Some && k == rest.len() {
        s.len() - 1
    } else {
        let j = lemma_survivors(s.drop_last(), k);
        assert(s.drop_last()[j] == s[j]);
        j
    }
}

/// Survivors keep the order of their identifiers.
pub proof fn lemma_survivors_ascending(s: Seq<Entity>)
    requires
        ascending(s),
    ensures
        ascending(survivors(s)),
    decreases s.len(),
{
    if s.len() > 0 {
        let front = s.drop_last();
        let rest = survivors(front);
        assert forall|i: int, j: int| 0 <= i < j < front.len() implies front[i].id
            < front[j].id by {
            assert(s[i].id < s[j].id);
        }
        lemma_survivors_ascending(front);
        match aged(s.last()) {
            Some(e) => {
                lemma_aged(s.last());
                let all = rest.push(e);
                assert forall|a: int, b: int| 0 <= a < b < all.len() implies all[a].id
                    < all[b].id by {
                    if b < rest.len() {
                        assert(rest[a].id < rest[b].id);
                    } else {
                        let j = lemma_survivors(front, a);
                        lemma_aged(front[j]);
                        assert(s[j].id < s[s.len() - 1].id);
                    }
                }
            },
            None => {},
        }
    }
}

/// An entity that outlives the tick is among the survivors.
pub proof fn lemma_survives(s: Seq<Entity>, j: int) -> (k: int)
    requires
        0 <= j < s.len(),
        aged(s[j]) is Some,
    ensures
        0 <= k < survivors(s).len(),
        survivors(s)[k] == aged(s[j])->0,
    decreases s.len(),
{
    let rest = survivors(s.drop_last());
    if j == s.len() - 1 {
        rest.len() as int
    } else {
        let k = lemma_survives(s.drop_last(), j);
        assert(s.drop_last()[j] == s[j]);
        k
    }
}

/// The world one tick older is well-formed.
pub proof fn lemma_matured_wf(w: World)
    requires
        w.wf(),
    ensures
        w.matured().wf(),
{
    let r = w.matured();
    let s = w.entities;
    lemma_survivors_ascending(s);
    assert forall|a: int| 0 <= a < r.entities.len() implies (#[trigger] r.entities[a]).legal(
        r.arena,
    ) && r.entities[a].id < r.next_id by {
        let j = lemma_survivors(s, a);
        lemma_aged(s[j]);
        assert(s[j].legal(w.arena));
    }
}

/// Taking damage leaves the world well-formed.
pub proof fn lemma_hurt_wf(w: World, id: u64, damage: u32)
    requires
        w.wf(),
    ensures
        w.hurt(id, damage).wf(),
        w.hurt(id, damage).arena == w.arena,
{
    lemma_lookup_id(w, id);
    match w.locate(id) {
        Some(i) => {
            let e = w.entities[i];
            lemma_dropped_wf(w, i);
            lemma_replaced_wf(w, i, e.with_health(reduced(e.health(), damage)));
        },
        None => {},
    }
}

/// Carrying out an event leaves the world well-formed.
pub proof fn lemma_applied_wf(w: World, event: Event, rules: Rules)
    requires
        w.wf(),
    ensures
        w.applied(event, rules).wf(),
        w.applied(event, rules).arena == w.arena,
{
    match event {
        Event::Hit { projectile, target, damage } => {
            lemma_without_wf(w, projectile);
            lemma_hurt_wf(w.without(projectile), target, damage);
        },
        Event::Escaped { projectile } => {
            lemma_without_wf(w, projectile);
        },
        Event::Destroyed { entity, at, half } => {
            lemma_without_wf(w, entity);
            lemma_spawned_wf(w.without(entity), at, half, Team::Neutral, blast(rules));
        },
    }
}

/// Carrying out events leaves the world well-formed.
pub proof fn lemma_applied_all_wf(w: World, events: Seq<Event>, rules: Rules)
    requires
        w.wf(),
    ensures
        w.applied_all(events, rules).wf(),
        w.applied_all(events, rules).arena == w.arena,
    decreases events.len(),
{
    if events.len() > 0 {
        lemma_applied_all_wf(w, events.drop_last(), rules);
        lemma_applied_wf(w.applied_all(events.drop_last(), rules), events.last(), rules);
    }
}

/// After aging every entity that outlives the tick is found under its
/// identifier, one tick older, and no other entity is found.
pub proof fn lemma_lookup_matured(w: World, id: u64)
    requires
        w.wf(),
    ensures
        w.matured().lookup(id) == match w.lookup(id) {
            Some(e) => aged(e),
            None => None,
        },
{
    let r = w.matured();
    let s = w.entities;
    lemma_survivors_ascending(s);
    lemma_lookup_id(w, id);
    let found = match w.locate(id) {
        Some(j) => aged(s[j]) is Some,
        None => false,
    };
    if found {
        let j = w.locate(id)->0;
        lemma_aged(s[j]);
        let k = lemma_survives(s, j);
        lemma_locate(r, k);
    } else {
        assert forall|k: int| 0 <= k < r.entities.len() implies r.entities[k].id != id by {
            let j = lemma_survivors(s, k);
            lemma_aged(s[j]);
            if r.entities[k].id == id {
                lemma_locate(w, j);
            }
        }
        crate::registry::lemma_lookup_none(r, id);
    }
}

/// What can be looked up after the entity `target` has taken damage: the
/// target with its health reduced, or nothing if no health is left, and every
/// other entity as before.
pub proof fn lemma_lookup_hurt(w: World, target: u64, damage: u32, id: u64)
    requires
        w.wf(),
    ensures
        w.hurt(target, damage).lookup(id) == if id != target {
            w.lookup(id)
        } else {
            match w.lookup(target) {
                Some(e) => if !e.vulnerable() {
                    Some(e)
                } else if reduced(e.health(), damage) == 0 {
                    None
                } else {
                    Some(e.with_health(reduced(e.health(), damage)))
                },
                None => None,
            }
        },
{
    lemma_lookup_id(w, target);
    match w.locate(target) {
        Some(i) => {
            let e = w.entities[i];
            assert(e.legal(w.arena));
            crate::registry::lemma_lookup_dropped(w, i, id);
            crate::registry::lemma_lookup_replaced(
                w,
                i,
                e.with_health(reduced(e.health(), damage)),
                id,
            );
        },
        None => {},
    }
}

/// An event that spares an entity leaves it where and as it was.
pub proof fn lemma_applied_spares(w: World, event: Event, rules: Rules, id: u64)
    requires
        w.wf(),
        id < w.next_id,
        spares(event, id),
    ensures
        w.applied(event, rules).lookup(id) == w.lookup(id),
        w.applied(event, rules).next_id >= w.next_id,
{
    match event {
        Event::Hit { projectile, target, damage } => {
            let mid = w.without(projectile);
            lemma_without_wf(w, projectile);
            crate::registry::lemma_lookup_without(w, projectile, id);
            lemma_lookup_hurt(mid, target, damage, id);
            lemma_lookup_id(mid, target);
            if id == target {
                match mid.locate(target) {
                    Some(i) => {
                        let e = mid.entities[i];
                        assert(e.legal(mid.arena));
                        assert(e.with_health(e.health()) == e);
                    },
                    None => {},
                }
            }
        },
        Event::Escaped { projectile } => {
            crate::registry::lemma_lookup_without(w, projectile, id);
        },
        Event::Destroyed { entity, at, half } => {
            let mid = w.without(entity);
            lemma_without_wf(w, entity);
            crate::registry::lemma_lookup_without(w, entity, id);
            crate::registry::lemma_lookup_spawned(mid, at, half, Team::Neutral, blast(rules), id);
        },
    }
}

/// Events that all spare an entity leave it where and as it was.
pub proof fn lemma_applied_all_spares(w: World, events: Seq<Event>, rules: Rules, id: u64)
    requires
        w.wf(),
        id < w.next_id,
        forall|k: int| 0 <= k < events.len() ==> spares(#[trigger] events[k], id),
    ensures
        w.applied_all(events, rules).lookup(id) == w.lookup(id),
        w.applied_all(events, rules).next_id >= w.next_id,
    decreases events.len(),
{
    if events.len() > 0 {
        let front = events.drop_last();
        assert forall|k: int| 0 <= k < front.len() implies spares(#[trigger] front[k], id) by {
            assert(front[k] == events[k]);
        }
        lemma_applied_all_spares(w, front, rules, id);
        lemma_applied_all_wf(w, front, rules);
        assert(spares(events[events.len() - 1], id));
        lemma_applied_spares(w.applied_all(front, rules), events.last(), rules, id);
    }
}

/// What an attack request does. A character whose cooldown has not elapsed
/// fires nothing. One whose cooldown has elapsed fires whenever a projectile
/// can be spawned: then it starts to reload, and the projectile appears as
/// the newest entity, in the character's team, at the character's position
/// offset in the direction it faces, or as near to there as the arena allows.
pub proof fn lemma_attacked(w: World, id: u64, rules: Rules, e: Entity)
    requires
        w.wf(),
        w.lookup(id) == Some(e),
        e.is_character(),
    ensures
        ({
            let c = e.kind->Character_0;
            let after = w.attacked(id, rules);
            let x = e.pos.x + c.facing.dx() * rules.muzzle_offset;
            let y = e.pos.y + c.facing.dy() * rules.muzzle_offset;
            &&& w.fires(id, rules) <==> c.cooldown == 0 && w.next_id < u64::MAX
                && rules.projectile_lifetime > 0 && w.arena.admits(rules.projectile_half)
            &&& !w.fires(id, rules) ==> after == w
            &&& w.fires(id, rules) ==> {
                &&& after.entities.len() == w.entities.len() + 1
                &&& after.next_id == w.next_id + 1
                &&& after.lookup(id) == Some(reloaded(e, rules))
                &&& after.lookup(w.next_id) == Some(
                    Entity {
                        id: w.next_id,
                        pos: w.muzzle(e, rules),
                        prev: w.muzzle(e, rules),
                        half: rules.projectile_half,
                        team: e.team,
                        kind: shot(e, rules),
                    },
                )
                &&& w.arena.min.x + rules.projectile_half.x <= x <= w.arena.max.x
                    - rules.projectile_half.x && w.arena.min.y + rules.projectile_half.y <= y
                    <= w.arena.max.y - rules.projectile_half.y ==> w.muzzle(e, rules).x == x
                    && w.muzzle(e, rules).y == y
            }
        }),
{
    lemma_lookup_id(w, id);
    if w.fires(id, rules) {
        let c = e.kind->Character_0;
        let i = w.locate(id)->0;
        let muzzle = w.muzzle(e, rules);
        lemma_nearest(
            w.arena,
            e.pos.x + c.facing.dx() * rules.muzzle_offset,
            e.pos.y + c.facing.dy() * rules.muzzle_offset,
            rules.projectile_half,
        );
        lemma_nearest(w.arena, muzzle.x as int, muzzle.y as int, rules.projectile_half);
        let mid = w.spawned(muzzle, rules.projectile_half, e.team, shot(e, rules));
        lemma_spawned_wf(w, muzzle, rules.projectile_half, e.team, shot(e, rules));
        crate::registry::lemma_lookup_spawned(
            w,
            muzzle,
            rules.projectile_half,
            e.team,
            shot(e, rules),
            w.next_id,
        );
        assert(mid.entities[i] == e);
        assert(e.legal(w.arena));
        crate::registry::lemma_lookup_replaced(mid, i, reloaded(e, rules), id);
        crate::registry::lemma_lookup_replaced(mid, i, reloaded(e, rules), w.next_id);
    }
}

/// Carrying out two lists of events one after the other is carrying out
/// their concatenation.
pub proof fn lemma_applied_all_concat(w: World, a: Seq<Event>, b: Seq<Event>, rules: Rules)
    ensures
        w.applied_all(a + b, rules) == w.applied_all(a, rules).applied_all(b, rules),
    decreases b.len(),
{
    if b.len() == 0 {
        assert(a + b =~= a);
    } else {
        lemma_applied_all_concat(w, a, b.drop_last(), rules);
        assert((a + b).drop_last() =~= a + b.drop_last());
        assert((a + b).last() == b.last());
    }
}

/// Carrying out a list of one or two events, spelled out.
pub proof fn lemma_applied_few(w: World, first: Event, second: Event, rules: Rules)
    ensures
        w.applied_all(seq![first], rules) == w.applied(first, rules),
        w.applied_all(seq![first, second], rules) == w.applied(first, rules).applied(
            second,
            rules,
        ),
{
    let one = seq![first];
    let two = seq![first, second];
    assert(one.drop_last() =~= Seq::<Event>::empty());
    assert(w.applied_all(one.drop_last(), rules) == w);
    assert(one.last() == first);
    assert(w.applied_all(one, rules) == w.applied(first, rules));
    assert(two.drop_last() =~= one);
    assert(two.last() == second);
    assert(w.applied_all(two, rules) == w.applied_all(two.drop_last(), rules).applied(
        two.last(),
        rules,
    ));
}

/// Carrying out events uses up at most one identifier per event.
pub proof fn lemma_applied_all_ids(w: World, events: Seq<Event>, rules: Rules)
    ensures
        w.next_id <= w.applied_all(events, rules).next_id <= w.next_id + events.len(),
    decreases events.len(),
{
    if events.len() > 0 {
        lemma_applied_all_ids(w, events.drop_last(), rules);
    }
}

/// The entity `r` is the entity `e` up to what intents can change: the
/// velocity, the facing and the cooldown of a character.
pub open spec fn kept(e: Entity, r: Entity) -> bool {
    &&& r.id == e.id
    &&& r.pos == e.pos
    &&& r.prev == e.prev
    &&& r.half == e.half
    &&& r.team == e.team
    &&& match e.kind {
        Kind::Character(c) => {
            &&& r.kind matches Kind::Character(d)
            &&& d.health == c.health
            &&& d.shield_active == c.shield_active
            &&& d.shield_timer == c.shield_timer
        },
        _ => r.kind == e.kind,
    }
}

/// Following an intent changes nothing about the entities that were there
/// but the velocity, the facing and the cooldown of characters.
pub proof fn lemma_obeyed_keeps(w: World, intent: Intent, rules: Rules, id: u64, e: Entity)
    requires
        w.wf(),
        w.lookup(id) == Some(e),
    ensures
        w.obeyed(intent, rules).lookup(id) matches Some(r) && kept(e, r),
{
    let who = intent.character;
    lemma_lookup_id(w, who);
    lemma_lookup_id(w, id);
    let s = w.steering(who, intent.heading, rules.character_speed);
    match w.locate(who) {
        Some(i) => {
            lemma_steered(w.entities[i], intent.heading, rules.character_speed);
            lemma_locate(w, i);
            assert(w.entities[i].legal(w.arena));
            crate::registry::lemma_lookup_replaced(
                w,
                i,
                steered(w.entities[i], intent.heading, rules.character_speed),
                id,
            );
            lemma_replaced_wf(w, i, steered(w.entities[i], intent.heading, rules.character_speed));
        },
        None => {},
    }
    let m = s.lookup(id)->0;
    assert(kept(e, m));
    if intent.fire && s.fires(who, rules) {
        lemma_lookup_id(s, who);
        let i = s.locate(who)->0;
        let shooter = s.entities[i];
        lemma_locate(s, i);
        let mid = s.spawned(
            s.muzzle(shooter, rules),
            rules.projectile_half,
            shooter.team,
            shot(shooter, rules),
        );
        lemma_spawned_wf(
            s,
            s.muzzle(shooter, rules),
            rules.projectile_half,
            shooter.team,
            shot(shooter, rules),
        );
        crate::registry::lemma_lookup_spawned(
            s,
            s.muzzle(shooter, rules),
            rules.projectile_half,
            shooter.team,
            shot(shooter, rules),
            id,
        );
        lemma_lookup_id(s, id);
        assert(mid.entities[i] == shooter);
        assert(shooter.legal(s.arena));
        crate::registry::lemma_lookup_replaced(mid, i, reloaded(shooter, rules), id);
    }
}

/// Following intents changes nothing about the entities that were there but
/// the velocity, the facing and the cooldown of characters.
pub proof fn lemma_obeyed_all_keeps(
    w: World,
    intents: Seq<Intent>,
    rules: Rules,
    id: u64,
    e: Entity,
)
    requires
        w.wf(),
        w.lookup(id) == Some(e),
    ensures
        w.obeyed_all(intents, rules).lookup(id) matches Some(r) && kept(e, r),
    decreases intents.len(),
{
    if intents.len() > 0 {
        lemma_obeyed_all_keeps(w, intents.drop_last(), rules, id, e);
        lemma_obeyed_all_wf(w, intents.drop_last(), rules);
        let mid = w.obeyed_all(intents.drop_last(), rules);
        let m = mid.lookup(id)->0;
        lemma_obeyed_keeps(mid, intents.last(), rules, id, m);
    }
}

/// Where an entity found after an intent has been followed comes from: it
/// was there before, the same up to what intents can change, or it is a
/// projectile that has just been fired.
pub proof fn lemma_obeyed_origin(w: World, intent: Intent, rules: Rules, id: u64)
    requires
        w.wf(),
    ensures
        w.obeyed(intent, rules).lookup(id) matches Some(r) ==> match w.lookup(id) {
            Some(e) => kept(e, r),
            None => r.is_projectile(),
        },
{
    match w.lookup(id) {
        Some(e) => {
            lemma_obeyed_keeps(w, intent, rules, id, e);
        },
        None => {
            let who = intent.character;
            lemma_lookup_id(w, who);
            lemma_lookup_id(w, id);
            let s = w.steering(who, intent.heading, rules.character_speed);
            match w.locate(who) {
                Some(i) => {
                    let turned = steered(w.entities[i], intent.heading, rules.character_speed);
                    lemma_steered(w.entities[i], intent.heading, rules.character_speed);
                    crate::registry::lemma_lookup_replaced(w, i, turned, id);
                    lemma_replaced_wf(w, i, turned);
                },
                None => {},
            }
            if intent.fire && s.fires(who, rules) {
                lemma_lookup_id(s, who);
                let i = s.locate(who)->0;
                let shooter = s.entities[i];
                let muzzle = s.muzzle(shooter, rules);
                let mid = s.spawned(muzzle, rules.projectile_half, shooter.team, shot(shooter, rules));
                lemma_spawned_wf(s, muzzle, rules.projectile_half, shooter.team, shot(shooter, rules));
                crate::registry::lemma_lookup_spawned(
                    s,
                    muzzle,
                    rules.projectile_half,
                    shooter.team,
                    shot(shooter, rules),
                    id,
                );
                crate::registry::lemma_lookup_replaced(mid, i, reloaded(shooter, rules), id);
            }
        },
    }
}

/// Where an entity found after intents have been followed comes from.
pub proof fn lemma_obeyed_all_origin(w: World, intents: Seq<Intent>, rules: Rules, id: u64)
    requires
        w.wf(),
    ensures
        w.obeyed_all(intents, rules).lookup(id) matches Some(r) ==> match w.lookup(id) {
            Some(e) => kept(e, r),
            None => r.is_projectile(),
        },
    decreases intents.len(),
{
    if intents.len() > 0 {
        let mid = w.obeyed_all(intents.drop_last(), rules);
        lemma_obeyed_all_origin(w, intents.drop_last(), rules, id);
        lemma_obeyed_all_wf(w, intents.drop_last(), rules);
        lemma_obeyed_origin(mid, intents.last(), rules, id);
        match w.lookup(id) {
            Some(e) => {
                lemma_obeyed_all_keeps(w, intents, rules, id, e);
            },
            None => {
                if mid.lookup(id) is Some {
                    lemma_obeyed_keeps(mid, intents.last(), rules, id, mid.lookup(id)->0);
                }
            },
        }
    }
}

/// Where an entity found after an event has been carried out comes from:
/// it was there before, the same but perhaps for its health, or it is an
/// explosion that has just appeared.
pub proof fn lemma_applied_origin(w: World, event: Event, rules: Rules, id: u64)
    requires
        w.wf(),
    ensures
        w.applied(event, rules).lookup(id) matches Some(r) ==> match w.lookup(id) {
            Some(e) => r == e.with_health(r.health()),
            None => r.is_explosion(),
        },
{
    lemma_lookup_id(w, id);
    if w.lookup(id) is Some {
        let e = w.lookup(id)->0;
        assert(e.legal(w.arena));
        assert(e.with_health(e.health()) == e);
    }
    match event {
        Event::Hit { projectile, target, damage } => {
            let mid = w.without(projectile);
            lemma_without_wf(w, projectile);
            crate::registry::lemma_lookup_without(w, projectile, id);
            lemma_lookup_hurt(mid, target, damage, id);
        },
        Event::Escaped { projectile } => {
            crate::registry::lemma_lookup_without(w, projectile, id);
        },
        Event::Destroyed { entity, at, half } => {
            let mid = w.without(entity);
            lemma_without_wf(w, entity);
            crate::registry::lemma_lookup_without(w, entity, id);
            crate::registry::lemma_lookup_spawned(mid, at, half, Team::Neutral, blast(rules), id);
        },
    }
}

/// Where an entity found after events have been carried out comes from.
pub proof fn lemma_applied_all_origin(w: World, events: Seq<Event>, rules: Rules, id: u64)
    requires
        w.wf(),
    ensures
        w.applied_all(events, rules).lookup(id) matches Some(r) ==> match w.lookup(id) {
            Some(e) => r == e.with_health(r.health()),
            None => r.is_explosion(),
        },
    decreases events.len(),
{
    lemma_lookup_id(w, id);
    if w.lookup(id) is Some {
        let e = w.lookup(id)->0;
        assert(e.legal(w.arena));
        assert(e.with_health(e.health()) == e);
    }
    if events.len() > 0 {
        let mid = w.applied_all(events.drop_last(), rules);
        lemma_applied_all_origin(w, events.drop_last(), rules, id);
        lemma_applied_all_wf(w, events.drop_last(), rules);
        lemma_applied_origin(mid, events.last(), rules, id);
        lemma_applied_all_ids(w, events.drop_last(), rules);
        if w.lookup(id) is Some && mid.lookup(id) is None {
            // Once removed, an identifier is never handed out again.
            let e = w.lookup(id)->0;
            assert(id < w.next_id);
            match events.last() {
                Event::Hit { projectile, target, damage } => {
                    let gone = mid.without(projectile);
                    lemma_without_wf(mid, projectile);
                    crate::registry::lemma_lookup_without(mid, projectile, id);
                    lemma_lookup_hurt(gone, target, damage, id);
                },
                Event::Escaped { projectile } => {
                    crate::registry::lemma_lookup_without(mid, projectile, id);
                },
                Event::Destroyed { entity, at, half } => {
                    let gone = mid.without(entity);
                    lemma_without_wf(mid, entity);
                    crate::registry::lemma_lookup_without(mid, entity, id);
                    crate::registry::lemma_lookup_spawned(
                        gone,
                        at,
                        half,
                        Team::Neutral,
                        blast(rules),
                        id,
                    );
                },
            }
        }
    }
}

/// Ages one entity by one tick.
pub fn age_entity(e: &Entity) -> (r: Option<Entity>)
    ensures
        r == aged(*e),
{
    match e.kind {
        Kind::Character(c) => {
            let shield_timer: u32 = if c.shield_active && c.shield_timer > 0 {
                c.shield_timer - 1
            } else {
                c.shield_timer
            };
            let cooldown: u32 = if c.cooldown > 0 {
                c.cooldown - 1
            } else {
                0
            };
            Some(
                Entity {
                    kind: Kind::Character(
                        Character {
                            shield_timer,
                            shield_active: c.shield_active && shield_timer > 0,
                            cooldown,
                            ..c
                        },
                    ),
                    ..*e
                },
            )
        },
        Kind::Projectile(p) => if p.lifetime > 1 {
            Some(
                Entity {
                    kind: Kind::Projectile(Projectile { lifetime: p.lifetime - 1, ..p }),
                    ..*e
                },
            )
        } else {
            None
        },
        Kind::Obstacle(_) => Some(*e),
        Kind::Explosion(x) => if x.elapsed < u32::MAX && x.elapsed + 1 < x.duration {
            Some(Entity { kind: Kind::Explosion(Explosion { elapsed: x.elapsed + 1, ..x }), ..*e })
        } else {
            None
        },
    }
}

impl Registry {
    /// Turns the character `id` towards `heading` and sets it in motion at
    /// `speed`, or stops it if there is no heading. Reports whether `id` is
    /// a character.
    pub fn steer(&mut self, id: u64, heading: Option<Direction>, speed: u16) -> (done: bool)
        requires
            old(self).wf(),
        ensures
            final(self).wf(),
            final(self)@ == old(self)@.steering(id, heading, speed),
            final(self)@.arena == old(self)@.arena,
            done == (old(self)@.lookup(id) matches Some(e) && e.is_character()),
    {
        let i = match self.find(id) {
            Some(i) => i,
            None => {
                return false;
            },
        };
        let e = self.entity_at(i).unwrap();
        proof {
            lemma_steered(e, heading, speed);
            assert(e.legal(self@.arena));
        }
        match e.kind {
            Kind::Character(c) => {
                let character = match heading {
                    Some(d) => Character { velocity: d.scaled(speed), facing: d, ..c },
                    None => Character { velocity: Point { x: 0, y: 0 }, ..c },
                };
                self.replace(i, Entity { kind: Kind::Character(character), ..e });
                true
            },
            _ => {
                proof {
                    assert(self@.entities.update(i as int, e) =~= self@.entities);
                }
                false
            },
        }
    }

    /// Lets the character `id` attack. If its cooldown has elapsed, one
    /// projectile appears in front of it and the cooldown starts again; the
    /// identifier of the projectile is returned. Otherwise nothing happens.
    pub fn attack(&mut self, id: u64, rules: &Rules) -> (fired: Option<u64>)
        requires
            old(self).wf(),
        ensures
            final(self).wf(),
            final(self)@ == old(self)@.attacked(id, *rules),
            final(self)@.arena == old(self)@.arena,
            fired == if old(self)@.fires(id, *rules) {
                Some(old(self)@.next_id)
            } else {
                None
            },
    {
        let i = match self.find(id) {
            Some(i) => i,
            None => {
                return None;
            },
        };
        let e = self.entity_at(i).unwrap();
        let c = match e.kind {
            Kind::Character(c) => c,
            _ => {
                return None;
            },
        };
        let arena = self.arena();
        if c.cooldown != 0 || !arena.can_admit(rules.projectile_half) {
            return None;
        }
        let offset = c.facing.scaled(rules.muzzle_offset);
        let muzzle = arena.clamp(
            e.pos.x as i64 + offset.x as i64,
            e.pos.y as i64 + offset.y as i64,
            rules.projectile_half,
        );
        let bullet = Kind::Projectile(
            Projectile {
                velocity: c.facing.scaled(rules.projectile_speed),
                owner: e.id,
                lifetime: rules.projectile_lifetime,
                damage: rules.projectile_damage,
            },
        );
        proof {
            assert(e.legal(self@.arena));
        }
        match self.spawn(muzzle, rules.projectile_half, e.team, bullet) {
            Some(shot_id) => {
                let shooter = Character { cooldown: rules.reload_ticks, ..c };
                self.replace(i, Entity { kind: Kind::Character(shooter), ..e });
                Some(shot_id)
            },
            None => None,
        }
    }

    /// Follows the intents in order: each character addressed is steered and
    /// then attacks if asked to.
    pub fn command(&mut self, intents: &Vec<Intent>, rules: &Rules)
        requires
            old(self).wf(),
        ensures
            final(self).wf(),
            final(self)@ == old(self)@.obeyed_all(intents@, *rules),
            final(self)@.arena == old(self)@.arena,
    {
        let ghost before = self@;
        let mut k: usize = 0;
        while k < intents.len()
            invariant
                k <= intents.len(),
                self.wf(),
                self@ == before.obeyed_all(intents@.take(k as int), *rules),
                self@.arena == before.arena,
            decreases intents.len() - k,
        {
            let intent = intents[k];
            proof {
                assert(intents@.take(k as int + 1).drop_last() =~= intents@.take(k as int));
            }
            self.steer(intent.character, intent.heading, rules.character_speed);
            if intent.fire {
                self.attack(intent.character, rules);
            }
            k += 1;
        }
        proof {
            assert(intents@.take(k as int) =~= intents@);
        }
    }

    /// Ages every entity by one tick and removes those whose time has run
    /// out: expired projectiles and finished explosions.
    pub fn mature(&mut self)
        requires
            old(self).wf(),
        ensures
            final(self).wf(),
            final(self)@ == old(self)@.matured(),
            final(self)@.arena == old(self)@.arena,
    {
        let ghost before = self@;
        let ghost mut seen: int = 0;
        let mut i: usize = 0;
        while i < self.len()
            invariant
                before.wf(),
                self.wf(),
                self@.arena == before.arena,
                self@.next_id == before.next_id,
                0 <= seen <= before.entities.len(),
                i == survivors(before.entities.take(seen)).len(),
                self@.entities =~= survivors(before.entities.take(seen)) + before.entities.skip(
                    seen,
                ),
            decreases before.entities.len() - seen,
        {
            let e = self.entity_at(i).unwrap();
            proof {
                assert(e == before.entities[seen]);
                assert(before.entities.take(seen + 1).drop_last() =~= before.entities.take(seen));
                assert(e.legal(before.arena));
                lemma_aged(e);
            }
            match age_entity(&e) {
                Some(older) => {
                    self.replace(i, older);
                    i += 1;
                },
                None => {
                    self.remove_at(i);
                },
            }
            proof {
                seen = seen + 1;
            }
        }
        proof {
            assert(before.entities.take(seen) =~= before.entities);
        }
    }

    /// Takes `damage` from the health of the entity `id` and removes it if
    /// none is left. Returns the health that remains, or `None` if `id` is
    /// not an entity that can be hurt.
    pub fn hurt(&mut self, id: u64, damage: u32) -> (left: Option<u32>)
        requires
            old(self).wf(),
        ensures
            final(self).wf(),
            final(self)@ == old(self)@.hurt(id, damage),
            final(self)@.arena == old(self)@.arena,
            left == match old(self)@.lookup(id) {
                Some(e) => if e.vulnerable() {
                    Some(reduced(e.health(), damage))
                } else {
                    None
                },
                None => None,
            },
    {
        let i = match self.find(id) {
            Some(i) => i,
            None => {
                return None;
            },
        };
        let e = self.entity_at(i).unwrap();
        if !e.can_be_hurt() {
            return None;
        }
        let health = e.current_health().saturating_sub(damage);
        proof {
            assert(e.legal(self@.arena));
        }
        if health == 0 {
            self.remove_at(i);
        } else {
            self.replace(i, e.set_health(health));
        }
        Some(health)
    }

    /// Carries out one event of the collision resolver.
    pub fn apply(&mut self, event: &Event, rules: &Rules)
        requires
            old(self).wf(),
        ensures
            final(self).wf(),
            final(self)@ == old(self)@.applied(*event, *rules),
            final(self)@.arena == old(self)@.arena,
    {
        match *event {
            Event::Hit { projectile, target, damage } => {
                self.remove(projectile);
                self.hurt(target, damage);
            },
            Event::Escaped { projectile } => {
                self.remove(projectile);
            },
            Event::Destroyed { entity, at, half } => {
                self.remove(entity);
                self.spawn(
                    at,
                    half,
                    Team::Neutral,
                    Kind::Explosion(Explosion { elapsed: 0, duration: rules.explosion_duration }),
                );
            },
        }
    }

    /// Carries out the events of the collision resolver, in order.
    pub fn apply_all(&mut self, events: &Vec<Event>, rules: &Rules)
        requires
            old(self).wf(),
        ensures
            final(self).wf(),
            final(self)@ == old(self)@.applied_all(events@, *rules),
            final(self)@.arena == old(self)@.arena,
    {
        let ghost before = self@;
        let mut k: usize = 0;
        while k < events.len()
            invariant
                k <= events.len(),
                self.wf(),
                self@ == before.applied_all(events@.take(k as int), *rules),
                self@.arena == before.arena,
            decreases events.len() - k,
        {
            proof {
                assert(events@.take(k as int + 1).drop_last() =~= events@.take(k as int));
            }
            self.apply(&events[k], rules);
            k += 1;
        }
        proof {
            assert(events@.take(k as int) =~= events@);
        }
    }
}

} // verus!
