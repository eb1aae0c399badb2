//! The collision resolver.
//!
//! After movement the resolver first settles characters that ran into an
//! obstacle, then pairs every projectile with at most one target and reports
//! what follows as a list of events. It never adds or removes an entity:
//! that is left to the lifecycle manager, which consumes the events.
//!
//! Characters pass through one another; only obstacles block them.

use crate::entity::{Entity, Kind, Material};
use crate::geometry::{boxes_overlap, overlaps, Point};
use crate::registry::{ascending, Registry, World};
use vstd::prelude::*;

verus! {

/// What the resolver found out during one tick.
#[derive(Clone, Copy, Debug, PartialEq, Eq, Structural)]
pub enum Event {
    /// The projectile struck the target and is spent. `damage` is what the
    /// target loses: nothing if it is shielded or indestructible.
    Hit { projectile: u64, target: u64, damage: u32 },
    /// The projectile reached the edge of the arena and is spent.
    Escaped { projectile: u64 },
    /// The preceding hit took the last health of the entity, whose box was
    /// centred at `at` with half extents `half`.
    Destroyed { entity: u64, at: Point, half: Point },
}

/// The projectile `p` and the entity `t` form a pair that collides: their
/// boxes overlap, and `t` is an obstacle or a character of another team.
pub open spec fn can_strike(p: Entity, t: Entity) -> bool {
    &&& p.is_projectile()
    &&& t.is_obstacle() || (t.is_character() && t.team != p.team)
    &&& boxes_overlap(p.pos, p.half, t.pos, t.half)
}

/// What the target `t` loses when the projectile `p` strikes it: the
/// projectile's damage, unless `t` is shielded or cannot be hurt.
pub open spec fn harm(p: Entity, t: Entity) -> u32 {
    let damage = match p.kind {
        Kind::Projectile(shot) => shot.damage,
        _ => 0,
    };
    match t.kind {
        Kind::Character(c) => if c.shield_active {
            0
        } else {
            damage
        },
        Kind::Obstacle(o) => if o.material == Material::Breakable {
            damage
        } else {
            0
        },
        _ => 0,
    }
}

/// Health after damage: the difference, but never below zero.
pub open spec fn reduced(health: u32, damage: u32) -> u32 {
    if damage >= health {
        0
    } else {
        (health - damage) as u32
    }
}

impl World {
    /// The box centred at `pos` overlaps some obstacle.
    pub open spec fn obstructed(self, pos: Point, half: Point) -> bool {
        exists|j: int|
            0 <= j < self.entities.len() && (#[trigger] self.entities[j]).is_obstacle()
                && boxes_overlap(pos, half, self.entities[j].pos, self.entities[j].half)
    }

    /// Where an entity that moved from `e.prev` to `e.pos` comes to rest. If
    /// it overlaps an obstacle where it is, the move is taken back along one
    /// axis: first the horizontal part, then the vertical part instead, and
    /// if neither frees it, the whole move.
    pub open spec fn resting_place(self, e: Entity) -> Point {
        let back_x = Point { x: e.prev.x, y: e.pos.y };
        let back_y = Point { x: e.pos.x, y: e.prev.y };
        if !self.obstructed(e.pos, e.half) {
            e.pos
        } else if !self.obstructed(back_x, e.half) {
            back_x
        } else if !self.obstructed(back_y, e.half) {
            back_y
        } else {
            e.prev
        }
    }

    /// A character is put at its resting place; other entities stay.
    pub open spec fn settled_entity(self, e: Entity) -> Entity {
        if e.is_character() {
            Entity { pos: self.resting_place(e), ..e }
        } else {
            e
        }
    }

    /// The world after every character has been settled.
    pub open spec fn settled(self) -> World {
        World { entities: self.entities.map_values(|e: Entity| self.settled_entity(e)), ..self }
    }

    /// Entity `j` is the oldest entity that projectile `i` can strike.
    pub open spec fn first_target(self, i: int, j: int) -> bool {
        &&& 0 <= i < self.entities.len()
        &&& 0 <= j < self.entities.len()
        &&& can_strike(self.entities[i], self.entities[j])
        &&& forall|k: int| 0 <= k < j ==> !can_strike(self.entities[i], #[trigger] self.entities[k])
    }

    /// The one target of projectile `i`: among all entities it can strike,
    /// the one with the lowest identifier.
    pub open spec fn target_of(self, i: int) -> Option<int> {
        if exists|j: int| self.first_target(i, j) {
            Some(choose|j: int| self.first_target(i, j))
        } else {
            None
        }
    }

    /// The health of entity `j` once the projectiles among the first `n`
    /// entities have struck.
    pub open spec fn health_left(self, j: int, n: int) -> u32
        decreases n,
    {
        if n <= 0 {
            self.entities[j].health()
        } else {
            let h = self.health_left(j, n - 1);
            if self.target_of(n - 1) == Some(j) {
                reduced(h, harm(self.entities[n - 1], self.entities[j]))
            } else {
                h
            }
        }
    }

    /// The events that entity `i` causes: none unless it is a projectile; a
    /// hit on its target, followed by the target's destruction if this hit
    /// takes its last health; or an escape if it strikes nothing and has
    /// reached the edge of the arena.
    pub open spec fn outcome(self, i: int) -> Seq<Event> {
        let p = self.entities[i];
        match self.target_of(i) {
            Some(j) => {
                let t = self.entities[j];
                let damage = harm(p, t);
                let before = self.health_left(j, i);
                let hit = Event::Hit { projectile: p.id, target: t.id, damage };
                if before > 0 && reduced(before, damage) == 0 {
                    seq![hit, Event::Destroyed { entity: t.id, at: t.pos, half: t.half }]
                } else {
                    seq![hit]
                }
            },
            None => if p.is_projectile() && self.arena.at_edge(p.pos, p.half) {
                seq![Event::Escaped { projectile: p.id }]
            } else {
                Seq::empty()
            },
        }
    }

    /// The events caused by the first `n` entities, oldest first.
    pub open spec fn events_among(self, n: int) -> Seq<Event>
        decreases n,
    {
        if n <= 0 {
            Seq::empty()
        } else {
            self.events_among(n - 1) + self.outcome(n - 1)
        }
    }

    /// All events of one tick, in the order of the projectiles' identifiers.
    pub open spec fn events(self) -> Seq<Event> {
        self.events_among(self.entities.len() as int)
    }
}

/// Settling keeps a well-formed world well-formed and changes nothing but
/// the positions of characters.
pub proof fn lemma_settled_entity(w: World, e: Entity)
    requires
        e.legal(w.arena),
    ensures
        w.settled_entity(e).legal(w.arena),
        w.settled_entity(e).id == e.id,
        w.settled_entity(e).prev == e.prev,
        w.settled_entity(e).half == e.half,
        w.settled_entity(e).team == e.team,
        w.settled_entity(e).kind == e.kind,
        !e.is_character() ==> w.settled_entity(e) == e,
{
}

/// A character that did not overlap an obstacle before it moved does not
/// overlap one after it has been settled.
pub proof fn lemma_settled_clear(w: World, e: Entity)
    requires
        !w.obstructed(e.prev, e.half),
    ensures
        !w.obstructed(w.resting_place(e), e.half),
{
}

/// The settled world is well-formed.
pub proof fn lemma_settled_wf(w: World)
    requires
        w.wf(),
    ensures
        w.settled().wf(),
{
    let r = w.settled();
    assert forall|i: int| 0 <= i < r.entities.len() implies (#[trigger] r.entities[i]).legal(
        r.arena,
    ) && r.entities[i].id == w.entities[i].id by {
        assert(w.entities[i].legal(w.arena));
        lemma_settled_entity(w, w.entities[i]);
    }
    assert forall|i: int, j: int| 0 <= i < j < r.entities.len() implies r.entities[i].id
        < r.entities[j].id by {
        assert(r.entities[i].legal(r.arena));
        assert(r.entities[j].legal(r.arena));
        assert(w.entities[i].id < w.entities[j].id);
    }
    assert forall|i: int| 0 <= i < r.entities.len() implies r.entities[i].id < r.next_id by {
        assert(r.entities[i].legal(r.arena));
    }
}

/// After settling every entity is found under its identifier as before, at
/// its resting place.
pub proof fn lemma_lookup_settled(w: World, id: u64)
    requires
        w.wf(),
    ensures
        w.settled().lookup(id) == match w.lookup(id) {
            Some(e) => Some(w.settled_entity(e)),
            None => None,
        },
{
    let r = w.settled();
    assert forall|i: int| 0 <= i < w.entities.len() implies r.entities[i].id
        == w.entities[i].id by {
        assert(w.entities[i].legal(w.arena));
        lemma_settled_entity(w, w.entities[i]);
    }
    crate::registry::lemma_lookup_aligned(w, r, id);
}

/// If projectile `i` can strike entity `j`, it has a first target.
proof fn lemma_first_target_exists(w: World, i: int, j: int)
    requires
        0 <= i < w.entities.len(),
        0 <= j < w.entities.len(),
        can_strike(w.entities[i], w.entities[j]),
    ensures
        exists|m: int| w.first_target(i, m),
    decreases j,
{
    if exists|k: int| 0 <= k < j && can_strike(w.entities[i], w.entities[k]) {
        let k = choose|k: int| 0 <= k < j && can_strike(w.entities[i], w.entities[k]);
        lemma_first_target_exists(w, i, k);
    } else {
        assert(w.first_target(i, j));
    }
}

/// A projectile has exactly one first target, if it can strike anything.
proof fn lemma_first_target_unique(w: World, i: int, a: int, b: int)
    requires
        w.first_target(i, a),
        w.first_target(i, b),
    ensures
        a == b,
{
    if a < b {
        assert(!can_strike(w.entities[i], w.entities[a]));
    } else if b < a {
        assert(!can_strike(w.entities[i], w.entities[b]));
    }
}

/// What `target_of` chooses: the oldest entity the projectile can strike, and
/// nothing if and only if it can strike no entity at all.
pub proof fn lemma_target_of(w: World, i: int)
    ensures
        match w.target_of(i) {
            Some(j) => w.first_target(i, j),
            None => forall|j: int|
                0 <= i < w.entities.len() && 0 <= j < w.entities.len() ==> !can_strike(
                    w.entities[i],
                    #[trigger] w.entities[j],
                ),
        },
{
    if w.target_of(i) is None {
        assert forall|j: int|
            0 <= i < w.entities.len() && 0 <= j < w.entities.len() implies !can_strike(
            w.entities[i],
            #[trigger] w.entities[j],
        ) by {
            if can_strike(w.entities[i], w.entities[j]) {
                lemma_first_target_exists(w, i, j);
            }
        }
    }
}

/// A first target is the target.
pub proof fn lemma_target_is(w: World, i: int, j: int)
    requires
        w.first_target(i, j),
    ensures
        w.target_of(i) == Some(j),
{
    lemma_target_of(w, i);
    lemma_first_target_unique(w, i, j, w.target_of(i)->0);
}

impl Registry {
    /// Whether the box centred at `pos` overlaps some obstacle.
    pub fn is_obstructed(&self, pos: Point, half: Point) -> (hit: bool)
        ensures
            hit == self@.obstructed(pos, half),
    {
        let n = self.len();
        let mut j: usize = 0;
        while j < n
            invariant
                j <= n,
                n == self@.entities.len(),
                forall|k: int|
                    0 <= k < j ==> !((#[trigger] self@.entities[k]).is_obstacle() && boxes_overlap(
                        pos,
                        half,
                        self@.entities[k].pos,
                        self@.entities[k].half,
                    )),
            decreases n - j,
        {
            let t = self.entity_at(j).unwrap();
            match t.kind {
                Kind::Obstacle(_) => {
                    if overlaps(pos, half, t.pos, t.half) {
                        return true;
                    }
                },
                _ => {},
            }
            j += 1;
        }
        false
    }

    /// Where the entity comes to rest after its move.
    pub fn rest(&self, e: &Entity) -> (p: Point)
        ensures
            p == self@.resting_place(*e),
    {
        let back_x = Point { x: e.prev.x, y: e.pos.y };
        let back_y = Point { x: e.pos.x, y: e.prev.y };
        if !self.is_obstructed(e.pos, e.half) {
            e.pos
        } else if !self.is_obstructed(back_x, e.half) {
            back_x
        } else if !self.is_obstructed(back_y, e.half) {
            back_y
        } else {
            e.prev
        }
    }

    /// Settles every character that ran into an obstacle.
    pub fn settle(&mut self)
        requires
            old(self).wf(),
        ensures
            final(self).wf(),
            final(self)@ == old(self)@.settled(),
            final(self)@.arena == old(self)@.arena,
    {
        let ghost before = self@;
        let n = self.len();
        let mut i: usize = 0;
        while i < n
            invariant
                i <= n,
                n == before.entities.len(),
                before.wf(),
                self.wf(),
                self@.arena == before.arena,
                self@.next_id == before.next_id,
                self@.entities.len() == n,
                forall|k: int|
                    0 <= k < i ==> self@.entities[k] == before.settled_entity(before.entities[k]),
                forall|k: int| i <= k < n ==> self@.entities[k] == before.entities[k],
            decreases n - i,
        {
            let e = self.entity_at(i).unwrap();
            match e.kind {
                Kind::Character(_) => {
                    proof {
                        assert(before.entities[i as int].legal(before.arena));
                        lemma_settled_entity(before, e);
                        lemma_same_obstacles(before, self@, i as int, e.pos, e.half);
                        lemma_same_obstacles(
                            before,
                            self@,
                            i as int,
                            Point { x: e.prev.x, y: e.pos.y },
                            e.half,
                        );
                        lemma_same_obstacles(
                            before,
                            self@,
                            i as int,
                            Point { x: e.pos.x, y: e.prev.y },
                            e.half,
                        );
                    }
                    let pos = self.rest(&e);
                    let settled = Entity {
                        id: e.id,
                        pos,
                        prev: e.prev,
                        half: e.half,
                        team: e.team,
                        kind: e.kind,
                    };
                    self.replace(i, settled);
                },
                _ => {},
            }
            i += 1;
        }
        proof {
            assert(self@.entities =~= before.settled().entities);
        }
    }

    /// The target of the projectile at position `index`: the oldest entity
    /// it can strike.
    pub fn find_target(&self, index: usize) -> (r: Option<usize>)
        ensures
            match r {
                Some(j) => self@.target_of(index as int) == Some(j as int) && self@.first_target(
                    index as int,
                    j as int,
                ),
                None => self@.target_of(index as int) is None,
            },
            r is None && index < self@.entities.len() ==> forall|j: int|
                0 <= j < self@.entities.len() ==> !can_strike(
                    self@.entities[index as int],
                    #[trigger] self@.entities[j],
                ),
    {
        let n = self.len();
        let p = match self.entity_at(index) {
            Some(p) => p,
            None => {
                return None;
            },
        };
        match p.kind {
            Kind::Projectile(_) => {},
            _ => {
                return None;
            },
        }
        let mut j: usize = 0;
        while j < n
            invariant
                j <= n,
                index < n,
                n == self@.entities.len(),
                p == self@.entities[index as int],
                p.is_projectile(),
                forall|k: int| 0 <= k < j ==> !can_strike(p, #[trigger] self@.entities[k]),
            decreases n - j,
        {
            let t = self.entity_at(j).unwrap();
            let valid = match t.kind {
                Kind::Obstacle(_) => true,
                Kind::Character(_) => t.team != p.team,
                _ => false,
            };
            if valid && overlaps(p.pos, p.half, t.pos, t.half) {
                proof {
                    assert(self@.first_target(index as int, j as int));
                    lemma_target_is(self@, index as int, j as int);
                }
                return Some(j);
            }
            j += 1;
        }
        None
    }

    /// Pairs every projectile with its target and lists what follows.
    /// Nothing in the registry changes.
    pub fn resolve(&self) -> (events: Vec<Event>)
        ensures
            events@ == self@.events(),
    {
        let n = self.len();
        let mut left: Vec<u32> = Vec::new();
        let mut k: usize = 0;
        while k < n
            invariant
                k <= n,
                n == self@.entities.len(),
                left@.len() == k,
                forall|j: int| 0 <= j < k ==> left@[j] == self@.entities[j].health(),
            decreases n - k,
        {
            let e = self.entity_at(k).unwrap();
            left.push(e.current_health());
            k += 1;
        }
        let mut events: Vec<Event> = Vec::new();
        let mut i: usize = 0;
        while i < n
            invariant
                i <= n,
                n == self@.entities.len(),
                left@.len() == n,
                forall|j: int| 0 <= j < n ==> left@[j] == self@.health_left(j, i as int),
                events@ == self@.events_among(i as int),
            decreases n - i,
        {
            let p = self.entity_at(i).unwrap();
            let ghost w = self@;
            match self.find_target(i) {
                Some(j) => {
                    let t = self.entity_at(j).unwrap();
                    let damage = strike_damage(&p, &t);
                    let before = left[j];
                    let after = before.saturating_sub(damage);
                    events.push(Event::Hit { projectile: p.id, target: t.id, damage });
                    if before > 0 && after == 0 {
                        events.push(Event::Destroyed { entity: t.id, at: t.pos, half: t.half });
                    }
                    left.set(j, after);
                    proof {
                        assert(events@ =~= w.events_among(i as int) + w.outcome(i as int));
                    }
                },
                None => {
                    match p.kind {
                        Kind::Projectile(_) => {
                            if self.arena().touches_edge(p.pos, p.half) {
                                events.push(Event::Escaped { projectile: p.id });
                            }
                        },
                        _ => {},
                    }
                    proof {
                        assert(events@ =~= w.events_among(i as int) + w.outcome(i as int));
                    }
                },
            }
            i += 1;
        }
        events
    }
}

/// What the target loses when the projectile strikes it.
pub fn strike_damage(p: &Entity, t: &Entity) -> (d: u32)
    ensures
        d == harm(*p, *t),
{
    let damage = match p.kind {
        Kind::Projectile(shot) => shot.damage,
        _ => 0,
    };
    match t.kind {
        Kind::Character(c) => if c.shield_active {
            0
        } else {
            damage
        },
        Kind::Obstacle(o) => match o.material {
            Material::Breakable => damage,
            Material::Indestructible => 0,
        },
        _ => 0,
    }
}

/// The event leaves the entity `id` as it is: it neither removes it nor
/// takes health from it.
pub open spec fn spares(event: Event, id: u64) -> bool {
    match event {
        Event::Hit { projectile, target, damage } => projectile != id && (target != id || damage
            == 0),
        Event::Escaped { projectile } => projectile != id,
        Event::Destroyed { entity, at, half } => entity != id,
    }
}

/// The event is a hit by the projectile `id`.
pub open spec fn is_hit_by(event: Event, id: u64) -> bool {
    match event {
        Event::Hit { projectile, target, damage } => projectile == id,
        _ => false,
    }
}

/// Health after damage is the difference where that is positive, and zero
/// otherwise.
pub proof fn lemma_reduced(health: u32, damage: u32)
    ensures
        reduced(health, damage) == if health - damage > 0 {
            health - damage
        } else {
            0
        },
        reduced(health, damage) <= health,
        reduced(health, 0) == health,
{
}

/// A projectile never strikes a character of its own team, and what it
/// strikes is an obstacle or a character.
pub proof fn lemma_no_friendly_fire(p: Entity, t: Entity)
    ensures
        t.is_character() && t.team == p.team ==> !can_strike(p, t),
        can_strike(p, t) ==> p.is_projectile() && (t.is_obstacle() || t.is_character()),
{
}

/// A shielded character and an indestructible obstacle lose nothing when
/// they are struck.
pub proof fn lemma_harmless(p: Entity, t: Entity)
    ensures
        t.kind matches Kind::Character(c) && c.shield_active ==> harm(p, t) == 0,
        t.kind matches Kind::Obstacle(o) && o.material == Material::Indestructible ==> harm(p, t)
            == 0,
        !t.vulnerable() ==> harm(p, t) == 0,
{
}

/// The target of a projectile has the lowest identifier of all entities the
/// projectile can strike.
pub proof fn lemma_target_lowest(w: World, i: int, j: int, other: int)
    requires
        ascending(w.entities),
        w.target_of(i) == Some(j),
        0 <= other < w.entities.len(),
        can_strike(w.entities[i], w.entities[other]),
    ensures
        w.entities[j].id <= w.entities[other].id,
{
    lemma_target_of(w, i);
    if other < j {
        assert(!can_strike(w.entities[i], w.entities[other]));
    } else if j < other {
        assert(w.entities[j].id < w.entities[other].id);
    }
}

/// The events that one entity causes, spelled out.
pub proof fn lemma_outcome(w: World, i: int)
    ensures
        match w.target_of(i) {
            Some(j) => {
                &&& w.first_target(i, j)
                &&& 1 <= w.outcome(i).len() <= 2
                &&& w.outcome(i)[0] == Event::Hit {
                    projectile: w.entities[i].id,
                    target: w.entities[j].id,
                    damage: harm(w.entities[i], w.entities[j]),
                }
                &&& w.outcome(i).len() == 2 ==> {
                    &&& w.outcome(i)[1] == Event::Destroyed {
                        entity: w.entities[j].id,
                        at: w.entities[j].pos,
                        half: w.entities[j].half,
                    }
                    &&& w.health_left(j, i) > 0
                    &&& reduced(w.health_left(j, i), harm(w.entities[i], w.entities[j])) == 0
                }
                &&& w.outcome(i).len() == 1 ==> !(w.health_left(j, i) > 0 && reduced(
                    w.health_left(j, i),
                    harm(w.entities[i], w.entities[j]),
                ) == 0)
            },
            None => {
                &&& w.outcome(i).len() <= 1
                &&& w.outcome(i).len() == 1 <==> w.entities[i].is_projectile() && w.arena.at_edge(
                    w.entities[i].pos,
                    w.entities[i].half,
                )
                &&& w.outcome(i).len() == 1 ==> w.outcome(i)[0] == Event::Escaped {
                    projectile: w.entities[i].id,
                }
            },
        },
{
    lemma_target_of(w, i);
}

/// Every event of a tick is caused by one entity: the event at position `k`
/// is one of the events of the entity at the position returned.
pub proof fn lemma_event_origin(w: World, n: int, k: int) -> (i: int)
    requires
        0 <= k < w.events_among(n).len(),
    ensures
        0 <= i < n,
        w.events_among(i).len() <= k < w.events_among(i).len() + w.outcome(i).len(),
        w.events_among(n)[k] == w.outcome(i)[k - w.events_among(i).len()],
    decreases n,
{
    if n <= 0 {
        0
    } else if k < w.events_among(n - 1).len() {
        lemma_event_origin(w, n - 1, k)
    } else {
        n - 1
    }
}

/// Every event that an entity causes is among the events of the tick.
pub proof fn lemma_event_listed(w: World, n: int, i: int, m: int)
    requires
        0 <= i < n,
        0 <= m < w.outcome(i).len(),
    ensures
        w.events_among(i).len() + m < w.events_among(n).len(),
        w.events_among(n)[w.events_among(i).len() + m] == w.outcome(i)[m],
    decreases n,
{
    if i < n - 1 {
        lemma_event_listed(w, n - 1, i, m);
    }
}

/// An entity that causes no event itself, and that loses nothing to any
/// projectile whose target it is, is spared by every event of the tick.
pub proof fn lemma_events_spare(w: World, x: int, k: int)
    requires
        w.wf(),
        0 <= x < w.entities.len(),
        w.outcome(x).len() == 0,
        forall|i: int|
            0 <= i < w.entities.len() && w.target_of(i) == Some(x) ==> harm(
                #[trigger] w.entities[i],
                w.entities[x],
            ) == 0,
        0 <= k < w.events().len(),
    ensures
        spares(w.events()[k], w.entities[x].id),
{
    let n = w.entities.len() as int;
    let i = lemma_event_origin(w, n, k);
    lemma_outcome(w, i);
    assert(i != x);
    if i < x {
        assert(w.entities[i].id < w.entities[x].id);
    } else {
        assert(w.entities[x].id < w.entities[i].id);
    }
    match w.target_of(i) {
        Some(j) => {
            if j < x {
                assert(w.entities[j].id < w.entities[x].id);
            } else if x < j {
                assert(w.entities[x].id < w.entities[j].id);
            } else {
                assert(harm(w.entities[i], w.entities[x]) == 0);
            }
        },
        None => {},
    }
}

/// A projectile that can strike something causes exactly one hit, on the
/// entity with the lowest identifier among those it can strike: the hit is
/// listed, and any hit listed for the projectile is this one, at the same
/// place in the list.
pub proof fn lemma_one_hit(w: World, i: int, other: int) -> (k: int)
    requires
        w.wf(),
        0 <= i < w.entities.len(),
        0 <= other < w.entities.len(),
        can_strike(w.entities[i], w.entities[other]),
    ensures
        0 <= k < w.events().len(),
        ({
            &&& w.events()[k] matches Event::Hit { projectile, target, damage }
            &&& projectile == w.entities[i].id
            &&& w.lookup(target) matches Some(t)
            &&& can_strike(w.entities[i], t)
            &&& t.id <= w.entities[other].id
            &&& damage == harm(w.entities[i], t)
        }),
        forall|m: int|
            0 <= m < w.events().len() && is_hit_by(#[trigger] w.events()[m], w.entities[i].id)
                ==> m == k,
{
    let n = w.entities.len() as int;
    lemma_target_of(w, i);
    let j = w.target_of(i)->0;
    lemma_outcome(w, i);
    lemma_target_lowest(w, i, j, other);
    lemma_event_listed(w, n, i, 0);
    crate::registry::lemma_locate(w, j);
    let k = w.events_among(i).len() as int;
    assert forall|m: int|
        0 <= m < w.events().len() && is_hit_by(
            #[trigger] w.events()[m],
            w.entities[i].id,
        ) implies m == k by {
        let o = lemma_event_origin(w, n, m);
        lemma_outcome(w, o);
        if o < i {
            assert(w.entities[o].id < w.entities[i].id);
        } else if i < o {
            assert(w.entities[i].id < w.entities[o].id);
        }
    }
    k
}

/// Every hit and every destruction listed stems from a projectile and the
/// target that it can strike; every escape from a projectile at the edge of
/// the arena that can strike nothing.
pub proof fn lemma_event_meaning(w: World, k: int)
    requires
        w.wf(),
        0 <= k < w.events().len(),
    ensures
        match w.events()[k] {
            Event::Hit { projectile, target, damage } => {
                &&& w.lookup(projectile) matches Some(p)
                &&& w.lookup(target) matches Some(t)
                &&& can_strike(p, t)
                &&& damage == harm(p, t)
            },
            Event::Escaped { projectile } => {
                &&& w.lookup(projectile) matches Some(p)
                &&& p.is_projectile()
                &&& w.arena.at_edge(p.pos, p.half)
                &&& forall|j: int|
                    0 <= j < w.entities.len() ==> !can_strike(p, #[trigger] w.entities[j])
            },
            Event::Destroyed { entity, at, half } => {
                &&& w.lookup(entity) matches Some(t)
                &&& t.vulnerable()
                &&& at == t.pos
                &&& half == t.half
                &&& exists|i: int|
                    0 <= i < w.entities.len() && can_strike(#[trigger] w.entities[i], t) && harm(
                        w.entities[i],
                        t,
                    ) > 0
            },
        },
{
    let n = w.entities.len() as int;
    let i = lemma_event_origin(w, n, k);
    lemma_outcome(w, i);
    lemma_target_of(w, i);
    crate::registry::lemma_locate(w, i);
    match w.target_of(i) {
        Some(j) => {
            crate::registry::lemma_locate(w, j);
            lemma_harmless(w.entities[i], w.entities[j]);
        },
        None => {},
    }
}

/// Two worlds that differ only in entities that are not obstacles have the
/// same obstructed places.
proof fn lemma_same_obstacles(a: World, b: World, upto: int, pos: Point, half: Point)
    requires
        a.entities.len() == b.entities.len(),
        forall|k: int|
            0 <= k < upto ==> (#[trigger] b.entities[k]) == a.settled_entity(a.entities[k]),
        forall|k: int| upto <= k < a.entities.len() ==> (#[trigger] b.entities[k]) == a.entities[k],
    ensures
        a.obstructed(pos, half) == b.obstructed(pos, half),
{
    if a.obstructed(pos, half) {
        let j = choose|j: int|
            0 <= j < a.entities.len() && (#[trigger] a.entities[j]).is_obstacle() && boxes_overlap(
                pos,
                half,
                a.entities[j].pos,
                a.entities[j].half,
            );
        assert(b.entities[j] == a.entities[j]);
        assert(b.entities[j].is_obstacle());
    }
    if b.obstructed(pos, half) {
        let j = choose|j: int|
            0 <= j < b.entities.len() && (#[trigger] b.entities[j]).is_obstacle() && boxes_overlap(
                pos,
                half,
                b.entities[j].pos,
                b.entities[j].half,
            );
        assert(b.entities[j].is_obstacle());
        assert(a.entities[j] == b.entities[j]);
        assert(a.entities[j].is_obstacle());
    }
}

} // verus!
