//! What a tick guarantees for single entities.
//!
//! The theorems of this module follow one entity through a whole tick, and
//! through several ticks, by its identifier.

use crate::collision::{
    can_strike, harm, lemma_event_origin, lemma_events_spare, lemma_harmless, lemma_outcome,
    lemma_target_of, spares, Event,
};
use crate::entity::{Entity, Kind, Material};
use crate::geometry::boxes_overlap;
use crate::lifecycle::{
    aged, lemma_applied_all_spares, lemma_lookup_matured, lemma_matured_wf,
    lemma_obeyed_all_keeps, lemma_obeyed_all_wf, Intent,
};
use crate::movement::{lemma_integrated_wf, lemma_lookup_integrated, lemma_moved_in_bounds, moved};
use crate::registry::{lemma_locate, lemma_lookup_id, World};
use crate::rules::Rules;
use crate::session::lemma_ticked_wf;
use vstd::prelude::*;

verus! {

/// The event names the entity `id`, as projectile, as target or as the
/// entity destroyed.
pub open spec fn names(event: Event, id: u64) -> bool {
    match event {
        Event::Hit { projectile, target, damage } => projectile == id || target == id,
        Event::Escaped { projectile } => projectile == id,
        Event::Destroyed { entity, at, half } => entity == id,
    }
}

impl World {
    /// The world after one tick for each list of intents in `script`.
    pub open spec fn run(self, script: Seq<Seq<Intent>>, rules: Rules) -> World
        decreases script.len(),
    {
        if script.len() == 0 {
            self
        } else {
            self.run(script.drop_last(), rules).ticked(script.last(), rules)
        }
    }

    /// In the tick with these intents the entity `id` strikes nothing and
    /// does not reach the edge of the arena.
    pub open spec fn quiet(self, intents: Seq<Intent>, rules: Rules, id: u64) -> bool {
        let mid = self.advanced(intents, rules);
        match mid.locate(id) {
            Some(x) => mid.outcome(x).len() == 0,
            None => true,
        }
    }
}

/// Running a script keeps a well-formed world well-formed, and running one
/// tick more is a tick from where the shorter script ended.
pub proof fn lemma_run(w: World, script: Seq<Seq<Intent>>, rules: Rules, k: int)
    requires
        w.wf(),
        0 <= k <= script.len(),
    ensures
        w.run(script.take(k), rules).wf(),
        w.run(script.take(k), rules).arena == w.arena,
        k < script.len() ==> w.run(script.take(k + 1), rules) == w.run(
            script.take(k),
            rules,
        ).ticked(script[k], rules),
    decreases k,
{
    if k > 0 {
        lemma_run(w, script, rules, k - 1);
        assert(script.take(k).drop_last() =~= script.take(k - 1));
        lemma_ticked_wf(w.run(script.take(k - 1), rules), script[k - 1], rules);
    }
    if k < script.len() {
        assert(script.take(k + 1).drop_last() =~= script.take(k));
    }
}

/// Where an entity is in the middle of a tick, after intents, movement and
/// settling: under its old identifier, with its extents, team, health and
/// shield as before. An entity that is not a character has only moved.
pub proof fn lemma_advanced(
    w: World,
    intents: Seq<Intent>,
    rules: Rules,
    id: u64,
    e: Entity,
) -> (m: Entity)
    requires
        w.wf(),
        w.lookup(id) == Some(e),
    ensures
        w.advanced(intents, rules).wf(),
        w.advanced(intents, rules).lookup(id) == Some(m),
        m.id == id,
        m.half == e.half,
        m.team == e.team,
        m.legal(w.arena),
        e.kind matches Kind::Character(c) ==> m.kind matches Kind::Character(d) && d.health
            == c.health && d.shield_active == c.shield_active && d.shield_timer == c.shield_timer,
        !e.is_character() ==> m == moved(e, w.arena, rules.timestep),
{
    lemma_lookup_id(w, id);
    lemma_obeyed_all_keeps(w, intents, rules, id, e);
    lemma_obeyed_all_wf(w, intents, rules);
    let a = w.obeyed_all(intents, rules);
    let r = a.lookup(id)->0;
    lemma_lookup_id(a, id);
    assert(r.legal(a.arena));
    lemma_lookup_integrated(a, rules.timestep, id);
    lemma_integrated_wf(a, rules.timestep);
    lemma_moved_in_bounds(r, a.arena, rules.timestep);
    let b = a.integrated(rules.timestep);
    crate::collision::lemma_lookup_settled(b, id);
    crate::collision::lemma_settled_wf(b);
    crate::collision::lemma_settled_entity(b, moved(r, a.arena, rules.timestep));
    b.settled_entity(moved(r, a.arena, rules.timestep))
}

/// An entity that causes no event, and that loses nothing to any projectile
/// whose target it is, ends the tick one tick older and otherwise as it was
/// when the collisions were resolved.
pub proof fn lemma_spared(mid: World, rules: Rules, x: int)
    requires
        mid.wf(),
        0 <= x < mid.entities.len(),
        mid.outcome(x).len() == 0,
        forall|i: int|
            0 <= i < mid.entities.len() && mid.target_of(i) == Some(x) ==> harm(
                #[trigger] mid.entities[i],
                mid.entities[x],
            ) == 0,
    ensures
        mid.matured().applied_all(mid.events(), rules).lookup(mid.entities[x].id) == aged(
            mid.entities[x],
        ),
{
    let id = mid.entities[x].id;
    lemma_locate(mid, x);
    lemma_lookup_matured(mid, id);
    lemma_matured_wf(mid);
    assert forall|k: int| 0 <= k < mid.events().len() implies spares(
        #[trigger] mid.events()[k],
        id,
    ) by {
        lemma_events_spare(mid, x, k);
    }
    lemma_applied_all_spares(mid.matured(), mid.events(), rules, id);
}

/// A projectile passes through its own team: a character whose box is
/// overlapped by no projectile of another team is named by no event, and
/// ends the tick with the health it had.
pub proof fn lemma_allies_pass(mid: World, rules: Rules, x: int)
    requires
        mid.wf(),
        0 <= x < mid.entities.len(),
        mid.entities[x].is_character(),
        forall|i: int|
            0 <= i < mid.entities.len() && (#[trigger] mid.entities[i]).is_projectile()
                && boxes_overlap(
                mid.entities[i].pos,
                mid.entities[i].half,
                mid.entities[x].pos,
                mid.entities[x].half,
            ) ==> mid.entities[i].team == mid.entities[x].team,
    ensures
        forall|k: int|
            0 <= k < mid.events().len() ==> !names(#[trigger] mid.events()[k], mid.entities[x].id),
        mid.matured().applied_all(mid.events(), rules).lookup(mid.entities[x].id) == aged(
            mid.entities[x],
        ),
        aged(mid.entities[x]) matches Some(r) && r.health() == mid.entities[x].health(),
{
    let n = mid.entities.len() as int;
    let t = mid.entities[x];
    assert forall|i: int| 0 <= i < n implies mid.target_of(i) != Some(x) by {
        lemma_target_of(mid, i);
        if mid.target_of(i) == Some(x) {
            assert(can_strike(mid.entities[i], t));
            assert(mid.entities[i].is_projectile());
        }
    }
    lemma_target_of(mid, x);
    lemma_outcome(mid, x);
    lemma_spared(mid, rules, x);
    crate::lifecycle::lemma_aged(t);
    assert forall|k: int| 0 <= k < mid.events().len() implies !names(
        #[trigger] mid.events()[k],
        t.id,
    ) by {
        let i = lemma_event_origin(mid, n, k);
        lemma_outcome(mid, i);
        if i < x {
            assert(mid.entities[i].id < t.id);
        } else if x < i {
            assert(t.id < mid.entities[i].id);
        }
        match mid.target_of(i) {
            Some(j) => {
                if j < x {
                    assert(mid.entities[j].id < t.id);
                } else if x < j {
                    assert(t.id < mid.entities[j].id);
                }
            },
            None => {},
        }
    }
}

/// A character that, once everything has moved, is overlapped by no
/// projectile of another team ends the tick with the health it began with.
pub proof fn lemma_unharmed_by_allies(
    w: World,
    intents: Seq<Intent>,
    rules: Rules,
    id: u64,
    e: Entity,
)
    requires
        w.wf(),
        w.lookup(id) == Some(e),
        e.is_character(),
        ({
            let mid = w.advanced(intents, rules);
            forall|i: int|
                0 <= i < mid.entities.len() && (#[trigger] mid.entities[i]).is_projectile()
                    && mid.lookup(id) is Some && boxes_overlap(
                    mid.entities[i].pos,
                    mid.entities[i].half,
                    mid.lookup(id)->0.pos,
                    mid.lookup(id)->0.half,
                ) ==> mid.entities[i].team == e.team
        }),
    ensures
        w.ticked(intents, rules).lookup(id) matches Some(r) && r.is_character() && r.health()
            == e.health(),
{
    let m = lemma_advanced(w, intents, rules, id, e);
    let mid = w.advanced(intents, rules);
    lemma_lookup_id(mid, id);
    let x = mid.locate(id)->0;
    lemma_allies_pass(mid, rules, x);
    crate::lifecycle::lemma_aged(m);
}

/// The health that the resolver reckons with is the health that the
/// lifecycle manager leaves. Once the events caused by the first `n`
/// entities have been carried out, a character or breakable obstacle is found
/// with the health that the hits so far have left it, and is gone if they
/// have left it none.
pub proof fn lemma_struck(mid: World, rules: Rules, x: int, n: int)
    requires
        mid.wf(),
        0 <= x < mid.entities.len(),
        0 <= n <= mid.entities.len(),
        mid.entities[x].vulnerable(),
    ensures
        mid.matured().applied_all(mid.events_among(n), rules).wf(),
        mid.matured().applied_all(mid.events_among(n), rules).lookup(mid.entities[x].id) == if mid.health_left(
            x,
            n,
        ) == 0 {
            None
        } else {
            Some(aged(mid.entities[x])->0.with_health(mid.health_left(x, n)))
        },
    decreases n,
{
    let e = mid.entities[x];
    let id = e.id;
    let start = mid.matured();
    lemma_matured_wf(mid);
    lemma_locate(mid, x);
    assert(e.legal(mid.arena));
    crate::lifecycle::lemma_aged(e);
    let a = aged(e)->0;
    if n == 0 {
        lemma_lookup_matured(mid, id);
        assert(a.with_health(a.health()) == a);
    } else {
        lemma_struck(mid, rules, x, n - 1);
        let i = n - 1;
        let done = mid.events_among(i);
        let prev = start.applied_all(done, rules);
        let h = mid.health_left(x, i);
        crate::lifecycle::lemma_applied_all_concat(start, done, mid.outcome(i), rules);
        crate::lifecycle::lemma_applied_all_ids(start, done, rules);
        crate::lifecycle::lemma_applied_all_wf(prev, mid.outcome(i), rules);
        lemma_outcome(mid, i);
        lemma_target_of(mid, i);
        if i < x {
            assert(mid.entities[i].id < id);
        } else if x < i {
            assert(id < mid.entities[i].id);
        }
        if mid.target_of(i) == Some(x) {
            let p = mid.entities[i];
            let d = harm(p, e);
            let hit = Event::Hit { projectile: p.id, target: id, damage: d };
            let boom = Event::Destroyed { entity: id, at: e.pos, half: e.half };
            crate::lifecycle::lemma_applied_few(prev, hit, boom, rules);
            let w1 = prev.without(p.id);
            crate::registry::lemma_without_wf(prev, p.id);
            crate::registry::lemma_lookup_without(prev, p.id, id);
            crate::lifecycle::lemma_lookup_hurt(w1, id, d, id);
            crate::lifecycle::lemma_hurt_wf(w1, id, d);
            let w2 = w1.hurt(id, d);
            if h > 0 {
                assert(a.with_health(h).vulnerable());
                assert(a.with_health(h).health() == h);
                assert(a.with_health(h).with_health(crate::collision::reduced(h, d))
                    == a.with_health(crate::collision::reduced(h, d)));
            }
            if mid.outcome(i).len() == 2 {
                assert(mid.outcome(i) =~= seq![hit, boom]);
                crate::registry::lemma_lookup_without(w2, id, id);
                crate::registry::lemma_without_wf(w2, id);
                crate::registry::lemma_lookup_spawned(
                    w2.without(id),
                    e.pos,
                    e.half,
                    crate::entity::Team::Neutral,
                    crate::lifecycle::blast(rules),
                    id,
                );
            } else {
                assert(mid.outcome(i) =~= seq![hit]);
            }
        } else {
            assert forall|k: int| 0 <= k < mid.outcome(i).len() implies spares(
                #[trigger] mid.outcome(i)[k],
                id,
            ) by {
                match mid.target_of(i) {
                    Some(j) => {
                        if j < x {
                            assert(mid.entities[j].id < id);
                        } else if x < j {
                            assert(id < mid.entities[j].id);
                        }
                    },
                    None => {},
                }
            }
            lemma_applied_all_spares(prev, mid.outcome(i), rules, id);
        }
    }
}

/// At the end of a tick a character or breakable obstacle has the health
/// that all hits of the tick together have left it, and has been removed if
/// they have left it none.
pub proof fn lemma_health_after(mid: World, rules: Rules, x: int)
    requires
        mid.wf(),
        0 <= x < mid.entities.len(),
        mid.entities[x].vulnerable(),
    ensures
        ({
            let left = mid.health_left(x, mid.entities.len() as int);
            let end = mid.matured().applied_all(mid.events(), rules);
            &&& left == 0 ==> end.lookup(mid.entities[x].id) is None
            &&& left > 0 ==> {
                &&& end.lookup(mid.entities[x].id) matches Some(r)
                &&& r == aged(mid.entities[x])->0.with_health(left)
                &&& r.health() == left
                &&& r.pos == mid.entities[x].pos
            }
        }),
{
    lemma_struck(mid, rules, x, mid.entities.len() as int);
    crate::lifecycle::lemma_aged(mid.entities[x]);
}

/// Every destruction leaves an explosion behind. If the events of a tick
/// list the destruction of an entity, then at the end of the tick a new
/// explosion that has not aged yet stands where the entity stood, with the
/// extents of the entity.
pub proof fn lemma_explosion_appears(mid: World, rules: Rules, k: int) -> (id: u64)
    requires
        mid.wf(),
        rules.explosion_duration > 0,
        mid.next_id + mid.events().len() <= u64::MAX,
        0 <= k < mid.events().len(),
        mid.events()[k] is Destroyed,
    ensures
        ({
            &&& mid.events()[k] matches Event::Destroyed { entity, at, half }
            &&& mid.lookup(entity) matches Some(t)
            &&& at == t.pos
            &&& half == t.half
            &&& id >= mid.next_id
            &&& mid.matured().applied_all(mid.events(), rules).lookup(id) == Some(
                Entity {
                    id,
                    pos: at,
                    prev: at,
                    half,
                    team: crate::entity::Team::Neutral,
                    kind: crate::lifecycle::blast(rules),
                },
            )
        }),
{
    let events = mid.events();
    let start = mid.matured();
    lemma_matured_wf(mid);
    crate::collision::lemma_event_meaning(mid, k);
    let entity = events[k]->Destroyed_entity;
    let at = events[k]->Destroyed_at;
    let half = events[k]->Destroyed_half;
    lemma_lookup_id(mid, entity);
    let t = mid.lookup(entity)->0;
    assert(t.legal(mid.arena));
    let head = events.take(k);
    let upto = events.take(k + 1);
    let tail = events.skip(k + 1);
    assert(upto.drop_last() =~= head);
    assert(upto + tail =~= events);
    let prev = start.applied_all(head, rules);
    crate::lifecycle::lemma_applied_all_wf(start, head, rules);
    crate::lifecycle::lemma_applied_all_ids(start, head, rules);
    let gone = prev.without(entity);
    crate::registry::lemma_without_wf(prev, entity);
    let id = gone.next_id;
    let blast = crate::lifecycle::blast(rules);
    crate::geometry::lemma_nearest(gone.arena, at.x as int, at.y as int, half);
    crate::registry::lemma_lookup_spawned(gone, at, half, crate::entity::Team::Neutral, blast, id);
    crate::registry::lemma_spawned_wf(gone, at, half, crate::entity::Team::Neutral, blast);
    let next = start.applied_all(upto, rules);
    assert(next == prev.applied(events[k], rules));
    assert forall|m: int| 0 <= m < tail.len() implies spares(#[trigger] tail[m], id) by {
        crate::collision::lemma_event_meaning(mid, k + 1 + m);
        assert(tail[m] == events[k + 1 + m]);
        match tail[m] {
            Event::Hit { projectile, target, damage } => {
                lemma_lookup_id(mid, projectile);
                lemma_lookup_id(mid, target);
            },
            Event::Escaped { projectile } => {
                lemma_lookup_id(mid, projectile);
            },
            Event::Destroyed { entity, at, half } => {
                lemma_lookup_id(mid, entity);
            },
        }
    }
    lemma_applied_all_spares(next, tail, rules, id);
    crate::lifecycle::lemma_applied_all_concat(start, upto, tail, rules);
    id
}

/// A character that begins a tick with its shield up ends it with the
/// health it had, whatever strikes it, and with exactly one tick less on its
/// shield timer; the shield ends when the timer reaches zero.
pub proof fn lemma_shield_holds(w: World, intents: Seq<Intent>, rules: Rules, id: u64, e: Entity)
    requires
        w.wf(),
        w.lookup(id) == Some(e),
        e.kind matches Kind::Character(c) && c.shield_active,
    ensures
        ({
            &&& e.kind matches Kind::Character(c)
            &&& w.ticked(intents, rules).lookup(id) matches Some(r)
            &&& r.kind matches Kind::Character(d)
            &&& d.health == c.health
            &&& d.shield_timer == c.shield_timer - 1
            &&& d.shield_active == (c.shield_timer > 1)
        }),
{
    let m = lemma_advanced(w, intents, rules, id, e);
    let mid = w.advanced(intents, rules);
    lemma_lookup_id(mid, id);
    let x = mid.locate(id)->0;
    lemma_lookup_id(w, id);
    assert(e.legal(w.arena));
    assert forall|i: int|
        0 <= i < mid.entities.len() && mid.target_of(i) == Some(x) implies harm(
        #[trigger] mid.entities[i],
        mid.entities[x],
    ) == 0 by {
        lemma_harmless(mid.entities[i], m);
    }
    lemma_target_of(mid, x);
    lemma_outcome(mid, x);
    lemma_spared(mid, rules, x);
}

/// An indestructible obstacle is never changed by a tick.
pub proof fn lemma_indestructible(w: World, intents: Seq<Intent>, rules: Rules, id: u64, e: Entity)
    requires
        w.wf(),
        w.lookup(id) == Some(e),
        e.kind matches Kind::Obstacle(o) && o.material == Material::Indestructible,
    ensures
        w.ticked(intents, rules).lookup(id) == Some(e),
{
    let m = lemma_advanced(w, intents, rules, id, e);
    let mid = w.advanced(intents, rules);
    lemma_lookup_id(mid, id);
    let x = mid.locate(id)->0;
    assert forall|i: int|
        0 <= i < mid.entities.len() && mid.target_of(i) == Some(x) implies harm(
        #[trigger] mid.entities[i],
        mid.entities[x],
    ) == 0 by {
        lemma_harmless(mid.entities[i], m);
    }
    lemma_target_of(mid, x);
    lemma_outcome(mid, x);
    lemma_spared(mid, rules, x);
}

/// Obstacles neither appear nor move. An obstacle found after a tick was
/// there before the tick, at the same place and with the same extents.
pub proof fn lemma_obstacles_stay(w: World, intents: Seq<Intent>, rules: Rules, id: u64)
    requires
        w.wf(),
    ensures
        match w.ticked(intents, rules).lookup(id) {
            Some(r) => r.is_obstacle() ==> {
                &&& w.lookup(id) matches Some(e)
                &&& e.is_obstacle()
                &&& e.pos == r.pos
                &&& e.half == r.half
                &&& w.advanced(intents, rules).lookup(id) == Some(e)
            },
            None => true,
        },
{
    let a = w.obeyed_all(intents, rules);
    let b = a.integrated(rules.timestep);
    let mid = b.settled();
    lemma_obeyed_all_wf(w, intents, rules);
    lemma_integrated_wf(a, rules.timestep);
    crate::collision::lemma_settled_wf(b);
    lemma_matured_wf(mid);
    crate::lifecycle::lemma_applied_all_origin(mid.matured(), mid.events(), rules, id);
    lemma_lookup_matured(mid, id);
    crate::collision::lemma_lookup_settled(b, id);
    lemma_lookup_integrated(a, rules.timestep, id);
    crate::lifecycle::lemma_obeyed_all_origin(w, intents, rules, id);
    if mid.lookup(id) is Some {
        crate::lifecycle::lemma_aged(mid.lookup(id)->0);
    }
}

/// Characters do not enter obstacles. A character whose box overlaps no
/// obstacle before a tick overlaps none after it.
pub proof fn lemma_no_interpenetration(
    w: World,
    intents: Seq<Intent>,
    rules: Rules,
    id: u64,
    e: Entity,
)
    requires
        w.wf(),
        w.lookup(id) == Some(e),
        e.is_character(),
        !w.obstructed(e.pos, e.half),
    ensures
        w.ticked(intents, rules).lookup(id) matches Some(r) ==> !w.ticked(
            intents,
            rules,
        ).obstructed(r.pos, r.half),
{
    let a = w.obeyed_all(intents, rules);
    let b = a.integrated(rules.timestep);
    let mid = b.settled();
    let end = w.ticked(intents, rules);
    lemma_obeyed_all_wf(w, intents, rules);
    lemma_integrated_wf(a, rules.timestep);
    crate::collision::lemma_settled_wf(b);
    lemma_ticked_wf(w, intents, rules);
    lemma_lookup_id(w, id);
    assert(e.legal(w.arena));

    // The character before and after it has moved.
    lemma_obeyed_all_keeps(w, intents, rules, id, e);
    let r0 = a.lookup(id)->0;
    lemma_lookup_id(a, id);
    lemma_lookup_integrated(a, rules.timestep, id);
    let r1 = moved(r0, a.arena, rules.timestep);
    crate::collision::lemma_lookup_settled(b, id);
    let m = b.settled_entity(r1);
    lemma_lookup_id(mid, id);
    let x = mid.locate(id)->0;

    // Where it came from, no obstacle of the moved world stands.
    assert(!b.obstructed(e.pos, e.half)) by {
        if b.obstructed(e.pos, e.half) {
            let j = choose|j: int|
                0 <= j < b.entities.len() && (#[trigger] b.entities[j]).is_obstacle()
                    && boxes_overlap(e.pos, e.half, b.entities[j].pos, b.entities[j].half);
            let o = b.entities[j];
            lemma_locate(b, j);
            lemma_lookup_integrated(a, rules.timestep, o.id);
            crate::lifecycle::lemma_obeyed_all_origin(w, intents, rules, o.id);
            lemma_lookup_id(w, o.id);
            let k = w.locate(o.id)->0;
            assert(w.entities[k].is_obstacle());
            assert(w.entities[k].pos == o.pos && w.entities[k].half == o.half);
        }
    }
    crate::collision::lemma_settled_clear(b, r1);

    if end.lookup(id) is Some {
        let r = end.lookup(id)->0;
        lemma_health_after(mid, rules, x);
        assert(r.pos == m.pos && r.half == m.half);
        if end.obstructed(r.pos, r.half) {
            let j = choose|j: int|
                0 <= j < end.entities.len() && (#[trigger] end.entities[j]).is_obstacle()
                    && boxes_overlap(r.pos, r.half, end.entities[j].pos, end.entities[j].half);
            let o = end.entities[j];
            lemma_locate(end, j);
            lemma_obstacles_stay(w, intents, rules, o.id);
            crate::collision::lemma_lookup_settled(b, o.id);
            lemma_lookup_id(b, o.id);
            let k = b.locate(o.id)->0;
            assert(b.entities[k].is_obstacle());
            assert(b.entities[k].pos == o.pos && b.entities[k].half == o.half);
            assert(b.obstructed(m.pos, m.half));
        }
    }
}

/// What becomes of a projectile in a tick in which it strikes nothing and
/// does not reach the edge of the arena: it moves on with one tick less to
/// live, or expires if this was its last tick.
pub proof fn lemma_projectile_fate(
    w: World,
    intents: Seq<Intent>,
    rules: Rules,
    id: u64,
    e: Entity,
)
    requires
        w.wf(),
        w.lookup(id) == Some(e),
        e.is_projectile(),
        w.quiet(intents, rules, id),
    ensures
        w.ticked(intents, rules).lookup(id) == aged(moved(e, w.arena, rules.timestep)),
        ({
            &&& e.kind matches Kind::Projectile(p)
            &&& p.lifetime <= 1 ==> w.ticked(intents, rules).lookup(id) is None
            &&& p.lifetime > 1 ==> {
                &&& w.ticked(intents, rules).lookup(id) matches Some(r)
                &&& r.kind matches Kind::Projectile(q)
                &&& q.lifetime == p.lifetime - 1
                &&& q.velocity == p.velocity
                &&& q.damage == p.damage
                &&& q.owner == p.owner
            }
        }),
{
    let m = lemma_advanced(w, intents, rules, id, e);
    let mid = w.advanced(intents, rules);
    lemma_lookup_id(mid, id);
    let x = mid.locate(id)->0;
    assert forall|i: int| 0 <= i < mid.entities.len() implies mid.target_of(i) != Some(x) by {
        lemma_target_of(mid, i);
    }
    lemma_spared(mid, rules, x);
}

/// A projectile with `n` ticks left to live that strikes nothing and does
/// not reach the edge of the arena is still there after each of the next
/// `n - 1` ticks, with one tick less each time, and is gone after the `n`-th
/// tick.
pub proof fn lemma_expiry(
    w: World,
    script: Seq<Seq<Intent>>,
    rules: Rules,
    id: u64,
    e: Entity,
    k: int,
)
    requires
        w.wf(),
        w.lookup(id) == Some(e),
        e.kind matches Kind::Projectile(p) && p.lifetime == script.len(),
        forall|t: int|
            0 <= t < script.len() ==> (#[trigger] w.run(script.take(t), rules)).quiet(
                script[t],
                rules,
                id,
            ),
        0 <= k <= script.len(),
    ensures
        k < script.len() ==> {
            &&& w.run(script.take(k), rules).lookup(id) matches Some(r)
            &&& r.kind matches Kind::Projectile(q)
            &&& q.lifetime == script.len() - k
        },
        k == script.len() ==> w.run(script.take(k), rules).lookup(id) is None,
    decreases k,
{
    lemma_lookup_id(w, id);
    assert(e.legal(w.arena));
    if k == 0 {
        assert(script.take(0) =~= Seq::<Seq<Intent>>::empty());
    } else {
        lemma_expiry(w, script, rules, id, e, k - 1);
        lemma_run(w, script, rules, k - 1);
        let before = w.run(script.take(k - 1), rules);
        let r = before.lookup(id)->0;
        assert(before.quiet(script[k - 1], rules, id));
        lemma_projectile_fate(before, script[k - 1], rules, id, r);
    }
}

/// What becomes of an explosion in a tick: it ages by one tick, or ends if
/// it has then lasted its duration. Nothing else can happen to it.
pub proof fn lemma_explosion_fate(
    w: World,
    intents: Seq<Intent>,
    rules: Rules,
    id: u64,
    e: Entity,
)
    requires
        w.wf(),
        w.lookup(id) == Some(e),
        e.is_explosion(),
    ensures
        w.ticked(intents, rules).lookup(id) == aged(e),
        ({
            &&& e.kind matches Kind::Explosion(x)
            &&& x.elapsed + 1 >= x.duration ==> w.ticked(intents, rules).lookup(id) is None
            &&& x.elapsed + 1 < x.duration ==> {
                &&& w.ticked(intents, rules).lookup(id) matches Some(r)
                &&& r.kind matches Kind::Explosion(y)
                &&& y.elapsed == x.elapsed + 1
                &&& y.duration == x.duration
                &&& r.pos == e.pos
            }
        }),
{
    let m = lemma_advanced(w, intents, rules, id, e);
    let mid = w.advanced(intents, rules);
    lemma_lookup_id(mid, id);
    let x = mid.locate(id)->0;
    assert forall|i: int| 0 <= i < mid.entities.len() implies mid.target_of(i) != Some(x) by {
        lemma_target_of(mid, i);
    }
    lemma_target_of(mid, x);
    lemma_outcome(mid, x);
    lemma_spared(mid, rules, x);
}

/// An explosion that has just appeared is still there after each of the
/// next `duration - 1` ticks and is gone after the tick that completes its
/// duration.
pub proof fn lemma_explosion_lifecycle(
    w: World,
    script: Seq<Seq<Intent>>,
    rules: Rules,
    id: u64,
    e: Entity,
    k: int,
)
    requires
        w.wf(),
        w.lookup(id) == Some(e),
        e.kind matches Kind::Explosion(x) && x.elapsed == 0 && x.duration == script.len(),
        0 <= k <= script.len(),
    ensures
        k < script.len() ==> {
            &&& w.run(script.take(k), rules).lookup(id) matches Some(r)
            &&& r.kind matches Kind::Explosion(y)
            &&& y.elapsed == k
            &&& y.duration == script.len()
            &&& r.pos == e.pos
        },
        k == script.len() ==> w.run(script.take(k), rules).lookup(id) is None,
    decreases k,
{
    lemma_lookup_id(w, id);
    assert(e.legal(w.arena));
    if k == 0 {
        assert(script.take(0) =~= Seq::<Seq<Intent>>::empty());
    } else {
        lemma_explosion_lifecycle(w, script, rules, id, e, k - 1);
        lemma_run(w, script, rules, k - 1);
        let before = w.run(script.take(k - 1), rules);
        let r = before.lookup(id)->0;
        lemma_explosion_fate(before, script[k - 1], rules, id, r);
    }
}

} // verus!
