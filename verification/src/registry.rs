//! The entity registry: sole owner of every live entity.
//!
//! Entities are kept in the order in which they were spawned, which is also
//! the order of their identifiers. All other components refer to entities by
//! identifier and look them up again whenever they need them.

use crate::entity::{Entity, Kind, Team};
use crate::geometry::{boxes_overlap, overlaps, Arena, Point};
use vstd::prelude::*;

verus! {

/// The mathematical model of a registry.
pub struct World {
    pub arena: Arena,
    /// The live entities, oldest first.
    pub entities: Seq<Entity>,
    /// The identifier the next spawned entity receives.
    pub next_id: u64,
}

/// Identifiers grow strictly along the sequence.
pub open spec fn ascending(s: Seq<Entity>) -> bool {
    forall|i: int, j: int| 0 <= i < j < s.len() ==> s[i].id < s[j].id
}

impl World {
    /// The registry invariant.
    pub open spec fn wf(self) -> bool {
        &&& self.arena.valid()
        &&& ascending(self.entities)
        &&& forall|i: int| 0 <= i < self.entities.len() ==> self.entities[i].id < self.next_id
        &&& forall|i: int|
            0 <= i < self.entities.len() ==> (#[trigger] self.entities[i]).legal(self.arena)
    }

    /// Some entity carries the identifier `id`.
    pub open spec fn has(self, id: u64) -> bool {
        exists|i: int| 0 <= i < self.entities.len() && self.entities[i].id == id
    }

    /// The position in the sequence of the entity with identifier `id`.
    pub open spec fn locate(self, id: u64) -> Option<int> {
        if self.has(id) {
            Some(choose|i: int| 0 <= i < self.entities.len() && self.entities[i].id == id)
        } else {
            None
        }
    }

    /// The entity with identifier `id`.
    pub open spec fn lookup(self, id: u64) -> Option<Entity> {
        match self.locate(id) {
            Some(i) => Some(self.entities[i]),
            None => None,
        }
    }

    /// The entity a spawn request produces, if the request can be granted:
    /// identifiers must be left, the box must fit the arena, and the counters
    /// of `kind` must be live. The centre is moved to the nearest admissible
    /// position.
    pub open spec fn newcomer(self, center: Point, half: Point, team: Team, kind: Kind) -> Option<
        Entity,
    > {
        if self.next_id < u64::MAX && self.arena.admits(half) && kind.live() {
            let pos = self.arena.nearest(center.x as int, center.y as int, half);
            Some(Entity { id: self.next_id, pos, prev: pos, half, team, kind })
        } else {
            None
        }
    }

    /// The world after a spawn request.
    pub open spec fn spawned(self, center: Point, half: Point, team: Team, kind: Kind) -> World {
        match self.newcomer(center, half, team, kind) {
            Some(e) => World {
                entities: self.entities.push(e),
                next_id: (self.next_id + 1) as u64,
                ..self
            },
            None => self,
        }
    }

    /// The world with the entity at `index` exchanged for `entity`. Nothing
    /// changes unless the index is in range, the identifier stays the same
    /// and the new value is legal.
    pub open spec fn replaced(self, index: int, entity: Entity) -> World {
        if 0 <= index < self.entities.len() && self.entities[index].id == entity.id
            && entity.legal(self.arena) {
            World { entities: self.entities.update(index, entity), ..self }
        } else {
            self
        }
    }

    /// The world without the entity at `index`.
    pub open spec fn dropped(self, index: int) -> World {
        if 0 <= index < self.entities.len() {
            World { entities: self.entities.remove(index), ..self }
        } else {
            self
        }
    }

    /// The world without the entity that carries `id`.
    pub open spec fn without(self, id: u64) -> World {
        match self.locate(id) {
            Some(i) => self.dropped(i),
            None => self,
        }
    }

    /// The world with no entities left. Identifiers are not handed out again.
    pub open spec fn emptied(self) -> World {
        World { entities: Seq::empty(), ..self }
    }

    /// The identifiers, oldest first, of the entities among the first `n`
    /// whose box overlaps the given box.
    pub open spec fn overlapping_among(self, pos: Point, half: Point, n: int) -> Seq<u64>
        decreases n,
    {
        if n <= 0 {
            Seq::empty()
        } else {
            let rest = self.overlapping_among(pos, half, n - 1);
            let e = self.entities[n - 1];
            if boxes_overlap(pos, half, e.pos, e.half) {
                rest.push(e.id)
            } else {
                rest
            }
        }
    }

    /// The identifiers, oldest first, of all entities whose box overlaps the
    /// given box.
    pub open spec fn overlapping(self, pos: Point, half: Point) -> Seq<u64> {
        self.overlapping_among(pos, half, self.entities.len() as int)
    }
}

/// In a well-formed world an identifier occurs at one position only, and
/// `locate` finds it.
pub proof fn lemma_locate(w: World, i: int)
    requires
        ascending(w.entities),
        0 <= i < w.entities.len(),
    ensures
        w.has(w.entities[i].id),
        w.locate(w.entities[i].id) == Some(i),
        w.lookup(w.entities[i].id) == Some(w.entities[i]),
{
    let id = w.entities[i].id;
    let j = choose|j: int| 0 <= j < w.entities.len() && w.entities[j].id == id;
    if j < i {
        assert(w.entities[j].id < w.entities[i].id);
    } else if i < j {
        assert(w.entities[i].id < w.entities[j].id);
    }
}

/// What `lookup` returns carries the identifier that was asked for.
pub proof fn lemma_lookup_id(w: World, id: u64)
    ensures
        match w.locate(id) {
            Some(i) => 0 <= i < w.entities.len() && w.entities[i].id == id,
            None => forall|i: int| 0 <= i < w.entities.len() ==> w.entities[i].id != id,
        },
        w.lookup(id) matches Some(e) ==> e.id == id,
{
}

/// Spawning keeps a well-formed world well-formed.
pub proof fn lemma_spawned_wf(w: World, center: Point, half: Point, team: Team, kind: Kind)
    requires
        w.wf(),
    ensures
        w.spawned(center, half, team, kind).wf(),
{
    match w.newcomer(center, half, team, kind) {
        Some(e) => {
            crate::geometry::lemma_nearest(w.arena, center.x as int, center.y as int, half);
            let s = w.entities.push(e);
            assert forall|i: int, j: int| 0 <= i < j < s.len() implies s[i].id < s[j].id by {
                if j < w.entities.len() {
                    assert(w.entities[i].id < w.entities[j].id);
                }
            }
        },
        None => {},
    }
}

/// Replacing an entity keeps a well-formed world well-formed.
pub proof fn lemma_replaced_wf(w: World, index: int, entity: Entity)
    requires
        w.wf(),
    ensures
        w.replaced(index, entity).wf(),
{
    let r = w.replaced(index, entity);
    if r != w {
        assert forall|i: int, j: int| 0 <= i < j < r.entities.len() implies r.entities[i].id
            < r.entities[j].id by {
            assert(w.entities[i].id < w.entities[j].id);
        }
    }
}

/// Dropping an entity keeps a well-formed world well-formed.
pub proof fn lemma_dropped_wf(w: World, index: int)
    requires
        w.wf(),
    ensures
        w.dropped(index).wf(),
{
    let r = w.dropped(index);
    if 0 <= index < w.entities.len() {
        assert forall|i: int, j: int| 0 <= i < j < r.entities.len() implies r.entities[i].id
            < r.entities[j].id by {
            let a = if i < index {
                i
            } else {
                i + 1
            };
            let b = if j < index {
                j
            } else {
                j + 1
            };
            assert(w.entities[a].id < w.entities[b].id);
        }
        assert forall|i: int| 0 <= i < r.entities.len() implies (#[trigger] r.entities[i]).legal(
            r.arena,
        ) && r.entities[i].id < r.next_id by {
            let a = if i < index {
                i
            } else {
                i + 1
            };
            assert(w.entities[a].legal(w.arena));
        }
    }
}

/// Removing by identifier keeps a well-formed world well-formed.
pub proof fn lemma_without_wf(w: World, id: u64)
    requires
        w.wf(),
    ensures
        w.without(id).wf(),
{
    match w.locate(id) {
        Some(i) => lemma_dropped_wf(w, i),
        None => {},
    }
}

/// An identifier that no entity carries is not found.
pub proof fn lemma_lookup_none(w: World, id: u64)
    requires
        forall|i: int| 0 <= i < w.entities.len() ==> w.entities[i].id != id,
    ensures
        w.lookup(id) is None,
        !w.has(id),
{
}

/// What can be looked up after the entity at `index` has been dropped: all
/// that could be looked up before, except that entity.
pub proof fn lemma_lookup_dropped(w: World, index: int, id: u64)
    requires
        ascending(w.entities),
        0 <= index < w.entities.len(),
    ensures
        ascending(w.dropped(index).entities),
        w.dropped(index).lookup(id) == if id == w.entities[index].id {
            None
        } else {
            w.lookup(id)
        },
{
    let r = w.dropped(index);
    assert forall|i: int, j: int| 0 <= i < j < r.entities.len() implies r.entities[i].id
        < r.entities[j].id by {
        let a = if i < index {
            i
        } else {
            i + 1
        };
        let b = if j < index {
            j
        } else {
            j + 1
        };
        assert(w.entities[a].id < w.entities[b].id);
    }
    lemma_lookup_id(w, id);
    match w.locate(id) {
        Some(k) => {
            lemma_locate(w, k);
            if k == index {
                assert forall|i: int| 0 <= i < r.entities.len() implies r.entities[i].id != id by {
                    let a = if i < index {
                        i
                    } else {
                        i + 1
                    };
                    if a < k {
                        assert(w.entities[a].id < w.entities[k].id);
                    } else {
                        assert(w.entities[k].id < w.entities[a].id);
                    }
                }
                lemma_lookup_none(r, id);
            } else {
                let m = if k < index {
                    k
                } else {
                    k - 1
                };
                assert(r.entities[m] == w.entities[k]);
                lemma_locate(r, m);
            }
        },
        None => {
            assert forall|i: int| 0 <= i < r.entities.len() implies r.entities[i].id != id by {
                let a = if i < index {
                    i
                } else {
                    i + 1
                };
                assert(w.entities[a].id != id);
            }
            lemma_lookup_none(r, id);
        },
    }
}

/// What can be looked up after the entity `gone` has been removed: all that
/// could be looked up before, except `gone`.
pub proof fn lemma_lookup_without(w: World, gone: u64, id: u64)
    requires
        ascending(w.entities),
    ensures
        ascending(w.without(gone).entities),
        w.without(gone).lookup(id) == if id == gone {
            None
        } else {
            w.lookup(id)
        },
{
    lemma_lookup_id(w, gone);
    match w.locate(gone) {
        Some(i) => {
            lemma_lookup_dropped(w, i, id);
        },
        None => {},
    }
}

/// What can be looked up after an entity has been replaced: the new value
/// under its identifier, and everything else as before.
pub proof fn lemma_lookup_replaced(w: World, index: int, entity: Entity, id: u64)
    requires
        ascending(w.entities),
    ensures
        ascending(w.replaced(index, entity).entities),
        w.replaced(index, entity).lookup(id) == if 0 <= index < w.entities.len()
            && w.entities[index].id == entity.id && entity.legal(w.arena) && id == entity.id {
            Some(entity)
        } else {
            w.lookup(id)
        },
{
    let r = w.replaced(index, entity);
    if 0 <= index < w.entities.len() && w.entities[index].id == entity.id && entity.legal(
        w.arena,
    ) {
        assert forall|i: int, j: int| 0 <= i < j < r.entities.len() implies r.entities[i].id
            < r.entities[j].id by {
            assert(w.entities[i].id < w.entities[j].id);
        }
        lemma_lookup_id(w, id);
        if id == entity.id {
            lemma_locate(r, index);
        } else {
            match w.locate(id) {
                Some(k) => {
                    assert(r.entities[k] == w.entities[k]);
                    lemma_locate(w, k);
                    lemma_locate(r, k);
                },
                None => {
                    assert forall|i: int| 0 <= i < r.entities.len() implies r.entities[i].id
                        != id by {
                        assert(w.entities[i].id != id);
                    }
                    lemma_lookup_none(r, id);
                },
            }
        }
    }
}

/// What can be looked up after a spawn request: the newcomer under its new
/// identifier, and everything else as before.
pub proof fn lemma_lookup_spawned(
    w: World,
    center: Point,
    half: Point,
    team: Team,
    kind: Kind,
    id: u64,
)
    requires
        w.wf(),
    ensures
        w.spawned(center, half, team, kind).lookup(id) == match w.newcomer(
            center,
            half,
            team,
            kind,
        ) {
            Some(e) => if id == e.id {
                Some(e)
            } else {
                w.lookup(id)
            },
            None => w.lookup(id),
        },
{
    let r = w.spawned(center, half, team, kind);
    lemma_spawned_wf(w, center, half, team, kind);
    match w.newcomer(center, half, team, kind) {
        Some(e) => {
            lemma_lookup_id(w, id);
            if id == e.id {
                assert(r.entities[w.entities.len() as int] == e);
                lemma_locate(r, w.entities.len() as int);
            } else {
                match w.locate(id) {
                    Some(k) => {
                        assert(r.entities[k] == w.entities[k]);
                        lemma_locate(w, k);
                        lemma_locate(r, k);
                    },
                    None => {
                        assert forall|i: int| 0 <= i < r.entities.len() implies r.entities[i].id
                            != id by {
                            if i < w.entities.len() {
                                assert(w.entities[i].id != id);
                            }
                        }
                        lemma_lookup_none(r, id);
                    },
                }
            }
        },
        None => {},
    }
}

/// If two worlds carry the same identifiers at the same positions, an
/// identifier is found at the same position in both.
pub proof fn lemma_lookup_aligned(w: World, r: World, id: u64)
    requires
        ascending(w.entities),
        r.entities.len() == w.entities.len(),
        forall|i: int| 0 <= i < w.entities.len() ==> r.entities[i].id == w.entities[i].id,
    ensures
        ascending(r.entities),
        r.locate(id) == w.locate(id),
        w.locate(id) matches Some(k) ==> 0 <= k < r.entities.len() && r.lookup(id) == Some(
            r.entities[k],
        ) && w.lookup(id) == Some(w.entities[k]),
        w.locate(id) is None ==> r.lookup(id) is None,
{
    assert forall|i: int, j: int| 0 <= i < j < r.entities.len() implies r.entities[i].id
        < r.entities[j].id by {
        assert(w.entities[i].id < w.entities[j].id);
    }
    lemma_lookup_id(w, id);
    match w.locate(id) {
        Some(k) => {
            lemma_locate(r, k);
        },
        None => {
            assert forall|i: int| 0 <= i < r.entities.len() implies r.entities[i].id != id by {
                assert(w.entities[i].id != id);
            }
            lemma_lookup_none(r, id);
        },
    }
}

/// The registry of live entities.
pub struct Registry {
    arena: Arena,
    entities: Vec<Entity>,
    next_id: u64,
}

impl View for Registry {
    type V = World;

    closed spec fn view(&self) -> World {
        World { arena: self.arena, entities: self.entities@, next_id: self.next_id }
    }
}

impl Registry {
    /// The registry invariant: the model is well-formed.
    pub open spec fn wf(&self) -> bool {
        self@.wf()
    }

    /// An empty registry over `arena`, or `None` if the bounds of the arena
    /// are not ordered.
    pub fn new(arena: Arena) -> (r: Option<Registry>)
        ensures
            r is Some <==> arena.valid(),
            r matches Some(reg) ==> reg.wf() && reg@ == (World {
                arena,
                entities: Seq::empty(),
                next_id: 0,
            }),
    {
        if arena.is_valid() {
            Some(Registry { arena, entities: Vec::new(), next_id: 0 })
        } else {
            None
        }
    }

    /// The arena the registry was made for.
    pub fn arena(&self) -> (a: Arena)
        ensures
            a == self@.arena,
    {
        self.arena
    }

    /// The number of live entities.
    pub fn len(&self) -> (n: usize)
        ensures
            n == self@.entities.len(),
    {
        self.entities.len()
    }

    /// The entity at position `index`, counted from the oldest.
    pub fn entity_at(&self, index: usize) -> (e: Option<Entity>)
        ensures
            e == if index < self@.entities.len() {
                Some(self@.entities[index as int])
            } else {
                None
            },
    {
        if index < self.entities.len() {
            Some(self.entities[index])
        } else {
            None
        }
    }

    /// The position of the entity with identifier `id`.
    pub fn find(&self, id: u64) -> (r: Option<usize>)
        requires
            self.wf(),
        ensures
            match r {
                Some(i) => self@.locate(id) == Some(i as int),
                None => self@.locate(id) is None,
            },
            r matches Some(i) ==> i < self@.entities.len() && self@.entities[i as int].id == id,
            r is Some <==> self@.has(id),
    {
        let mut i: usize = 0;
        while i < self.entities.len()
            invariant
                i <= self.entities.len(),
                self.wf(),
                forall|k: int| 0 <= k < i ==> self@.entities[k].id != id,
            decreases self.entities.len() - i,
        {
            if self.entities[i].id == id {
                proof {
                    lemma_locate(self@, i as int);
                }
                return Some(i);
            }
            i += 1;
        }
        None
    }

    /// The entity with identifier `id`.
    pub fn get(&self, id: u64) -> (r: Option<Entity>)
        requires
            self.wf(),
        ensures
            r == self@.lookup(id),
    {
        match self.find(id) {
            Some(i) => Some(self.entities[i]),
            None => None,
        }
    }

    /// Spawns an entity as near to `center` as the arena allows and returns
    /// its identifier. The request is refused, and nothing changes, if the
    /// identifiers are used up, the box does not fit the arena, or the
    /// counters of `kind` are not live.
    pub fn spawn(&mut self, center: Point, half: Point, team: Team, kind: Kind) -> (id: Option<u64>)
        requires
            old(self).wf(),
        ensures
            final(self).wf(),
            final(self)@ == old(self)@.spawned(center, half, team, kind),
            final(self)@.arena == old(self)@.arena,
            id == match old(self)@.newcomer(center, half, team, kind) {
                Some(e) => Some(e.id),
                None => None,
            },
    {
        if self.next_id < u64::MAX && self.arena.can_admit(half) && kind.is_live() {
            let pos = self.arena.clamp(center.x as i64, center.y as i64, half);
            let id = self.next_id;
            proof {
                lemma_spawned_wf(self@, center, half, team, kind);
            }
            self.entities.push(Entity { id, pos, prev: pos, half, team, kind });
            self.next_id = id + 1;
            Some(id)
        } else {
            None
        }
    }

    /// Exchanges the entity at `index` for `entity` and reports whether it
    /// did. Nothing changes unless the index is in range, the identifier
    /// stays the same and the new value is legal.
    pub fn replace(&mut self, index: usize, entity: Entity) -> (done: bool)
        requires
            old(self).wf(),
        ensures
            final(self).wf(),
            final(self)@ == old(self)@.replaced(index as int, entity),
            final(self)@.arena == old(self)@.arena,
            done == (index < old(self)@.entities.len() && old(self)@.entities[index as int].id
                == entity.id && entity.legal(old(self)@.arena)),
    {
        if index < self.entities.len() && self.entities[index].id == entity.id && entity.is_legal(
            &self.arena,
        ) {
            proof {
                lemma_replaced_wf(self@, index as int, entity);
            }
            self.entities.set(index, entity);
            true
        } else {
            false
        }
    }

    /// Removes and returns the entity at `index`.
    pub fn remove_at(&mut self, index: usize) -> (gone: Option<Entity>)
        requires
            old(self).wf(),
        ensures
            final(self).wf(),
            final(self)@ == old(self)@.dropped(index as int),
            final(self)@.arena == old(self)@.arena,
            gone == if index < old(self)@.entities.len() {
                Some(old(self)@.entities[index as int])
            } else {
                None
            },
    {
        if index < self.entities.len() {
            proof {
                lemma_dropped_wf(self@, index as int);
            }
            let e = self.entities.remove(index);
            Some(e)
        } else {
            None
        }
    }

    /// Removes and returns the entity with identifier `id`.
    pub fn remove(&mut self, id: u64) -> (gone: Option<Entity>)
        requires
            old(self).wf(),
        ensures
            final(self).wf(),
            final(self)@ == old(self)@.without(id),
            final(self)@.arena == old(self)@.arena,
            gone == old(self)@.lookup(id),
    {
        match self.find(id) {
            Some(i) => self.remove_at(i),
            None => None,
        }
    }

    /// Removes every entity.
    pub fn clear(&mut self)
        requires
            old(self).wf(),
        ensures
            final(self).wf(),
            final(self)@ == old(self)@.emptied(),
            final(self)@.arena == old(self)@.arena,
    {
        self.entities.clear();
    }

    /// A copy of all live entities, oldest first.
    pub fn snapshot(&self) -> (all: Vec<Entity>)
        ensures
            all@ == self@.entities,
    {
        let mut all: Vec<Entity> = Vec::new();
        let mut i: usize = 0;
        while i < self.entities.len()
            invariant
                i <= self.entities.len(),
                all@ == self.entities@.take(i as int),
            decreases self.entities.len() - i,
        {
            all.push(self.entities[i]);
            i += 1;
        }
        all
    }

    /// The identifiers, oldest first, of all entities whose box overlaps the
    /// box centred at `pos`.
    pub fn query(&self, pos: Point, half: Point) -> (ids: Vec<u64>)
        ensures
            ids@ == self@.overlapping(pos, half),
    {
        let mut ids: Vec<u64> = Vec::new();
        let mut i: usize = 0;
        while i < self.entities.len()
            invariant
                i <= self.entities.len(),
                ids@ == self@.overlapping_among(pos, half, i as int),
            decreases self.entities.len() - i,
        {
            let e = self.entities[i];
            if overlaps(pos, half, e.pos, e.half) {
                ids.push(e.id);
            }
            i += 1;
        }
        ids
    }
}

/// The spatial query lists exactly the entities whose box overlaps the
/// queried box.
pub proof fn lemma_overlapping(w: World, pos: Point, half: Point, n: int, id: u64)
    requires
        0 <= n <= w.entities.len(),
    ensures
        w.overlapping_among(pos, half, n).contains(id) <==> exists|i: int|
            0 <= i < n && w.entities[i].id == id && boxes_overlap(
                pos,
                half,
                w.entities[i].pos,
                w.entities[i].half,
            ),
    decreases n,
{
    if n > 0 {
        lemma_overlapping(w, pos, half, n - 1, id);
        let rest = w.overlapping_among(pos, half, n - 1);
        let e = w.entities[n - 1];
        if boxes_overlap(pos, half, e.pos, e.half) {
            let all = rest.push(e.id);
            assert(all[all.len() - 1] == e.id);
            if rest.contains(id) {
                let k = choose|k: int| 0 <= k < rest.len() && rest[k] == id;
                assert(all[k] == id);
            }
            if all.contains(id) {
                let k = choose|k: int| 0 <= k < all.len() && all[k] == id;
                if k < rest.len() {
                    assert(rest[k] == id);
                }
            }
        }
    }
}

} // verus!
