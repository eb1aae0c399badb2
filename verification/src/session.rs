//! The session state machine and the tick that drives everything else.
//!
//! A session waits in the menu, is played while active, and ends in a
//! terminal state once a team has no character left. Only three transitions
//! exist: start (menu to active), elimination (active to terminal) and reset
//! (terminal to menu). Every other command is ignored.

use crate::collision::Event;
use crate::entity::{Character, Entity, Kind, Material, Obstacle, Team};
use crate::geometry::{Arena, Direction, Point};
use crate::lifecycle::{
    lemma_applied_all_wf, lemma_matured_wf, lemma_obeyed_all_wf, Intent,
};
use crate::registry::{lemma_spawned_wf, Registry, World};
use crate::rules::Rules;
use vstd::prelude::*;

verus! {

/// Where a session stands.
#[derive(Clone, Copy, Debug, PartialEq, Eq, Structural)]
pub enum Phase {
    /// Waiting for a start command; nothing is simulated.
    Menu,
    /// A match is being played.
    Active,
    /// The match is over and its outcome can be read.
    Terminal,
}

/// How many players take part in a match.
#[derive(Clone, Copy, Debug, PartialEq, Eq, Structural)]
pub enum Mode {
    SinglePlayer,
    TwoPlayer,
}

/// How a match ended.
#[derive(Clone, Copy, Debug, PartialEq, Eq, Structural)]
pub enum Outcome {
    /// The other team has no character left.
    Won(Team),
    /// Neither team has a character left.
    Draw,
}

/// Why a session could not be started.
#[derive(Clone, Copy, Debug, PartialEq, Eq)]
pub enum SetupError {
    /// The bounds of the arena are not ordered.
    Arena,
    /// The rules cannot be played in the arena.
    Rules,
    /// The obstacle descriptor at `index` is malformed.
    Obstacle { index: usize },
    /// The start position at `index` of the roster lies outside the arena.
    Start { index: usize },
}

/// Description of one wall segment of a level.
#[derive(Clone, Copy, Debug, PartialEq, Eq)]
pub struct ObstacleSpec {
    pub pos: Point,
    pub half: Point,
    pub material: Material,
    /// Initial health of a breakable segment; unused otherwise.
    pub health: u32,
}

/// What the level supplies: the arena, its obstacles and where characters
/// start.
#[derive(Debug, PartialEq, Eq)]
pub struct Level {
    pub arena: Arena,
    pub obstacles: Vec<ObstacleSpec>,
    pub first_player: Point,
    /// Used in two-player mode only.
    pub second_player: Point,
    pub enemies: Vec<Point>,
}

/// Where a character of which team starts.
#[derive(Clone, Copy, Debug, PartialEq, Eq)]
pub struct Start {
    pub pos: Point,
    pub team: Team,
}

/// The mathematical model of a session.
pub struct State {
    pub rules: Rules,
    pub arena: Arena,
    pub obstacles: Seq<ObstacleSpec>,
    pub first_player: Point,
    pub second_player: Point,
    pub enemies: Seq<Point>,
    pub phase: Phase,
    pub mode: Mode,
    pub outcome: Option<Outcome>,
    /// Enemy characters destroyed since the session was started.
    pub score: u32,
    pub world: World,
}

impl ObstacleSpec {
    /// The descriptor is well-formed: the box has positive extents and lies
    /// inside the arena, and a breakable segment has health.
    pub open spec fn sound(self, arena: Arena) -> bool {
        &&& self.half.x > 0
        &&& self.half.y > 0
        &&& arena.holds(self.pos, self.half)
        &&& self.material == Material::Breakable ==> self.health > 0
    }

    /// The obstacle the descriptor stands for.
    pub open spec fn kind(self) -> Kind {
        Kind::Obstacle(Obstacle { material: self.material, health: self.health })
    }

    /// Whether the descriptor is well-formed for `arena`.
    pub fn is_sound(&self, arena: &Arena) -> (ok: bool)
        ensures
            ok == self.sound(*arena),
    {
        let alive = match self.material {
            Material::Breakable => self.health > 0,
            Material::Indestructible => true,
        };
        self.half.x > 0 && self.half.y > 0 && arena.contains_box(self.pos, self.half) && alive
    }
}

/// The character that starts for `team`: at rest, unhurt, ready to attack and
/// shielded for as long as the rules grant. Players face up, all others down.
pub open spec fn recruit(rules: Rules, team: Team) -> Kind {
    Kind::Character(
        Character {
            velocity: Point { x: 0, y: 0 },
            facing: if team == Team::Players {
                Direction::Up
            } else {
                Direction::Down
            },
            health: rules.character_health,
            shield_active: rules.shield_ticks > 0,
            shield_timer: rules.shield_ticks,
            cooldown: 0,
        },
    )
}

/// The characters of a match, in the order in which they are spawned: the
/// first player, the second player in two-player mode, then the enemies.
pub open spec fn roster(
    first_player: Point,
    second_player: Point,
    enemies: Seq<Point>,
    mode: Mode,
) -> Seq<Start> {
    let players = if mode == Mode::TwoPlayer {
        seq![
            Start { pos: first_player, team: Team::Players },
            Start { pos: second_player, team: Team::Players },
        ]
    } else {
        seq![Start { pos: first_player, team: Team::Players }]
    };
    players + enemies.map_values(|p: Point| Start { pos: p, team: Team::Enemies })
}

/// How many characters of `team` are among the entities.
pub open spec fn headcount(s: Seq<Entity>, team: Team) -> nat
    decreases s.len(),
{
    if s.len() == 0 {
        0
    } else {
        headcount(s.drop_last(), team) + if s.last().is_character() && s.last().team == team {
            1nat
        } else {
            0nat
        }
    }
}

/// The outcome a world calls for: none while both sides have a character
/// left, a win for the side that alone has one, a draw if neither has.
pub open spec fn verdict(w: World) -> Option<Outcome> {
    let players = headcount(w.entities, Team::Players) > 0;
    let enemies = headcount(w.entities, Team::Enemies) > 0;
    if players && enemies {
        None
    } else if players {
        Some(Outcome::Won(Team::Players))
    } else if enemies {
        Some(Outcome::Won(Team::Enemies))
    } else {
        Some(Outcome::Draw)
    }
}

/// The score after a tick in which the number of enemy characters went from
/// `before` to `after`: one more for each that is gone, up to the limit of
/// the counter.
pub open spec fn tally(score: u32, before: nat, after: nat) -> u32 {
    if before <= after {
        score
    } else if score + (before - after) > u32::MAX {
        u32::MAX
    } else {
        (score + (before - after)) as u32
    }
}

impl World {
    /// The world with the obstacles of a level spawned in order.
    pub open spec fn walled(self, obstacles: Seq<ObstacleSpec>) -> World
        decreases obstacles.len(),
    {
        if obstacles.len() == 0 {
            self
        } else {
            let o = obstacles.last();
            self.walled(obstacles.drop_last()).spawned(o.pos, o.half, Team::Neutral, o.kind())
        }
    }

    /// The world with one character spawned for every start, in order.
    pub open spec fn manned(self, starts: Seq<Start>, rules: Rules) -> World
        decreases starts.len(),
    {
        if starts.len() == 0 {
            self
        } else {
            let s = starts.last();
            self.manned(starts.drop_last(), rules).spawned(
                s.pos,
                rules.character_half,
                s.team,
                recruit(rules, s.team),
            )
        }
    }

    /// The world in the middle of a tick: intents followed, entities moved,
    /// characters settled.
    pub open spec fn advanced(self, intents: Seq<Intent>, rules: Rules) -> World {
        self.obeyed_all(intents, rules).integrated(rules.timestep).settled()
    }

    /// The world after one tick: intents are followed, everything moves,
    /// characters are settled, collisions are resolved on the positions so
    /// reached, all timers age, and the events of the collisions are carried
    /// out.
    pub open spec fn ticked(self, intents: Seq<Intent>, rules: Rules) -> World {
        let mid = self.advanced(intents, rules);
        mid.matured().applied_all(mid.events(), rules)
    }
}

impl State {
    /// The session can be started in `mode`: the arena is valid, the rules fit
    /// it, and every obstacle descriptor and start position is sound.
    pub open spec fn playable(self, mode: Mode) -> bool {
        &&& self.arena.valid()
        &&& self.rules.fit(self.arena)
        &&& forall|i: int|
            0 <= i < self.obstacles.len() ==> (#[trigger] self.obstacles[i]).sound(self.arena)
        &&& forall|i: int|
            0 <= i < self.starts(mode).len() ==> self.arena.holds(
                (#[trigger] self.starts(mode)[i]).pos,
                self.rules.character_half,
            )
    }

    /// The roster of a match in `mode`.
    pub open spec fn starts(self, mode: Mode) -> Seq<Start> {
        roster(self.first_player, self.second_player, self.enemies, mode)
    }

    /// The reason for which a start in `mode` fails with `error`. Each error
    /// names the first thing that is wrong, in the order arena, rules,
    /// obstacles, start positions.
    pub open spec fn refuses(self, mode: Mode, error: SetupError) -> bool {
        match error {
            SetupError::Arena => !self.arena.valid(),
            SetupError::Rules => self.arena.valid() && !self.rules.fit(self.arena),
            SetupError::Obstacle { index } => {
                &&& self.arena.valid()
                &&& self.rules.fit(self.arena)
                &&& index < self.obstacles.len()
                &&& !self.obstacles[index as int].sound(self.arena)
                &&& forall|i: int|
                    0 <= i < index ==> (#[trigger] self.obstacles[i]).sound(self.arena)
            },
            SetupError::Start { index } => {
                &&& self.arena.valid()
                &&& self.rules.fit(self.arena)
                &&& forall|i: int|
                    0 <= i < self.obstacles.len() ==> (#[trigger] self.obstacles[i]).sound(
                        self.arena,
                    )
                &&& index < self.starts(mode).len()
                &&& !self.arena.holds(self.starts(mode)[index as int].pos, self.rules.character_half)
                &&& forall|i: int|
                    0 <= i < index ==> self.arena.holds(
                        (#[trigger] self.starts(mode)[i]).pos,
                        self.rules.character_half,
                    )
            },
        }
    }

    /// The world a match in `mode` begins with: the obstacles of the level,
    /// then the characters of the roster.
    pub open spec fn populated(self, mode: Mode) -> World {
        (World { arena: self.arena, entities: Seq::empty(), next_id: 0 }).walled(
            self.obstacles,
        ).manned(self.starts(mode), self.rules)
    }

    /// The session after a start command. In the menu, a playable session
    /// becomes active with a freshly populated world; anywhere else, and if
    /// the session is not playable, nothing changes.
    pub open spec fn started(self, mode: Mode) -> State {
        if self.phase == Phase::Menu && self.playable(mode) {
            State {
                phase: Phase::Active,
                mode,
                outcome: None,
                score: 0,
                world: self.populated(mode),
                ..self
            }
        } else {
            self
        }
    }

    /// The session after a reset command. A terminal session returns to the
    /// menu with nothing left in its world and its score cleared; anywhere
    /// else nothing changes.
    pub open spec fn reset(self) -> State {
        if self.phase == Phase::Terminal {
            State {
                phase: Phase::Menu,
                outcome: None,
                score: 0,
                world: self.world.emptied(),
                ..self
            }
        } else {
            self
        }
    }

    /// The session after one tick. Only an active session is simulated; it
    /// becomes terminal as soon as the world calls for an outcome.
    pub open spec fn ticked(self, intents: Seq<Intent>) -> State {
        if self.phase == Phase::Active {
            let world = self.world.ticked(intents, self.rules);
            let outcome = verdict(world);
            State {
                phase: if outcome is Some {
                    Phase::Terminal
                } else {
                    Phase::Active
                },
                outcome,
                score: tally(
                    self.score,
                    headcount(self.world.entities, Team::Enemies),
                    headcount(world.entities, Team::Enemies),
                ),
                world,
                ..self
            }
        } else {
            self
        }
    }

    /// The events of the tick that `ticked` describes.
    pub open spec fn tick_events(self, intents: Seq<Intent>) -> Seq<Event> {
        if self.phase == Phase::Active {
            self.world.advanced(intents, self.rules).events()
        } else {
            Seq::empty()
        }
    }

    /// The session invariant.
    pub open spec fn wf(self) -> bool {
        &&& self.world.wf()
        &&& self.phase == Phase::Terminal <==> self.outcome is Some
        &&& self.phase == Phase::Menu ==> self.world.entities.len() == 0 && self.score == 0
        &&& self.phase != Phase::Menu ==> self.world.arena == self.arena && self.rules.fit(
            self.arena,
        )
    }
}

/// A world stays well-formed while obstacles are spawned.
pub proof fn lemma_walled_wf(w: World, obstacles: Seq<ObstacleSpec>)
    requires
        w.wf(),
    ensures
        w.walled(obstacles).wf(),
        w.walled(obstacles).arena == w.arena,
    decreases obstacles.len(),
{
    if obstacles.len() > 0 {
        let o = obstacles.last();
        lemma_walled_wf(w, obstacles.drop_last());
        lemma_spawned_wf(w.walled(obstacles.drop_last()), o.pos, o.half, Team::Neutral, o.kind());
    }
}

/// A world stays well-formed while characters are spawned.
pub proof fn lemma_manned_wf(w: World, starts: Seq<Start>, rules: Rules)
    requires
        w.wf(),
    ensures
        w.manned(starts, rules).wf(),
        w.manned(starts, rules).arena == w.arena,
    decreases starts.len(),
{
    if starts.len() > 0 {
        let s = starts.last();
        lemma_manned_wf(w, starts.drop_last(), rules);
        lemma_spawned_wf(
            w.manned(starts.drop_last(), rules),
            s.pos,
            rules.character_half,
            s.team,
            recruit(rules, s.team),
        );
    }
}

/// A tick keeps a well-formed world well-formed.
pub proof fn lemma_ticked_wf(w: World, intents: Seq<Intent>, rules: Rules)
    requires
        w.wf(),
    ensures
        w.advanced(intents, rules).wf(),
        w.advanced(intents, rules).arena == w.arena,
        w.ticked(intents, rules).wf(),
        w.ticked(intents, rules).arena == w.arena,
{
    lemma_obeyed_all_wf(w, intents, rules);
    let a = w.obeyed_all(intents, rules);
    crate::movement::lemma_integrated_wf(a, rules.timestep);
    let b = a.integrated(rules.timestep);
    crate::collision::lemma_settled_wf(b);
    let mid = b.settled();
    lemma_matured_wf(mid);
    lemma_applied_all_wf(mid.matured(), mid.events(), rules);
}

/// Starting, resetting and ticking keep the session invariant.
pub proof fn lemma_session_wf(s: State, mode: Mode, intents: Seq<Intent>)
    requires
        s.wf(),
    ensures
        s.started(mode).wf(),
        s.reset().wf(),
        s.ticked(intents).wf(),
{
    if s.phase == Phase::Menu && s.playable(mode) {
        let empty = World { arena: s.arena, entities: Seq::empty(), next_id: 0 };
        lemma_walled_wf(empty, s.obstacles);
        lemma_manned_wf(empty.walled(s.obstacles), s.starts(mode), s.rules);
    }
    if s.phase == Phase::Active {
        lemma_ticked_wf(s.world, intents, s.rules);
    }
}

/// A team has a head to count exactly if one of the entities is a character
/// of that team.
pub proof fn lemma_headcount(s: Seq<Entity>, team: Team)
    ensures
        headcount(s, team) <= s.len(),
        headcount(s, team) > 0 <==> exists|i: int|
            0 <= i < s.len() && (#[trigger] s[i]).is_character() && s[i].team == team,
    decreases s.len(),
{
    if s.len() > 0 {
        let front = s.drop_last();
        lemma_headcount(front, team);
        if headcount(front, team) > 0 {
            let i = choose|i: int|
                0 <= i < front.len() && (#[trigger] front[i]).is_character() && front[i].team
                    == team;
            assert(s[i].is_character() && s[i].team == team);
        }
        if exists|i: int|
            0 <= i < s.len() && (#[trigger] s[i]).is_character() && s[i].team == team {
            let i = choose|i: int|
                0 <= i < s.len() && (#[trigger] s[i]).is_character() && s[i].team == team;
            if i < front.len() {
                assert(front[i].is_character() && front[i].team == team);
            }
        }
    }
}

/// The verdict in terms of who is left: a match goes on while both sides
/// have a character, the players win once no enemy character is left, they
/// lose once no player character is left, and it is a draw if both happen
/// in the same tick.
pub proof fn lemma_verdict(w: World)
    ensures
        ({
            let players = exists|i: int|
                0 <= i < w.entities.len() && (#[trigger] w.entities[i]).is_character()
                    && w.entities[i].team == Team::Players;
            let enemies = exists|i: int|
                0 <= i < w.entities.len() && (#[trigger] w.entities[i]).is_character()
                    && w.entities[i].team == Team::Enemies;
            &&& verdict(w) is None <==> players && enemies
            &&& verdict(w) == Some(Outcome::Won(Team::Players)) <==> players && !enemies
            &&& verdict(w) == Some(Outcome::Won(Team::Enemies)) <==> !players && enemies
            &&& verdict(w) == Some(Outcome::Draw) <==> !players && !enemies
        }),
{
    lemma_headcount(w.entities, Team::Players);
    lemma_headcount(w.entities, Team::Enemies);
}

/// A tick ends an active session exactly when the world it leaves calls
/// for an outcome, and that outcome is the one recorded.
pub proof fn lemma_elimination(s: State, intents: Seq<Intent>)
    requires
        s.phase == Phase::Active,
    ensures
        s.ticked(intents).outcome == verdict(s.world.ticked(intents, s.rules)),
        s.ticked(intents).phase == Phase::Terminal <==> verdict(
            s.world.ticked(intents, s.rules),
        ) is Some,
        s.ticked(intents).phase == Phase::Active <==> verdict(
            s.world.ticked(intents, s.rules),
        ) is None,
        s.ticked(intents).mode == s.mode,
{
}

/// The obstacle that the descriptor `o` becomes when it is spawned as `id`.
pub open spec fn wall_entity(o: ObstacleSpec, id: u64) -> Entity {
    Entity { id, pos: o.pos, prev: o.pos, half: o.half, team: Team::Neutral, kind: o.kind() }
}

/// The character that starts at `s` when it is spawned as `id`.
pub open spec fn recruit_entity(s: Start, rules: Rules, id: u64) -> Entity {
    Entity {
        id,
        pos: s.pos,
        prev: s.pos,
        half: rules.character_half,
        team: s.team,
        kind: recruit(rules, s.team),
    }
}

/// How many starts are for `team`.
pub open spec fn enlisted(starts: Seq<Start>, team: Team) -> nat
    decreases starts.len(),
{
    if starts.len() == 0 {
        0
    } else {
        enlisted(starts.drop_last(), team) + if starts.last().team == team {
            1nat
        } else {
            0nat
        }
    }
}

/// Sound obstacles are all spawned, each exactly as described, as long as
/// identifiers are left.
pub proof fn lemma_walled(w: World, obstacles: Seq<ObstacleSpec>)
    requires
        w.wf(),
        w.next_id + obstacles.len() <= u64::MAX,
        forall|i: int| 0 <= i < obstacles.len() ==> (#[trigger] obstacles[i]).sound(w.arena),
    ensures
        w.walled(obstacles).next_id == w.next_id + obstacles.len(),
        w.walled(obstacles).entities == w.entities + Seq::new(
            obstacles.len(),
            |i: int| wall_entity(obstacles[i], (w.next_id + i) as u64),
        ),
        headcount(w.walled(obstacles).entities, Team::Players) == headcount(
            w.entities,
            Team::Players,
        ),
        headcount(w.walled(obstacles).entities, Team::Enemies) == headcount(
            w.entities,
            Team::Enemies,
        ),
    decreases obstacles.len(),
{
    let all = w.entities + Seq::new(
        obstacles.len(),
        |i: int| wall_entity(obstacles[i], (w.next_id + i) as u64),
    );
    if obstacles.len() == 0 {
        assert(w.entities =~= all);
    } else {
        let front = obstacles.drop_last();
        let o = obstacles.last();
        assert forall|i: int| 0 <= i < front.len() implies (#[trigger] front[i]).sound(
            w.arena,
        ) by {
            assert(front[i] == obstacles[i]);
        }
        lemma_walled(w, front);
        lemma_walled_wf(w, front);
        let mid = w.walled(front);
        assert(o.sound(w.arena));
        crate::geometry::lemma_nearest(mid.arena, o.pos.x as int, o.pos.y as int, o.half);
        let e = mid.newcomer(o.pos, o.half, Team::Neutral, o.kind())->0;
        assert(e == wall_entity(o, mid.next_id));
        assert(w.walled(obstacles).entities =~= all);
        assert(all.drop_last() =~= mid.entities);
    }
}

/// Characters are all spawned, each at its start position, as long as the
/// positions lie inside the arena, the rules fit it and identifiers are
/// left.
pub proof fn lemma_manned(w: World, starts: Seq<Start>, rules: Rules, team: Team)
    requires
        w.wf(),
        rules.fit(w.arena),
        w.next_id + starts.len() <= u64::MAX,
        forall|i: int|
            0 <= i < starts.len() ==> w.arena.holds((#[trigger] starts[i]).pos, rules.character_half),
    ensures
        w.manned(starts, rules).next_id == w.next_id + starts.len(),
        w.manned(starts, rules).entities == w.entities + Seq::new(
            starts.len(),
            |i: int| recruit_entity(starts[i], rules, (w.next_id + i) as u64),
        ),
        headcount(w.manned(starts, rules).entities, team) == headcount(w.entities, team)
            + enlisted(starts, team),
    decreases starts.len(),
{
    let all = w.entities + Seq::new(
        starts.len(),
        |i: int| recruit_entity(starts[i], rules, (w.next_id + i) as u64),
    );
    if starts.len() == 0 {
        assert(w.entities =~= all);
    } else {
        let front = starts.drop_last();
        let s = starts.last();
        assert forall|i: int| 0 <= i < front.len() implies w.arena.holds(
            (#[trigger] front[i]).pos,
            rules.character_half,
        ) by {
            assert(front[i] == starts[i]);
        }
        lemma_manned(w, front, rules, team);
        lemma_manned_wf(w, front, rules);
        let mid = w.manned(front, rules);
        assert(w.arena.holds(starts[starts.len() - 1].pos, rules.character_half));
        crate::geometry::lemma_nearest(
            mid.arena,
            s.pos.x as int,
            s.pos.y as int,
            rules.character_half,
        );
        let e = mid.newcomer(s.pos, rules.character_half, s.team, recruit(rules, s.team))->0;
        assert(e == recruit_entity(s, rules, mid.next_id));
        assert(w.manned(starts, rules).entities =~= all);
        assert(all.drop_last() =~= mid.entities);
    }
}

/// The roster holds one player, or two in two-player mode, and one enemy for
/// every enemy start of the level.
pub proof fn lemma_roster(first_player: Point, second_player: Point, enemies: Seq<Point>, mode: Mode)
    ensures
        enlisted(roster(first_player, second_player, enemies, mode), Team::Players) == if mode
            == Mode::TwoPlayer {
            2nat
        } else {
            1nat
        },
        enlisted(roster(first_player, second_player, enemies, mode), Team::Enemies)
            == enemies.len(),
        roster(first_player, second_player, enemies, mode).len() == enemies.len() + if mode
            == Mode::TwoPlayer {
            2nat
        } else {
            1nat
        },
    decreases enemies.len(),
{
    let all = roster(first_player, second_player, enemies, mode);
    if enemies.len() == 0 {
        let one = seq![Start { pos: first_player, team: Team::Players }];
        let two = seq![
            Start { pos: first_player, team: Team::Players },
            Start { pos: second_player, team: Team::Players },
        ];
        assert(one.drop_last() =~= Seq::<Start>::empty());
        assert(two.drop_last() =~= one);
        assert(enlisted(one.drop_last(), Team::Players) == 0);
        assert(enlisted(one.drop_last(), Team::Enemies) == 0);
        assert(enlisted(one, Team::Players) == 1);
        assert(enlisted(one, Team::Enemies) == 0);
        if mode == Mode::TwoPlayer {
            assert(all =~= two);
        } else {
            assert(all =~= one);
        }
    } else {
        lemma_roster(first_player, second_player, enemies.drop_last(), mode);
        assert(all.drop_last() =~= roster(
            first_player,
            second_player,
            enemies.drop_last(),
            mode,
        ));
    }
}

/// Starting a playable session from the menu makes it active with exactly
/// the obstacles of the level, one player character (two in two-player
/// mode) and one enemy character for every enemy start, each where the
/// level puts it.
pub proof fn lemma_started(s: State, mode: Mode)
    requires
        s.phase == Phase::Menu,
        s.playable(mode),
        s.obstacles.len() + s.enemies.len() + 2 <= u64::MAX,
    ensures
        s.started(mode).phase == Phase::Active,
        s.started(mode).mode == mode,
        s.started(mode).outcome is None,
        s.started(mode).score == 0,
        s.started(mode).world.entities == Seq::new(
            s.obstacles.len(),
            |i: int| wall_entity(s.obstacles[i], i as u64),
        ) + Seq::new(
            s.starts(mode).len(),
            |i: int| recruit_entity(s.starts(mode)[i], s.rules, (s.obstacles.len() + i) as u64),
        ),
        headcount(s.started(mode).world.entities, Team::Players) == if mode == Mode::TwoPlayer {
            2nat
        } else {
            1nat
        },
        headcount(s.started(mode).world.entities, Team::Enemies) == s.enemies.len(),
{
    let empty = World { arena: s.arena, entities: Seq::empty(), next_id: 0 };
    lemma_roster(s.first_player, s.second_player, s.enemies, mode);
    lemma_walled(empty, s.obstacles);
    lemma_walled_wf(empty, s.obstacles);
    let walls = empty.walled(s.obstacles);
    lemma_manned(walls, s.starts(mode), s.rules, Team::Players);
    lemma_manned(walls, s.starts(mode), s.rules, Team::Enemies);
    assert(walls.entities =~= Seq::new(
        s.obstacles.len(),
        |i: int| wall_entity(s.obstacles[i], i as u64),
    ));
    assert(Seq::new(
        s.starts(mode).len(),
        |i: int| recruit_entity(s.starts(mode)[i], s.rules, (walls.next_id + i) as u64),
    ) =~= Seq::new(
        s.starts(mode).len(),
        |i: int| recruit_entity(s.starts(mode)[i], s.rules, (s.obstacles.len() + i) as u64),
    ));
    assert(headcount(empty.entities, Team::Players) == 0);
    assert(headcount(empty.entities, Team::Enemies) == 0);
}

/// One session: its rules, its level, and the state of play.
pub struct Session {
    rules: Rules,
    level: Level,
    phase: Phase,
    mode: Mode,
    outcome: Option<Outcome>,
    score: u32,
    registry: Registry,
}

impl View for Session {
    type V = State;

    closed spec fn view(&self) -> State {
        State {
            rules: self.rules,
            arena: self.level.arena,
            obstacles: self.level.obstacles@,
            first_player: self.level.first_player,
            second_player: self.level.second_player,
            enemies: self.level.enemies@,
            phase: self.phase,
            mode: self.mode,
            outcome: self.outcome,
            score: self.score,
            world: self.registry@,
        }
    }
}

impl Registry {
    /// How many characters of `team` are alive.
    pub fn count(&self, team: Team) -> (n: usize)
        ensures
            n == headcount(self@.entities, team),
    {
        let len = self.len();
        let mut n: usize = 0;
        let mut i: usize = 0;
        while i < len
            invariant
                i <= len,
                len == self@.entities.len(),
                n <= i,
                n == headcount(self@.entities.take(i as int), team),
            decreases len - i,
        {
            let e = self.entity_at(i).unwrap();
            proof {
                assert(self@.entities.take(i as int + 1).drop_last() =~= self@.entities.take(
                    i as int,
                ));
            }
            match e.kind {
                Kind::Character(_) => {
                    if e.team == team {
                        n += 1;
                    }
                },
                _ => {},
            }
            i += 1;
        }
        proof {
            assert(self@.entities.take(i as int) =~= self@.entities);
        }
        n
    }

    /// Spawns the obstacles of a level, in order.
    pub fn wall(&mut self, obstacles: &Vec<ObstacleSpec>)
        requires
            old(self).wf(),
        ensures
            final(self).wf(),
            final(self)@ == old(self)@.walled(obstacles@),
            final(self)@.arena == old(self)@.arena,
    {
        let ghost before = self@;
        let mut k: usize = 0;
        while k < obstacles.len()
            invariant
                k <= obstacles.len(),
                self.wf(),
                self@ == before.walled(obstacles@.take(k as int)),
                self@.arena == before.arena,
            decreases obstacles.len() - k,
        {
            let o = obstacles[k];
            proof {
                assert(obstacles@.take(k as int + 1).drop_last() =~= obstacles@.take(k as int));
            }
            self.spawn(
                o.pos,
                o.half,
                Team::Neutral,
                Kind::Obstacle(Obstacle { material: o.material, health: o.health }),
            );
            k += 1;
        }
        proof {
            assert(obstacles@.take(k as int) =~= obstacles@);
        }
    }

    /// Spawns one character for every start, in order.
    pub fn man(&mut self, starts: &Vec<Start>, rules: &Rules)
        requires
            old(self).wf(),
        ensures
            final(self).wf(),
            final(self)@ == old(self)@.manned(starts@, *rules),
            final(self)@.arena == old(self)@.arena,
    {
        let ghost before = self@;
        let mut k: usize = 0;
        while k < starts.len()
            invariant
                k <= starts.len(),
                self.wf(),
                self@ == before.manned(starts@.take(k as int), *rules),
                self@.arena == before.arena,
            decreases starts.len() - k,
        {
            let s = starts[k];
            proof {
                assert(starts@.take(k as int + 1).drop_last() =~= starts@.take(k as int));
            }
            let facing = match s.team {
                Team::Players => Direction::Up,
                _ => Direction::Down,
            };
            let character = Character {
                velocity: Point { x: 0, y: 0 },
                facing,
                health: rules.character_health,
                shield_active: rules.shield_ticks > 0,
                shield_timer: rules.shield_ticks,
                cooldown: 0,
            };
            self.spawn(s.pos, rules.character_half, s.team, Kind::Character(character));
            k += 1;
        }
        proof {
            assert(starts@.take(k as int) =~= starts@);
        }
    }

    /// Plays one tick: follows the intents, moves and settles the entities,
    /// resolves the collisions, ages all timers and carries out the events,
    /// which are returned.
    pub fn tick(&mut self, intents: &Vec<Intent>, rules: &Rules) -> (events: Vec<Event>)
        requires
            old(self).wf(),
        ensures
            final(self).wf(),
            final(self)@ == old(self)@.ticked(intents@, *rules),
            final(self)@.arena == old(self)@.arena,
            events@ == old(self)@.advanced(intents@, *rules).events(),
    {
        self.command(intents, rules);
        self.integrate(rules.timestep);
        self.settle();
        let events = self.resolve();
        self.mature();
        self.apply_all(&events, rules);
        events
    }
}

impl Level {
    /// The roster of a match in `mode`.
    pub fn starts(&self, mode: Mode) -> (starts: Vec<Start>)
        ensures
            starts@ == roster(self.first_player, self.second_player, self.enemies@, mode),
    {
        let mut starts: Vec<Start> = Vec::new();
        starts.push(Start { pos: self.first_player, team: Team::Players });
        match mode {
            Mode::TwoPlayer => {
                starts.push(Start { pos: self.second_player, team: Team::Players });
            },
            Mode::SinglePlayer => {},
        }
        let ghost players = starts@;
        let mut k: usize = 0;
        while k < self.enemies.len()
            invariant
                k <= self.enemies.len(),
                starts@ == players + self.enemies@.take(k as int).map_values(
                    |p: Point| Start { pos: p, team: Team::Enemies },
                ),
            decreases self.enemies.len() - k,
        {
            starts.push(Start { pos: self.enemies[k], team: Team::Enemies });
            k += 1;
        }
        proof {
            assert(self.enemies@.take(k as int) =~= self.enemies@);
        }
        starts
    }
}

impl Session {
    /// The session invariant: the model is well-formed.
    pub open spec fn wf(&self) -> bool {
        self@.wf()
    }

    /// A session in the menu, to be played by `rules` on `level`. Neither is
    /// examined before the session is started.
    pub fn new(rules: Rules, level: Level) -> (s: Session)
        ensures
            s.wf(),
            s@.rules == rules,
            s@.arena == level.arena,
            s@.obstacles == level.obstacles@,
            s@.first_player == level.first_player,
            s@.second_player == level.second_player,
            s@.enemies == level.enemies@,
            s@.phase == Phase::Menu,
            s@.mode == Mode::SinglePlayer,
            s@.outcome is None,
            s@.score == 0,
            s@.world == (World {
                arena: Arena { min: Point { x: 0, y: 0 }, max: Point { x: 0, y: 0 } },
                entities: Seq::empty(),
                next_id: 0,
            }),
    {
        let origin = Arena { min: Point { x: 0, y: 0 }, max: Point { x: 0, y: 0 } };
        let registry = Registry::new(origin).unwrap();
        Session {
            rules,
            level,
            phase: Phase::Menu,
            mode: Mode::SinglePlayer,
            outcome: None,
            score: 0,
            registry,
        }
    }

    /// Where the session stands.
    pub fn phase(&self) -> (p: Phase)
        ensures
            p == self@.phase,
    {
        self.phase
    }

    /// The mode of the match last started.
    pub fn mode(&self) -> (m: Mode)
        ensures
            m == self@.mode,
    {
        self.mode
    }

    /// How the match ended, once the session is terminal.
    pub fn outcome(&self) -> (o: Option<Outcome>)
        ensures
            o == self@.outcome,
    {
        self.outcome
    }

    /// Enemy characters destroyed since the session was started.
    pub fn score(&self) -> (n: u32)
        ensures
            n == self@.score,
    {
        self.score
    }

    /// The rules the session is played by.
    pub fn rules(&self) -> (r: Rules)
        ensures
            r == self@.rules,
    {
        self.rules
    }

    /// The registry of live entities, for reading.
    pub fn registry(&self) -> (r: &Registry)
        ensures
            r@ == self@.world,
    {
        &self.registry
    }

    /// Looks for the first thing that keeps the session from being played in
    /// `mode`.
    pub fn validate(&self, mode: Mode) -> (r: Result<(), SetupError>)
        ensures
            r is Ok <==> self@.playable(mode),
            r matches Err(e) ==> self@.refuses(mode, e),
    {
        let arena = self.level.arena;
        if !arena.is_valid() {
            return Err(SetupError::Arena);
        }
        if !self.rules.fits(&arena) {
            return Err(SetupError::Rules);
        }
        let mut i: usize = 0;
        while i < self.level.obstacles.len()
            invariant
                i <= self.level.obstacles.len(),
                arena == self@.arena,
                arena.valid(),
                self@.rules.fit(arena),
                forall|k: int| 0 <= k < i ==> (#[trigger] self@.obstacles[k]).sound(arena),
            decreases self.level.obstacles.len() - i,
        {
            if !self.level.obstacles[i].is_sound(&arena) {
                assert(!self@.obstacles[i as int].sound(arena));
                return Err(SetupError::Obstacle { index: i });
            }
            i += 1;
        }
        let starts = self.level.starts(mode);
        let mut j: usize = 0;
        while j < starts.len()
            invariant
                j <= starts.len(),
                arena == self@.arena,
                arena.valid(),
                self@.rules.fit(arena),
                forall|k: int|
                    0 <= k < self@.obstacles.len() ==> (#[trigger] self@.obstacles[k]).sound(arena),
                starts@ == self@.starts(mode),
                forall|k: int|
                    0 <= k < j ==> arena.holds(
                        (#[trigger] self@.starts(mode)[k]).pos,
                        self@.rules.character_half,
                    ),
            decreases starts.len() - j,
        {
            if !arena.contains_box(starts[j].pos, self.rules.character_half) {
                assert(!arena.holds(self@.starts(mode)[j as int].pos, self@.rules.character_half));
                return Err(SetupError::Start { index: j });
            }
            j += 1;
        }
        Ok(())
    }

    /// The start command. In the menu it examines rules and level and, if
    /// nothing is wrong, populates the world and makes the session active;
    /// if something is wrong, the error says what, and the session stays in
    /// the menu. Outside the menu the command is ignored.
    pub fn start(&mut self, mode: Mode) -> (r: Result<(), SetupError>)
        requires
            old(self).wf(),
        ensures
            final(self).wf(),
            final(self)@ == old(self)@.started(mode),
            r is Err <==> old(self)@.phase == Phase::Menu && !old(self)@.playable(mode),
            r matches Err(e) ==> old(self)@.refuses(mode, e),
    {
        match self.phase {
            Phase::Menu => {},
            _ => {
                return Ok(());
            },
        }
        match self.validate(mode) {
            Err(e) => {
                return Err(e);
            },
            Ok(()) => {},
        }
        proof {
            lemma_session_wf(self@, mode, Seq::empty());
        }
        let mut registry = Registry::new(self.level.arena).unwrap();
        registry.wall(&self.level.obstacles);
        let starts = self.level.starts(mode);
        registry.man(&starts, &self.rules);
        self.registry = registry;
        self.phase = Phase::Active;
        self.mode = mode;
        self.outcome = None;
        self.score = 0;
        Ok(())
    }

    /// The reset command. A terminal session returns to the menu: every
    /// entity is removed and the score is cleared. Anywhere else the command
    /// is ignored.
    pub fn reset(&mut self)
        requires
            old(self).wf(),
        ensures
            final(self).wf(),
            final(self)@ == old(self)@.reset(),
    {
        match self.phase {
            Phase::Terminal => {
                self.registry.clear();
                self.phase = Phase::Menu;
                self.outcome = None;
                self.score = 0;
            },
            _ => {},
        }
    }

    /// Plays one tick of an active session and returns the events of its
    /// collisions. A session that is not active is left alone.
    pub fn tick(&mut self, intents: &Vec<Intent>) -> (events: Vec<Event>)
        requires
            old(self).wf(),
        ensures
            final(self).wf(),
            final(self)@ == old(self)@.ticked(intents@),
            events@ == old(self)@.tick_events(intents@),
    {
        match self.phase {
            Phase::Active => {},
            _ => {
                return Vec::new();
            },
        }
        proof {
            lemma_session_wf(self@, Mode::SinglePlayer, intents@);
        }
        let before = self.registry.count(Team::Enemies);
        let events = self.registry.tick(intents, &self.rules);
        let players = self.registry.count(Team::Players);
        let enemies = self.registry.count(Team::Enemies);
        if before > enemies {
            let gone = before - enemies;
            self.score = if gone > (u32::MAX - self.score) as usize {
                u32::MAX
            } else {
                self.score + gone as u32
            };
        }
        if players > 0 && enemies > 0 {
            self.outcome = None;
        } else {
            self.phase = Phase::Terminal;
            self.outcome = if players > 0 {
                Some(Outcome::Won(Team::Players))
            } else if enemies > 0 {
                Some(Outcome::Won(Team::Enemies))
            } else {
                Some(Outcome::Draw)
            };
        }
        events
    }
}

} // verus!
