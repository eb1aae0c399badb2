use arena_combat::collision::Event;
use arena_combat::entity::{Character, Entity, Kind, Material, Obstacle, Projectile, Team};
use arena_combat::geometry::{Arena, Direction, Point};
use arena_combat::lifecycle::Intent;
use arena_combat::registry::Registry;
use arena_combat::rules::Rules;
use arena_combat::session::{
    Level, Mode, ObstacleSpec, Outcome, Phase, Session, SetupError, Start,
};

fn rules() -> Rules {
    Rules {
        timestep: 1,
        character_half: Point::new(4, 4),
        character_speed: 2,
        character_health: 3,
        shield_ticks: 0,
        reload_ticks: 5,
        muzzle_offset: 6,
        projectile_half: Point::new(1, 1),
        projectile_speed: 4,
        projectile_lifetime: 20,
        projectile_damage: 3,
        explosion_duration: 3,
    }
}

fn level() -> Level {
    Level {
        arena: Arena { min: Point::new(0, 0), max: Point::new(100, 100) },
        obstacles: vec![],
        first_player: Point::new(50, 20),
        second_player: Point::new(20, 20),
        enemies: vec![Point::new(50, 60)],
    }
}

fn brick(x: i32, y: i32) -> ObstacleSpec {
    ObstacleSpec {
        pos: Point::new(x, y),
        half: Point::new(5, 5),
        material: Material::Breakable,
        health: 2,
    }
}

fn recruit(id: u64, x: i32, y: i32, team: Team, facing: Direction) -> Entity {
    Entity {
        id,
        pos: Point::new(x, y),
        prev: Point::new(x, y),
        half: Point::new(4, 4),
        team,
        kind: Kind::Character(Character {
            velocity: Point::new(0, 0),
            facing,
            health: 3,
            shield_active: false,
            shield_timer: 0,
            cooldown: 0,
        }),
    }
}

fn fire(character: u64) -> Intent {
    Intent { character, heading: None, fire: true }
}

fn ticks(session: &mut Session, n: usize) {
    for _ in 0..n {
        assert_eq!(session.tick(&vec![]), vec![]);
    }
}

#[test]
fn a_new_session_waits_in_the_menu() {
    let session = Session::new(rules(), level());
    assert_eq!(session.phase(), Phase::Menu);
    assert_eq!(session.mode(), Mode::SinglePlayer);
    assert_eq!(session.outcome(), None);
    assert_eq!(session.score(), 0);
    assert_eq!(session.rules(), rules());
    assert_eq!(session.registry().len(), 0);
}

#[test]
fn nothing_is_simulated_in_the_menu() {
    let mut session = Session::new(rules(), level());
    assert_eq!(session.tick(&vec![fire(0)]), vec![]);
    assert_eq!(session.phase(), Phase::Menu);
    assert_eq!(session.registry().len(), 0);
}

#[test]
fn single_player_starts_with_one_player_and_the_enemy_set() {
    let mut level = level();
    level.enemies = vec![Point::new(50, 60), Point::new(80, 80), Point::new(10, 90)];
    level.obstacles = vec![brick(30, 30)];
    let mut session = Session::new(rules(), level);
    assert_eq!(session.start(Mode::SinglePlayer), Ok(()));
    assert_eq!(session.phase(), Phase::Active);
    assert_eq!(session.mode(), Mode::SinglePlayer);
    assert_eq!(session.outcome(), None);
    assert_eq!(session.registry().count(Team::Players), 1);
    assert_eq!(session.registry().count(Team::Enemies), 3);
    assert_eq!(
        session.registry().snapshot(),
        vec![
            Entity {
                id: 0,
                pos: Point::new(30, 30),
                prev: Point::new(30, 30),
                half: Point::new(5, 5),
                team: Team::Neutral,
                kind: Kind::Obstacle(Obstacle { material: Material::Breakable, health: 2 }),
            },
            recruit(1, 50, 20, Team::Players, Direction::Up),
            recruit(2, 50, 60, Team::Enemies, Direction::Down),
            recruit(3, 80, 80, Team::Enemies, Direction::Down),
            recruit(4, 10, 90, Team::Enemies, Direction::Down),
        ]
    );
}

#[test]
fn two_player_mode_starts_with_both_players() {
    let mut session = Session::new(rules(), level());
    assert_eq!(session.start(Mode::TwoPlayer), Ok(()));
    assert_eq!(session.mode(), Mode::TwoPlayer);
    assert_eq!(
        session.registry().snapshot(),
        vec![
            recruit(0, 50, 20, Team::Players, Direction::Up),
            recruit(1, 20, 20, Team::Players, Direction::Up),
            recruit(2, 50, 60, Team::Enemies, Direction::Down),
        ]
    );
}

#[test]
fn characters_start_shielded_if_the_rules_say_so() {
    let mut session = Session::new(Rules { shield_ticks: 2, ..rules() }, level());
    session.start(Mode::SinglePlayer).unwrap();
    match session.registry().get(0).unwrap().kind {
        Kind::Character(c) => {
            assert!(c.shield_active);
            assert_eq!(c.shield_timer, 2);
        }
        other => panic!("not a character: {:?}", other),
    }
}

#[test]
fn an_arena_with_unordered_bounds_is_refused() {
    let mut level = level();
    level.arena = Arena { min: Point::new(10, 0), max: Point::new(0, 100) };
    level.obstacles = vec![brick(500, 500)];
    let mut session = Session::new(Rules { timestep: 0, ..rules() }, level);
    assert_eq!(session.start(Mode::SinglePlayer), Err(SetupError::Arena));
    assert_eq!(session.phase(), Phase::Menu);
    assert_eq!(session.registry().len(), 0);
}

#[test]
fn rules_that_do_not_fit_the_arena_are_refused() {
    let unfit = [
        Rules { timestep: 0, ..rules() },
        Rules { character_health: 0, ..rules() },
        Rules { projectile_lifetime: 0, ..rules() },
        Rules { explosion_duration: 0, ..rules() },
        Rules { character_half: Point::new(51, 4), ..rules() },
        Rules { character_half: Point::new(4, -1), ..rules() },
        Rules { projectile_half: Point::new(1, 51), ..rules() },
    ];
    for rules in unfit {
        let mut level = level();
        level.obstacles = vec![brick(500, 500)];
        let mut session = Session::new(rules, level);
        assert_eq!(session.validate(Mode::SinglePlayer), Err(SetupError::Rules));
        assert_eq!(session.start(Mode::SinglePlayer), Err(SetupError::Rules));
        assert_eq!(session.phase(), Phase::Menu);
    }
}

#[test]
fn the_first_malformed_obstacle_is_reported() {
    let malformed = [
        ObstacleSpec { half: Point::new(0, 5), ..brick(30, 30) },
        ObstacleSpec { half: Point::new(5, -5), ..brick(30, 30) },
        ObstacleSpec { health: 0, ..brick(30, 30) },
        brick(97, 30),
        brick(30, 4),
    ];
    for bad in malformed {
        let mut level = level();
        level.obstacles = vec![brick(30, 30), bad, brick(70, 70), brick(-5, 0)];
        level.first_player = Point::new(500, 500);
        let mut session = Session::new(rules(), level);
        assert_eq!(session.start(Mode::SinglePlayer), Err(SetupError::Obstacle { index: 1 }));
        assert_eq!(session.phase(), Phase::Menu);
        assert_eq!(session.registry().len(), 0);
    }
}

#[test]
fn an_indestructible_obstacle_may_have_no_health() {
    let mut level = level();
    level.obstacles =
        vec![ObstacleSpec { material: Material::Indestructible, health: 0, ..brick(30, 30) }];
    let mut session = Session::new(rules(), level);
    assert_eq!(session.start(Mode::SinglePlayer), Ok(()));
    assert_eq!(session.registry().len(), 3);
}

#[test]
fn the_first_start_position_outside_the_arena_is_reported() {
    let mut one = level();
    one.first_player = Point::new(3, 20);
    let mut session = Session::new(rules(), one);
    assert_eq!(session.start(Mode::SinglePlayer), Err(SetupError::Start { index: 0 }));

    let mut two = level();
    two.enemies = vec![Point::new(50, 60), Point::new(50, 97), Point::new(-1, -1)];
    let mut session = Session::new(rules(), two);
    assert_eq!(session.start(Mode::SinglePlayer), Err(SetupError::Start { index: 2 }));
    assert_eq!(session.start(Mode::TwoPlayer), Err(SetupError::Start { index: 3 }));
    assert_eq!(session.phase(), Phase::Menu);
}

#[test]
fn the_second_player_matters_in_two_player_mode_only() {
    let mut level = level();
    level.second_player = Point::new(500, 500);
    let mut session = Session::new(rules(), level);
    assert_eq!(session.validate(Mode::TwoPlayer), Err(SetupError::Start { index: 1 }));
    assert_eq!(session.start(Mode::TwoPlayer), Err(SetupError::Start { index: 1 }));
    assert_eq!(session.validate(Mode::SinglePlayer), Ok(()));
    assert_eq!(session.start(Mode::SinglePlayer), Ok(()));
    assert_eq!(session.phase(), Phase::Active);
}

#[test]
fn a_start_command_while_active_is_ignored() {
    let mut session = Session::new(rules(), level());
    session.start(Mode::SinglePlayer).unwrap();
    session.tick(&vec![Intent { character: 0, heading: Some(Direction::Right), fire: false }]);
    let before = session.registry().snapshot();
    assert_eq!(session.start(Mode::TwoPlayer), Ok(()));
    assert_eq!(session.mode(), Mode::SinglePlayer);
    assert_eq!(session.phase(), Phase::Active);
    assert_eq!(session.registry().snapshot(), before);
}

#[test]
fn a_reset_command_outside_the_terminal_state_is_ignored() {
    let mut session = Session::new(rules(), level());
    session.reset();
    assert_eq!(session.phase(), Phase::Menu);
    session.start(Mode::SinglePlayer).unwrap();
    session.reset();
    assert_eq!(session.phase(), Phase::Active);
    assert_eq!(session.registry().len(), 2);
}

#[test]
fn the_players_win_when_no_enemy_is_left() {
    let mut session = Session::new(rules(), level());
    session.start(Mode::SinglePlayer).unwrap();
    assert_eq!(session.tick(&vec![fire(0)]), vec![]);
    ticks(&mut session, 6);
    assert_eq!(session.phase(), Phase::Active);
    assert_eq!(
        session.tick(&vec![]),
        vec![
            Event::Hit { projectile: 2, target: 1, damage: 3 },
            Event::Destroyed { entity: 1, at: Point::new(50, 60), half: Point::new(4, 4) },
        ]
    );
    assert_eq!(session.phase(), Phase::Terminal);
    assert_eq!(session.outcome(), Some(Outcome::Won(Team::Players)));
    assert_eq!(session.score(), 1);
    assert_eq!(session.registry().count(Team::Enemies), 0);
    assert_eq!(session.registry().count(Team::Players), 1);
}

#[test]
fn the_players_lose_when_no_player_is_left() {
    let mut session = Session::new(rules(), level());
    session.start(Mode::SinglePlayer).unwrap();
    assert_eq!(session.tick(&vec![fire(1)]), vec![]);
    ticks(&mut session, 6);
    assert_eq!(
        session.tick(&vec![]),
        vec![
            Event::Hit { projectile: 2, target: 0, damage: 3 },
            Event::Destroyed { entity: 0, at: Point::new(50, 20), half: Point::new(4, 4) },
        ]
    );
    assert_eq!(session.phase(), Phase::Terminal);
    assert_eq!(session.outcome(), Some(Outcome::Won(Team::Enemies)));
    assert_eq!(session.score(), 0);
}

#[test]
fn it_is_a_draw_when_both_sides_fall_in_the_same_tick() {
    let mut session = Session::new(rules(), level());
    session.start(Mode::SinglePlayer).unwrap();
    assert_eq!(session.tick(&vec![fire(0), fire(1)]), vec![]);
    ticks(&mut session, 6);
    let events = session.tick(&vec![]);
    assert_eq!(events.len(), 4);
    assert_eq!(session.phase(), Phase::Terminal);
    assert_eq!(session.outcome(), Some(Outcome::Draw));
    assert_eq!(session.score(), 1);
}

#[test]
fn in_two_player_mode_the_match_goes_on_while_one_player_stands() {
    let mut session = Session::new(rules(), level());
    session.start(Mode::TwoPlayer).unwrap();
    assert_eq!(session.tick(&vec![fire(2)]), vec![]);
    ticks(&mut session, 6);
    let events = session.tick(&vec![]);
    assert_eq!(events[0], Event::Hit { projectile: 3, target: 0, damage: 3 });
    assert_eq!(session.phase(), Phase::Active);
    assert_eq!(session.outcome(), None);
    assert_eq!(session.registry().count(Team::Players), 1);
}

#[test]
fn a_terminal_session_is_not_simulated() {
    let mut session = Session::new(rules(), level());
    session.start(Mode::SinglePlayer).unwrap();
    session.tick(&vec![fire(0)]);
    ticks(&mut session, 6);
    session.tick(&vec![]);
    assert_eq!(session.phase(), Phase::Terminal);
    let before = session.registry().snapshot();
    assert_eq!(session.tick(&vec![fire(0)]), vec![]);
    assert_eq!(session.registry().snapshot(), before);
    assert_eq!(session.start(Mode::TwoPlayer), Ok(()));
    assert_eq!(session.phase(), Phase::Terminal);
}

#[test]
fn reset_returns_to_the_menu_and_clears_everything() {
    let mut session = Session::new(rules(), level());
    session.start(Mode::SinglePlayer).unwrap();
    session.tick(&vec![fire(0)]);
    ticks(&mut session, 6);
    session.tick(&vec![]);
    assert_eq!(session.score(), 1);
    session.reset();
    assert_eq!(session.phase(), Phase::Menu);
    assert_eq!(session.outcome(), None);
    assert_eq!(session.score(), 0);
    assert_eq!(session.registry().len(), 0);
    assert_eq!(session.start(Mode::TwoPlayer), Ok(()));
    assert_eq!(session.phase(), Phase::Active);
    assert_eq!(session.registry().count(Team::Players), 2);
    assert_eq!(session.registry().count(Team::Enemies), 1);
    assert_eq!(session.registry().entity_at(0).unwrap().id, 0);
}

#[test]
fn a_level_without_enemies_is_won_at_once() {
    let mut level = level();
    level.enemies = vec![];
    let mut session = Session::new(rules(), level);
    session.start(Mode::SinglePlayer).unwrap();
    assert_eq!(session.phase(), Phase::Active);
    assert_eq!(session.tick(&vec![]), vec![]);
    assert_eq!(session.phase(), Phase::Terminal);
    assert_eq!(session.outcome(), Some(Outcome::Won(Team::Players)));
    assert_eq!(session.score(), 0);
}

#[test]
fn the_score_counts_every_enemy_destroyed() {
    let mut level = level();
    level.enemies = vec![Point::new(50, 60), Point::new(50, 80)];
    let mut session = Session::new(rules(), level);
    session.start(Mode::SinglePlayer).unwrap();
    session.tick(&vec![fire(0)]);
    ticks(&mut session, 6);
    assert_eq!(session.tick(&vec![]).len(), 2);
    assert_eq!(session.score(), 1);
    assert_eq!(session.phase(), Phase::Active);
    session.tick(&vec![fire(0)]);
    ticks(&mut session, 11);
    assert_eq!(session.score(), 1);
    assert_eq!(session.tick(&vec![]).len(), 2);
    assert_eq!(session.score(), 2);
    assert_eq!(session.phase(), Phase::Terminal);
    assert_eq!(session.outcome(), Some(Outcome::Won(Team::Players)));
}

#[test]
fn the_roster_lists_players_before_enemies() {
    let mut level = level();
    level.enemies = vec![Point::new(1, 2), Point::new(3, 4)];
    assert_eq!(
        level.starts(Mode::SinglePlayer),
        vec![
            Start { pos: Point::new(50, 20), team: Team::Players },
            Start { pos: Point::new(1, 2), team: Team::Enemies },
            Start { pos: Point::new(3, 4), team: Team::Enemies },
        ]
    );
    assert_eq!(
        level.starts(Mode::TwoPlayer),
        vec![
            Start { pos: Point::new(50, 20), team: Team::Players },
            Start { pos: Point::new(20, 20), team: Team::Players },
            Start { pos: Point::new(1, 2), team: Team::Enemies },
            Start { pos: Point::new(3, 4), team: Team::Enemies },
        ]
    );
}

#[test]
fn walls_and_characters_can_be_spawned_into_any_registry() {
    let arena = Arena { min: Point::new(0, 0), max: Point::new(100, 100) };
    let mut reg = Registry::new(arena).unwrap();
    reg.wall(&vec![brick(30, 30), brick(200, 30), brick(70, 70)]);
    assert_eq!(reg.len(), 3);
    assert_eq!(reg.entity_at(1).unwrap().pos, Point::new(95, 30));
    reg.man(
        &vec![
            Start { pos: Point::new(50, 20), team: Team::Enemies },
            Start { pos: Point::new(50, 80), team: Team::Players },
        ],
        &rules(),
    );
    assert_eq!(reg.snapshot()[3..], vec![
        recruit(3, 50, 20, Team::Enemies, Direction::Down),
        recruit(4, 50, 80, Team::Players, Direction::Up),
    ]);
    assert_eq!(reg.count(Team::Players), 1);
    assert_eq!(reg.count(Team::Enemies), 1);
    assert_eq!(reg.count(Team::Neutral), 0);
    reg.man(&vec![Start { pos: Point::new(5, 5), team: Team::Players }], &Rules {
        character_health: 0,
        ..rules()
    });
    assert_eq!(reg.len(), 5);
}

#[test]
fn only_characters_are_counted() {
    let arena = Arena { min: Point::new(0, 0), max: Point::new(100, 100) };
    let mut reg = Registry::new(arena).unwrap();
    let shot = Kind::Projectile(Projectile {
        velocity: Point::new(0, 0),
        owner: 0,
        lifetime: 3,
        damage: 1,
    });
    reg.spawn(Point::new(50, 50), Point::new(1, 1), Team::Players, shot);
    reg.spawn(Point::new(50, 50), Point::new(1, 1), Team::Enemies, shot);
    assert_eq!(reg.count(Team::Players), 0);
    assert_eq!(reg.count(Team::Enemies), 0);
}

#[test]
fn descriptors_and_rules_are_judged_against_the_arena() {
    let arena = Arena { min: Point::new(0, 0), max: Point::new(100, 100) };
    let small = Arena { min: Point::new(0, 0), max: Point::new(7, 7) };
    assert!(brick(30, 30).is_sound(&arena));
    assert!(brick(5, 5).is_sound(&arena));
    assert!(!brick(4, 5).is_sound(&arena));
    assert!(!brick(30, 30).is_sound(&small));
    assert!(rules().fits(&arena));
    assert!(!rules().fits(&small));
    assert!(rules().fits(&Arena { min: Point::new(0, 0), max: Point::new(8, 8) }));
}
