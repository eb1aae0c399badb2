use arena_combat::collision::Event;
use arena_combat::entity::{Character, Entity, Explosion, Kind, Projectile, Team};
use arena_combat::geometry::{Arena, Direction, Point};
use arena_combat::lifecycle::Intent;
use arena_combat::registry::Registry;
use arena_combat::rules::Rules;
use arena_combat::session::{Level, Mode, Outcome, Phase, Session};

fn rules() -> Rules {
    Rules {
        timestep: 2,
        character_half: Point::new(4, 4),
        character_speed: 1,
        character_health: 3,
        shield_ticks: 0,
        reload_ticks: 5,
        muzzle_offset: 6,
        projectile_half: Point::new(1, 1),
        projectile_speed: 2,
        projectile_lifetime: 20,
        projectile_damage: 1,
        explosion_duration: 3,
    }
}

fn level() -> Level {
    Level {
        arena: Arena { min: Point::new(0, 0), max: Point::new(200, 100) },
        obstacles: vec![],
        first_player: Point::new(20, 50),
        second_player: Point::new(20, 20),
        enemies: vec![Point::new(60, 50)],
    }
}

fn health(reg: &Registry, id: u64) -> u32 {
    reg.get(id).unwrap().current_health()
}

fn shot_at(x: i32, lifetime: u32, damage: u32) -> Entity {
    Entity {
        id: 2,
        pos: Point::new(x, 50),
        prev: Point::new(x - 4, 50),
        half: Point::new(1, 1),
        team: Team::Players,
        kind: Kind::Projectile(Projectile {
            velocity: Point::new(2, 0),
            owner: 0,
            lifetime,
            damage,
        }),
    }
}

#[test]
fn a_shot_fired_to_the_right_flies_until_it_strikes_the_enemy() {
    let mut session = Session::new(rules(), level());
    session.start(Mode::SinglePlayer).unwrap();
    let turn = Intent { character: 0, heading: Some(Direction::Right), fire: false };
    let fire = Intent { character: 0, heading: None, fire: true };

    assert_eq!(session.tick(&vec![turn]), vec![]);
    assert_eq!(session.registry().get(0).unwrap().pos, Point::new(22, 50));

    assert_eq!(session.tick(&vec![fire]), vec![]);
    assert_eq!(session.registry().get(0).unwrap().pos, Point::new(22, 50));
    assert_eq!(
        session.registry().get(2),
        Some(Entity { prev: Point::new(28, 50), ..shot_at(32, 19, 1) })
    );

    for k in 2..7 {
        assert_eq!(session.tick(&vec![]), vec![]);
        assert_eq!(session.registry().get(2), Some(shot_at(28 + 4 * k, 20 - k as u32, 1)));
        assert_eq!(health(session.registry(), 1), 3);
    }

    assert_eq!(
        session.tick(&vec![]),
        vec![Event::Hit { projectile: 2, target: 1, damage: 1 }]
    );
    assert_eq!(session.registry().get(2), None);
    assert_eq!(health(session.registry(), 1), 2);
    assert_eq!(session.registry().get(1).unwrap().pos, Point::new(60, 50));
    assert_eq!(session.phase(), Phase::Active);
}

#[test]
fn a_lethal_shot_removes_the_enemy_and_leaves_an_explosion_in_the_same_tick() {
    let mut session = Session::new(Rules { projectile_damage: 5, ..rules() }, level());
    session.start(Mode::SinglePlayer).unwrap();
    session.tick(&vec![Intent { character: 0, heading: Some(Direction::Right), fire: false }]);
    session.tick(&vec![Intent { character: 0, heading: None, fire: true }]);
    for _ in 2..7 {
        assert_eq!(session.tick(&vec![]), vec![]);
    }
    assert_eq!(
        session.tick(&vec![]),
        vec![
            Event::Hit { projectile: 2, target: 1, damage: 5 },
            Event::Destroyed { entity: 1, at: Point::new(60, 50), half: Point::new(4, 4) },
        ]
    );
    let left = session.registry().snapshot();
    assert_eq!(left.len(), 2);
    assert_eq!(left[0].id, 0);
    assert_eq!(
        left[1],
        Entity {
            id: 3,
            pos: Point::new(60, 50),
            prev: Point::new(60, 50),
            half: Point::new(4, 4),
            team: Team::Neutral,
            kind: Kind::Explosion(Explosion { elapsed: 0, duration: 3 }),
        }
    );
    assert_eq!(session.registry().query(Point::new(60, 50), Point::new(1, 1)), vec![3]);
    assert_eq!(session.phase(), Phase::Terminal);
    assert_eq!(session.outcome(), Some(Outcome::Won(Team::Players)));
}

#[test]
fn three_shots_wear_the_enemy_down() {
    let mut session = Session::new(rules(), level());
    session.start(Mode::SinglePlayer).unwrap();
    let fire = Intent { character: 0, heading: Some(Direction::Right), fire: true };
    let hold = Intent { character: 0, heading: None, fire: true };
    session.tick(&vec![fire]);
    assert_eq!(session.registry().get(2).unwrap().pos, Point::new(30, 50));
    let mut healths = vec![];
    let mut fired_in = vec![1];
    for tick in 2..17 {
        let before = session.registry().len();
        let events = session.tick(&vec![hold]);
        healths.push(health(session.registry(), 1));
        if session.registry().len() + events.len() > before {
            fired_in.push(tick);
        }
    }
    assert_eq!(healths, vec![3, 3, 3, 3, 3, 3, 2, 2, 2, 2, 1, 1, 1, 1, 1]);
    assert_eq!(fired_in, vec![1, 6, 11, 16]);
    assert_eq!(session.phase(), Phase::Active);
    assert_eq!(session.tick(&vec![hold]).len(), 2);
    assert_eq!(session.outcome(), Some(Outcome::Won(Team::Players)));
    assert_eq!(session.score(), 1);
}

#[test]
fn a_projectile_that_strikes_nothing_lives_exactly_its_lifetime() {
    let arena = Arena { min: Point::new(0, 0), max: Point::new(1000, 100) };
    let mut reg = Registry::new(arena).unwrap();
    let shooter = Kind::Character(Character {
        velocity: Point::new(0, 0),
        facing: Direction::Right,
        health: 1,
        shield_active: false,
        shield_timer: 0,
        cooldown: 0,
    });
    reg.spawn(Point::new(20, 50), Point::new(4, 4), Team::Players, shooter);
    let n = 7;
    let rules = Rules { projectile_lifetime: n, ..rules() };
    let fire = Intent { character: 0, heading: None, fire: true };
    assert_eq!(reg.tick(&vec![fire], &rules), vec![]);
    for tick in 1..n {
        assert!(reg.get(1).is_some(), "gone after tick {}", tick);
        assert_eq!(reg.tick(&vec![], &rules), vec![]);
    }
    assert_eq!(reg.get(1), None);
    assert_eq!(reg.len(), 1);
}

#[test]
fn a_projectile_that_reaches_the_edge_is_removed_before_it_expires() {
    let arena = Arena { min: Point::new(0, 0), max: Point::new(40, 100) };
    let mut reg = Registry::new(arena).unwrap();
    reg.spawn(Point::new(30, 50), Point::new(1, 1), Team::Players, shot_at(30, 20, 1).kind);
    assert_eq!(reg.tick(&vec![], &rules()), vec![]);
    assert_eq!(reg.get(0).unwrap().pos, Point::new(34, 50));
    assert_eq!(reg.tick(&vec![], &rules()), vec![]);
    assert_eq!(reg.get(0).unwrap().pos, Point::new(38, 50));
    assert_eq!(reg.tick(&vec![], &rules()), vec![Event::Escaped { projectile: 0 }]);
    assert_eq!(reg.len(), 0);
}

#[test]
fn an_explosion_lasts_exactly_its_duration() {
    let arena = Arena { min: Point::new(0, 0), max: Point::new(100, 100) };
    let mut reg = Registry::new(arena).unwrap();
    let brick = Kind::Obstacle(arena_combat::entity::Obstacle {
        material: arena_combat::entity::Material::Breakable,
        health: 1,
    });
    reg.spawn(Point::new(60, 50), Point::new(4, 4), Team::Neutral, brick);
    reg.spawn(Point::new(50, 50), Point::new(1, 1), Team::Enemies, shot_at(50, 20, 1).kind);
    let rules = Rules { explosion_duration: 4, ..rules() };
    assert_eq!(reg.tick(&vec![], &rules), vec![]);
    assert_eq!(reg.tick(&vec![], &rules).len(), 2);
    let spawned = reg.snapshot();
    assert_eq!(spawned.len(), 1);
    assert_eq!(spawned[0].kind, Kind::Explosion(Explosion { elapsed: 0, duration: 4 }));
    assert_eq!(spawned[0].pos, Point::new(60, 50));
    let id = spawned[0].id;
    for elapsed in 1..4 {
        reg.tick(&vec![], &rules);
        assert_eq!(
            reg.get(id).unwrap().kind,
            Kind::Explosion(Explosion { elapsed, duration: 4 })
        );
    }
    reg.tick(&vec![], &rules);
    assert_eq!(reg.get(id), None);
    assert_eq!(reg.len(), 0);
}

#[test]
fn a_shielded_character_loses_time_but_no_health() {
    let arena = Arena { min: Point::new(0, 0), max: Point::new(100, 100) };
    let mut reg = Registry::new(arena).unwrap();
    let shielded = Kind::Character(Character {
        velocity: Point::new(0, 0),
        facing: Direction::Up,
        health: 1,
        shield_active: true,
        shield_timer: 2,
        cooldown: 0,
    });
    reg.spawn(Point::new(60, 50), Point::new(4, 4), Team::Enemies, shielded);
    reg.spawn(Point::new(54, 50), Point::new(1, 1), Team::Players, shot_at(54, 20, 9).kind);
    reg.spawn(Point::new(50, 50), Point::new(1, 1), Team::Players, shot_at(50, 20, 9).kind);
    reg.spawn(Point::new(46, 50), Point::new(1, 1), Team::Players, shot_at(46, 20, 9).kind);
    assert_eq!(
        reg.tick(&vec![], &rules()),
        vec![Event::Hit { projectile: 1, target: 0, damage: 0 }]
    );
    match reg.get(0).unwrap().kind {
        Kind::Character(c) => {
            assert_eq!(c.health, 1);
            assert!(c.shield_active);
            assert_eq!(c.shield_timer, 1);
        }
        other => panic!("not a character: {:?}", other),
    }
    assert_eq!(
        reg.tick(&vec![], &rules()),
        vec![Event::Hit { projectile: 2, target: 0, damage: 0 }]
    );
    match reg.get(0).unwrap().kind {
        Kind::Character(c) => {
            assert_eq!(c.health, 1);
            assert!(!c.shield_active);
            assert_eq!(c.shield_timer, 0);
        }
        other => panic!("not a character: {:?}", other),
    }
    assert_eq!(
        reg.tick(&vec![], &rules()),
        vec![
            Event::Hit { projectile: 3, target: 0, damage: 9 },
            Event::Destroyed { entity: 0, at: Point::new(60, 50), half: Point::new(4, 4) },
        ]
    );
    assert_eq!(reg.get(0), None);
}

#[test]
fn a_projectile_never_harms_its_own_team() {
    let arena = Arena { min: Point::new(0, 0), max: Point::new(100, 100) };
    let mut reg = Registry::new(arena).unwrap();
    let ally = Kind::Character(Character {
        velocity: Point::new(0, 0),
        facing: Direction::Up,
        health: 1,
        shield_active: false,
        shield_timer: 0,
        cooldown: 0,
    });
    reg.spawn(Point::new(60, 50), Point::new(4, 4), Team::Players, ally);
    reg.spawn(Point::new(50, 50), Point::new(1, 1), Team::Players, shot_at(50, 20, 9).kind);
    for _ in 0..8 {
        assert_eq!(reg.tick(&vec![], &rules()), vec![]);
        assert_eq!(health(&reg, 0), 1);
    }
    assert_eq!(reg.get(1).unwrap().pos, Point::new(82, 50));
}

#[test]
fn one_projectile_damages_one_target_only() {
    let arena = Arena { min: Point::new(0, 0), max: Point::new(100, 100) };
    let mut reg = Registry::new(arena).unwrap();
    let foe = Kind::Character(Character {
        velocity: Point::new(0, 0),
        facing: Direction::Up,
        health: 5,
        shield_active: false,
        shield_timer: 0,
        cooldown: 0,
    });
    reg.spawn(Point::new(60, 54), Point::new(4, 4), Team::Enemies, foe);
    reg.spawn(Point::new(60, 46), Point::new(4, 4), Team::Enemies, foe);
    reg.spawn(Point::new(52, 50), Point::new(1, 1), Team::Players, shot_at(52, 20, 2).kind);
    assert_eq!(
        reg.tick(&vec![], &rules()),
        vec![Event::Hit { projectile: 2, target: 0, damage: 2 }]
    );
    assert_eq!(health(&reg, 0), 3);
    assert_eq!(health(&reg, 1), 5);
    assert_eq!(reg.len(), 2);
}
