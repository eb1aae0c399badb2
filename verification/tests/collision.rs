use arena_combat::collision::{strike_damage, Event};
use arena_combat::entity::{Character, Entity, Explosion, Kind, Material, Obstacle, Projectile, Team};
use arena_combat::geometry::{Arena, Direction, Point};
use arena_combat::registry::Registry;

fn arena() -> Arena {
    Arena { min: Point::new(0, 0), max: Point::new(100, 100) }
}

fn bullet(damage: u32) -> Kind {
    Kind::Projectile(Projectile { velocity: Point::new(0, 0), owner: 0, lifetime: 9, damage })
}

fn fighter(health: u32) -> Kind {
    Kind::Character(Character {
        velocity: Point::new(0, 0),
        facing: Direction::Up,
        health,
        shield_active: false,
        shield_timer: 0,
        cooldown: 0,
    })
}

fn shielded(health: u32, timer: u32) -> Kind {
    Kind::Character(Character {
        velocity: Point::new(0, 0),
        facing: Direction::Up,
        health,
        shield_active: true,
        shield_timer: timer,
        cooldown: 0,
    })
}

fn walker(vx: i32, vy: i32) -> Kind {
    Kind::Character(Character {
        velocity: Point::new(vx, vy),
        facing: Direction::Up,
        health: 3,
        shield_active: false,
        shield_timer: 0,
        cooldown: 0,
    })
}

fn brick(health: u32) -> Kind {
    Kind::Obstacle(Obstacle { material: Material::Breakable, health })
}

fn iron() -> Kind {
    Kind::Obstacle(Obstacle { material: Material::Indestructible, health: 0 })
}

const BODY: Point = Point { x: 5, y: 5 };
const SHOT: Point = Point { x: 1, y: 1 };

#[test]
fn a_character_that_runs_into_an_obstacle_is_put_back() {
    let mut reg = Registry::new(arena()).unwrap();
    reg.spawn(Point::new(50, 50), BODY, Team::Neutral, iron());
    reg.spawn(Point::new(40, 50), Point::new(2, 2), Team::Players, walker(2, 0));
    reg.integrate(2);
    assert_eq!(reg.entity_at(1).unwrap().pos, Point::new(44, 50));
    reg.settle();
    let e = reg.entity_at(1).unwrap();
    assert_eq!(e.pos, Point::new(40, 50));
    assert_eq!(e.prev, Point::new(40, 50));
    assert!(!reg.is_obstructed(e.pos, e.half));
}

#[test]
fn a_character_that_only_touches_an_obstacle_stays() {
    let mut reg = Registry::new(arena()).unwrap();
    reg.spawn(Point::new(50, 50), BODY, Team::Neutral, iron());
    reg.spawn(Point::new(40, 50), Point::new(2, 2), Team::Players, walker(3, 0));
    reg.integrate(1);
    reg.settle();
    assert_eq!(reg.entity_at(1).unwrap().pos, Point::new(43, 50));
}

#[test]
fn a_blocked_diagonal_move_keeps_its_free_part() {
    let mut reg = Registry::new(arena()).unwrap();
    reg.spawn(Point::new(50, 50), BODY, Team::Neutral, iron());
    reg.spawn(Point::new(40, 40), Point::new(2, 2), Team::Players, walker(2, 2));
    reg.integrate(2);
    reg.settle();
    assert_eq!(reg.entity_at(1).unwrap().pos, Point::new(40, 44));
}

#[test]
fn the_vertical_part_is_taken_back_if_the_horizontal_does_not_help() {
    let mut reg = Registry::new(arena()).unwrap();
    reg.spawn(Point::new(40, 50), BODY, Team::Neutral, iron());
    reg.spawn(Point::new(40, 40), Point::new(2, 2), Team::Players, walker(2, 2));
    reg.integrate(2);
    reg.settle();
    assert_eq!(reg.entity_at(1).unwrap().pos, Point::new(44, 40));
}

#[test]
fn a_move_blocked_on_both_axes_is_taken_back_whole() {
    let mut reg = Registry::new(arena()).unwrap();
    reg.spawn(Point::new(40, 50), BODY, Team::Neutral, iron());
    reg.spawn(Point::new(50, 40), BODY, Team::Neutral, brick(1));
    reg.spawn(Point::new(40, 40), Point::new(2, 2), Team::Players, walker(2, 2));
    reg.integrate(2);
    reg.settle();
    assert_eq!(reg.entity_at(2).unwrap().pos, Point::new(40, 40));
}

#[test]
fn characters_pass_through_one_another() {
    let mut reg = Registry::new(arena()).unwrap();
    reg.spawn(Point::new(40, 40), BODY, Team::Players, walker(4, 0));
    reg.spawn(Point::new(52, 40), BODY, Team::Enemies, walker(-4, 0));
    reg.integrate(1);
    reg.settle();
    assert_eq!(reg.entity_at(0).unwrap().pos, Point::new(44, 40));
    assert_eq!(reg.entity_at(1).unwrap().pos, Point::new(48, 40));
    assert_eq!(reg.resolve(), vec![]);
}

#[test]
fn projectiles_are_not_settled() {
    let mut reg = Registry::new(arena()).unwrap();
    reg.spawn(Point::new(50, 50), BODY, Team::Neutral, iron());
    reg.spawn(
        Point::new(40, 50),
        SHOT,
        Team::Players,
        Kind::Projectile(Projectile { velocity: Point::new(6, 0), owner: 9, lifetime: 9, damage: 1 }),
    );
    reg.integrate(1);
    reg.settle();
    assert_eq!(reg.entity_at(1).unwrap().pos, Point::new(46, 50));
}

#[test]
fn obstruction_is_by_obstacles_only() {
    let mut reg = Registry::new(arena()).unwrap();
    reg.spawn(Point::new(20, 20), BODY, Team::Players, fighter(1));
    reg.spawn(Point::new(60, 60), BODY, Team::Neutral, brick(1));
    assert!(!reg.is_obstructed(Point::new(20, 20), BODY));
    assert!(reg.is_obstructed(Point::new(56, 56), Point::new(1, 1)));
    assert!(!reg.is_obstructed(Point::new(55, 55), Point::new(0, 0)));
    assert!(!reg.is_obstructed(Point::new(50, 60), BODY));
}

#[test]
fn a_projectile_strikes_the_oldest_of_its_targets() {
    let mut reg = Registry::new(arena()).unwrap();
    reg.spawn(Point::new(50, 50), SHOT, Team::Players, bullet(1));
    reg.spawn(Point::new(90, 90), BODY, Team::Enemies, fighter(3));
    reg.spawn(Point::new(52, 50), BODY, Team::Enemies, fighter(3));
    reg.spawn(Point::new(48, 50), BODY, Team::Enemies, fighter(3));
    assert_eq!(reg.find_target(0), Some(2));
    assert_eq!(
        reg.resolve(),
        vec![Event::Hit { projectile: 0, target: 2, damage: 1 }]
    );
}

#[test]
fn the_choice_of_target_does_not_depend_on_who_came_closer() {
    let mut reg = Registry::new(arena()).unwrap();
    reg.spawn(Point::new(40, 50), BODY, Team::Neutral, brick(5));
    reg.spawn(Point::new(46, 50), BODY, Team::Enemies, fighter(3));
    reg.spawn(Point::new(44, 50), SHOT, Team::Players, bullet(1));
    assert_eq!(reg.find_target(2), Some(0));
    let events = reg.resolve();
    assert_eq!(events, vec![Event::Hit { projectile: 2, target: 0, damage: 1 }]);
    assert_eq!(reg.resolve(), events);
}

#[test]
fn a_projectile_passes_through_its_own_team() {
    let mut reg = Registry::new(arena()).unwrap();
    reg.spawn(Point::new(50, 50), BODY, Team::Players, fighter(3));
    reg.spawn(Point::new(50, 50), SHOT, Team::Players, bullet(5));
    assert_eq!(reg.find_target(1), None);
    assert_eq!(reg.resolve(), vec![]);
}

#[test]
fn a_projectile_passes_an_ally_and_strikes_the_foe_behind() {
    let mut reg = Registry::new(arena()).unwrap();
    reg.spawn(Point::new(50, 50), BODY, Team::Players, fighter(3));
    reg.spawn(Point::new(54, 50), BODY, Team::Enemies, fighter(3));
    reg.spawn(Point::new(52, 50), SHOT, Team::Players, bullet(2));
    assert_eq!(reg.find_target(2), Some(1));
    assert_eq!(reg.resolve(), vec![Event::Hit { projectile: 2, target: 1, damage: 2 }]);
}

#[test]
fn only_characters_and_obstacles_are_targets() {
    let mut reg = Registry::new(arena()).unwrap();
    reg.spawn(Point::new(50, 50), SHOT, Team::Enemies, bullet(1));
    reg.spawn(Point::new(50, 50), BODY, Team::Neutral, Kind::Explosion(Explosion { elapsed: 0, duration: 4 }));
    reg.spawn(Point::new(50, 50), SHOT, Team::Players, bullet(1));
    assert_eq!(reg.find_target(0), None);
    assert_eq!(reg.find_target(2), None);
    assert_eq!(reg.find_target(1), None);
    assert_eq!(reg.find_target(3), None);
    assert_eq!(reg.resolve(), vec![]);
}

#[test]
fn a_hit_that_takes_the_last_health_reports_the_destruction() {
    let mut reg = Registry::new(arena()).unwrap();
    reg.spawn(Point::new(50, 50), BODY, Team::Enemies, fighter(3));
    reg.spawn(Point::new(50, 50), SHOT, Team::Players, bullet(2));
    reg.spawn(Point::new(52, 52), SHOT, Team::Players, bullet(2));
    reg.spawn(Point::new(48, 48), SHOT, Team::Players, bullet(2));
    let before = reg.snapshot();
    assert_eq!(
        reg.resolve(),
        vec![
            Event::Hit { projectile: 1, target: 0, damage: 2 },
            Event::Hit { projectile: 2, target: 0, damage: 2 },
            Event::Destroyed { entity: 0, at: Point::new(50, 50), half: BODY },
            Event::Hit { projectile: 3, target: 0, damage: 2 },
        ]
    );
    assert_eq!(reg.snapshot(), before);
}

#[test]
fn a_shield_nullifies_the_damage_of_every_hit() {
    let mut reg = Registry::new(arena()).unwrap();
    reg.spawn(Point::new(50, 50), BODY, Team::Enemies, shielded(1, 2));
    reg.spawn(Point::new(50, 50), SHOT, Team::Players, bullet(7));
    reg.spawn(Point::new(50, 50), SHOT, Team::Players, bullet(9));
    assert_eq!(
        reg.resolve(),
        vec![
            Event::Hit { projectile: 1, target: 0, damage: 0 },
            Event::Hit { projectile: 2, target: 0, damage: 0 },
        ]
    );
}

#[test]
fn breakable_obstacles_erode_whatever_the_team() {
    let mut reg = Registry::new(arena()).unwrap();
    reg.spawn(Point::new(50, 50), BODY, Team::Neutral, brick(2));
    reg.spawn(Point::new(50, 50), SHOT, Team::Neutral, bullet(1));
    reg.spawn(Point::new(50, 50), SHOT, Team::Enemies, bullet(1));
    assert_eq!(
        reg.resolve(),
        vec![
            Event::Hit { projectile: 1, target: 0, damage: 1 },
            Event::Hit { projectile: 2, target: 0, damage: 1 },
            Event::Destroyed { entity: 0, at: Point::new(50, 50), half: BODY },
        ]
    );
}

#[test]
fn an_indestructible_obstacle_stops_the_projectile_and_nothing_else() {
    let mut reg = Registry::new(arena()).unwrap();
    reg.spawn(Point::new(50, 50), BODY, Team::Neutral, iron());
    reg.spawn(Point::new(50, 50), SHOT, Team::Players, bullet(u32::MAX));
    assert_eq!(reg.resolve(), vec![Event::Hit { projectile: 1, target: 0, damage: 0 }]);
}

#[test]
fn a_projectile_at_the_edge_escapes() {
    let mut reg = Registry::new(arena()).unwrap();
    reg.spawn(Point::new(99, 50), SHOT, Team::Players, bullet(1));
    reg.spawn(Point::new(50, 1), SHOT, Team::Players, bullet(1));
    reg.spawn(Point::new(98, 50), SHOT, Team::Players, bullet(1));
    assert_eq!(
        reg.resolve(),
        vec![Event::Escaped { projectile: 0 }, Event::Escaped { projectile: 1 }]
    );
}

#[test]
fn a_target_at_the_edge_is_struck_before_the_projectile_escapes() {
    let mut reg = Registry::new(arena()).unwrap();
    reg.spawn(Point::new(95, 50), BODY, Team::Enemies, fighter(2));
    reg.spawn(Point::new(99, 50), SHOT, Team::Players, bullet(1));
    assert_eq!(reg.resolve(), vec![Event::Hit { projectile: 1, target: 0, damage: 1 }]);
}

#[test]
fn characters_at_the_edge_cause_no_event() {
    let mut reg = Registry::new(arena()).unwrap();
    reg.spawn(Point::new(5, 5), BODY, Team::Enemies, fighter(2));
    assert_eq!(reg.resolve(), vec![]);
}

#[test]
fn damage_depends_on_shield_and_material() {
    let base = Entity {
        id: 0,
        pos: Point::new(1, 1),
        prev: Point::new(1, 1),
        half: SHOT,
        team: Team::Players,
        kind: bullet(4),
    };
    let target = |kind: Kind| Entity { id: 1, team: Team::Enemies, kind, ..base };
    assert_eq!(strike_damage(&base, &target(fighter(9))), 4);
    assert_eq!(strike_damage(&base, &target(shielded(9, 1))), 0);
    assert_eq!(strike_damage(&base, &target(brick(9))), 4);
    assert_eq!(strike_damage(&base, &target(iron())), 0);
    assert_eq!(strike_damage(&base, &target(bullet(1))), 0);
    assert_eq!(strike_damage(&target(fighter(9)), &target(fighter(9))), 0);
}
