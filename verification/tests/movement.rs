use arena_combat::entity::{Character, Entity, Explosion, Kind, Material, Obstacle, Projectile, Team};
use arena_combat::geometry::{Arena, Direction, Point};
use arena_combat::movement::step_entity;
use arena_combat::registry::Registry;

fn arena() -> Arena {
    Arena { min: Point::new(0, 0), max: Point::new(100, 100) }
}

fn bullet(vx: i32, vy: i32) -> Kind {
    Kind::Projectile(Projectile { velocity: Point::new(vx, vy), owner: 0, lifetime: 9, damage: 1 })
}

fn walker(vx: i32, vy: i32) -> Kind {
    Kind::Character(Character {
        velocity: Point::new(vx, vy),
        facing: Direction::Right,
        health: 3,
        shield_active: false,
        shield_timer: 0,
        cooldown: 0,
    })
}

#[test]
fn position_advances_by_velocity_times_timestep() {
    let mut reg = Registry::new(arena()).unwrap();
    reg.spawn(Point::new(10, 10), Point::new(1, 1), Team::Players, bullet(3, -2));
    reg.integrate(4);
    let e = reg.entity_at(0).unwrap();
    assert_eq!(e.pos, Point::new(22, 2));
    assert_eq!(e.prev, Point::new(10, 10));
    reg.integrate(1);
    let e = reg.entity_at(0).unwrap();
    assert_eq!(e.pos, Point::new(25, 1));
    assert_eq!(e.prev, Point::new(22, 2));
}

#[test]
fn movement_is_clamped_to_the_arena_less_the_half_extent() {
    let mut reg = Registry::new(arena()).unwrap();
    reg.spawn(Point::new(95, 50), Point::new(2, 3), Team::Players, walker(5, 0));
    reg.spawn(Point::new(5, 5), Point::new(2, 3), Team::Enemies, walker(-5, -5));
    reg.spawn(Point::new(50, 95), Point::new(1, 1), Team::Enemies, bullet(0, 50));
    reg.integrate(2);
    assert_eq!(reg.entity_at(0).unwrap().pos, Point::new(98, 50));
    assert_eq!(reg.entity_at(1).unwrap().pos, Point::new(2, 3));
    assert_eq!(reg.entity_at(2).unwrap().pos, Point::new(50, 99));
}

#[test]
fn every_moved_entity_lies_within_the_bounds() {
    let mut reg = Registry::new(arena()).unwrap();
    let half = Point::new(3, 7);
    reg.spawn(Point::new(50, 50), half, Team::Players, walker(i32::MAX, i32::MIN));
    reg.spawn(Point::new(50, 50), half, Team::Players, bullet(i32::MIN, i32::MAX));
    reg.spawn(Point::new(50, 50), half, Team::Players, bullet(-7, 11));
    reg.integrate(u16::MAX);
    for e in reg.snapshot() {
        assert!(3 <= e.pos.x && e.pos.x <= 97);
        assert!(7 <= e.pos.y && e.pos.y <= 93);
    }
    assert_eq!(reg.entity_at(0).unwrap().pos, Point::new(97, 7));
    assert_eq!(reg.entity_at(1).unwrap().pos, Point::new(3, 93));
}

#[test]
fn obstacles_and_explosions_do_not_move() {
    let mut reg = Registry::new(arena()).unwrap();
    let half = Point::new(2, 2);
    let brick = Kind::Obstacle(Obstacle { material: Material::Breakable, health: 2 });
    let dust = Kind::Explosion(Explosion { elapsed: 0, duration: 5 });
    reg.spawn(Point::new(10, 10), half, Team::Neutral, brick);
    reg.spawn(Point::new(20, 20), half, Team::Neutral, dust);
    let before = reg.snapshot();
    reg.integrate(7);
    assert_eq!(reg.snapshot(), before);
}

#[test]
fn movement_changes_positions_only() {
    let mut reg = Registry::new(arena()).unwrap();
    reg.spawn(Point::new(10, 10), Point::new(2, 2), Team::Enemies, walker(1, 1));
    let before = reg.entity_at(0).unwrap();
    reg.integrate(3);
    let after = reg.entity_at(0).unwrap();
    assert_eq!(after, Entity { pos: Point::new(13, 13), prev: Point::new(10, 10), ..before });
}

#[test]
fn a_timestep_of_zero_moves_nothing_but_forgets_the_past() {
    let mut reg = Registry::new(arena()).unwrap();
    reg.spawn(Point::new(10, 10), Point::new(2, 2), Team::Enemies, walker(4, 0));
    reg.integrate(1);
    reg.integrate(0);
    let e = reg.entity_at(0).unwrap();
    assert_eq!(e.pos, Point::new(14, 10));
    assert_eq!(e.prev, Point::new(14, 10));
}

#[test]
fn a_single_entity_steps_like_the_registry() {
    let e = Entity {
        id: 4,
        pos: Point::new(50, 50),
        prev: Point::new(0, 0),
        half: Point::new(5, 5),
        team: Team::Players,
        kind: bullet(-10, 30),
    };
    let m = step_entity(&e, &arena(), 2);
    assert_eq!(m, Entity { pos: Point::new(30, 95), prev: Point::new(50, 50), ..e });
}
