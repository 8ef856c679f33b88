use sneak::game::{Game, A_KEY, D_KEY, Q_KEY, S_KEY, W_KEY};
use sneak::geometry::{Vec2i16, BOX_CHAR};
use sneak::render::Renderer;

fn v(x: i16, y: i16) -> Vec2i16 {
    Vec2i16 { x, y }
}

const HEAD: usize = 4;

#[test]
fn new_game_registers_everything() {
    let mut r = Renderer::initialize(v(10, 10));
    let mut g = Game::initialize(&mut r);
    assert!(g.alive);
    assert_eq!(g.get_score(), 0);
    assert_eq!(r.object_count(), 4 + 1 + 12 + 81);
    assert_eq!(*r.object(HEAD).get_pos(), v(5, 4));
    assert_eq!(*r.object(0).get_size(), v(1, 9));
    assert_eq!(*r.object(1).get_pos(), v(9, 0));
    assert_eq!(*r.object(3).get_pos(), v(0, 8));
    assert_eq!(*r.object(3).get_size(), v(10, 1));
    for h in HEAD + 1..r.object_count() {
        assert_eq!(*r.object(h).get_pos(), v(-1, -1));
    }
}

#[test]
fn keys_steer_the_head() {
    let mut r = Renderer::initialize(v(20, 20));
    let mut g = Game::initialize(&mut r);
    let start = *r.object(HEAD).get_pos();
    g.update_with(&mut r, W_KEY, v(50, 50));
    assert_eq!(*r.object(HEAD).get_pos(), v(start.x, start.y - 1));
    g.update_with(&mut r, D_KEY, v(50, 50));
    assert_eq!(*r.object(HEAD).get_pos(), v(start.x + 1, start.y - 1));
    g.update_with(&mut r, S_KEY, v(50, 50));
    assert_eq!(*r.object(HEAD).get_pos(), v(start.x + 1, start.y));
    g.update_with(&mut r, A_KEY, v(50, 50));
    assert_eq!(*r.object(HEAD).get_pos(), v(start.x, start.y));
    g.update_with(&mut r, 0, v(50, 50));
    assert_eq!(*r.object(HEAD).get_pos(), v(start.x - 1, start.y));
    assert!(g.alive);
}

#[test]
fn quit_key_ends_the_game() {
    let mut r = Renderer::initialize(v(20, 20));
    let mut g = Game::initialize(&mut r);
    g.update_with(&mut r, Q_KEY, v(50, 50));
    assert!(!g.alive);
}

#[test]
fn wall_kills_the_head() {
    let mut r = Renderer::initialize(v(10, 10));
    let mut g = Game::initialize(&mut r);
    for _ in 0..3 {
        g.update_with(&mut r, W_KEY, v(50, 50));
        assert!(g.alive);
    }
    g.update_with(&mut r, W_KEY, v(50, 50));
    assert!(!g.alive);
}

#[test]
fn first_tick_spawns_an_apple_from_the_spawn_position() {
    let mut r = Renderer::initialize(v(20, 20));
    let mut g = Game::initialize(&mut r);
    g.update_with(&mut r, 0, v(3, 30));
    assert_eq!(*r.object(HEAD + 1).get_pos(), v(4, 31 % 19));
    assert_eq!(*r.object(HEAD + 2).get_pos(), v(-1, -1));
}

#[test]
fn random_spawn_lands_inside_the_field() {
    let mut r = Renderer::initialize(v(30, 30));
    let mut g = Game::initialize(&mut r);
    g.update(&mut r, 0);
    let p = *r.object(HEAD + 1).get_pos();
    assert!(p.x >= 0 && p.x < 29);
    assert!(p.y >= 0 && p.y < 29);
}

#[test]
fn eating_an_apple_scores_and_parks_it() {
    let mut r = Renderer::initialize(v(20, 20));
    let mut g = Game::initialize(&mut r);
    let start = *r.object(HEAD).get_pos();
    // The apple appears at (spawn + 1), two cells above the head.
    g.update_with(&mut r, W_KEY, v(start.x - 1, start.y - 3));
    assert_eq!(*r.object(HEAD + 1).get_pos(), v(start.x, start.y - 2));
    g.update_with(&mut r, W_KEY, v(0, 0));
    assert_eq!(g.get_score(), 1);
    assert!(g.alive);
    assert_eq!(*r.object(HEAD + 1).get_pos(), v(-1, -1));
    let f = r.render(v(20, 20));
    assert!(f.repaint.is_none());
    let head = *r.object(HEAD).get_pos();
    assert_eq!(r.front_buffer()[(head.y as usize) * 20 + head.x as usize], BOX_CHAR);
}

#[test]
fn second_spawn_revives_next_dead_apple() {
    let mut r = Renderer::initialize(v(40, 40));
    let mut g = Game::initialize(&mut r);
    for _ in 0..21 {
        g.update_with(&mut r, D_KEY, v(3, 30));
    }
    assert_eq!(*r.object(HEAD + 1).get_pos(), v(4, 31));
    assert_eq!(*r.object(HEAD + 2).get_pos(), v(4, 31));
    assert_eq!(*r.object(HEAD + 3).get_pos(), v(-1, -1));
}

#[test]
fn registry_holds_walls_head_apples_then_tail() {
    let mut r = Renderer::initialize(v(6, 5));
    let _g = Game::initialize(&mut r);
    assert_eq!(r.object_count(), 4 + 1 + 12 + 5 * 4);
    assert_eq!(*r.object(0).get_pos(), v(0, 0));
    assert_eq!(*r.object(0).get_size(), v(1, 4));
    assert_eq!(*r.object(1).get_pos(), v(5, 0));
    assert_eq!(*r.object(2).get_size(), v(6, 1));
    assert_eq!(*r.object(3).get_pos(), v(0, 3));
    assert_eq!(*r.object(HEAD).get_pos(), v(3, 2));
    assert_eq!(*r.object(HEAD).get_size(), v(1, 1));
}
