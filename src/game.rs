use vstd::prelude::*;
use rand::Rng;
use crate::geometry::{Vec2i16, Square, contains};
use crate::render::{MashedPixels, Renderer};

verus! {

pub const W_KEY: u32 = 87;
pub const A_KEY: u32 = 65;
pub const D_KEY: u32 = 68;
pub const S_KEY: u32 = 83;
pub const Q_KEY: u32 = 81;

/// How many apples the game keeps.
pub const APPLE_COUNT: usize = 12;

/// How many ticks pass between two apple spawns.
pub const SPAWN_PERIOD: u64 = 20;

/// The tail index of a segment that is not yet part of the tail.
pub const UNPLACED: usize = usize::MAX;

#[derive(Clone, Copy, Debug, PartialEq, Eq, Structural)]
pub enum Direction {
    Up,
    Right,
    Down,
    Left,
}

/// The playing field: its size, its center, and the handles of its four
/// walls.
pub struct World {
    pub size: Vec2i16,
    pub center: Vec2i16,
    pub walls: Vec<usize>,
}

pub struct Apple {
    pub pixels: usize,
    pub alive: bool,
}

/// A tail segment; `index` is its place counted from the head, or
/// `UNPLACED`.
pub struct Peace {
    pub pixels: usize,
    pub index: usize,
}

/// The snake's head.
pub struct Sneak {
    pub pixels: usize,
    pub direction: Direction,
    pub collected: i32,
}

pub struct Game {
    pub alive: bool,
    world: World,
    tick: u64,
    main_actor: Sneak,
    sneak_peaces: Vec<Peace>,
    apples: Vec<Apple>,
}

/// The direction after the key with the given code is seen.
pub open spec fn next_direction(d: Direction, key: u32) -> Direction {
    if key == A_KEY {
        Direction::Left
    } else if key == S_KEY {
        Direction::Down
    } else if key == D_KEY {
        Direction::Right
    } else if key == W_KEY {
        Direction::Up
    } else {
        d
    }
}

/// One less, stopping at the smallest value.
pub open spec fn dec(v: i16) -> i16 {
    if v > i16::MIN { (v - 1) as i16 } else { v }
}

/// One more, stopping at the largest value.
pub open spec fn inc(v: i16) -> i16 {
    if v < i16::MAX { (v + 1) as i16 } else { v }
}

/// The cell one step from `p` in direction `d`.
pub open spec fn advanced(p: Vec2i16, d: Direction) -> Vec2i16 {
    match d {
        Direction::Up => Vec2i16 { x: p.x, y: dec(p.y) },
        Direction::Right => Vec2i16 { x: inc(p.x), y: p.y },
        Direction::Down => Vec2i16 { x: p.x, y: inc(p.y) },
        Direction::Left => Vec2i16 { x: dec(p.x), y: p.y },
    }
}

/// Whether the drawable with handle `h` holds the cell `c`.
pub open spec fn hits(objs: Seq<MashedPixels>, h: usize, c: Vec2i16) -> bool {
    contains(objs[h as int].sqare, c.x as int, c.y as int)
}

/// Whether a wall or a tail segment holds the cell `c`.
pub open spec fn deadly_at(walls: Seq<usize>, peaces: Seq<Peace>, objs: Seq<MashedPixels>, c: Vec2i16) -> bool {
    (exists|k: int| 0 <= k < walls.len() && hits(objs, #[trigger] walls[k], c))
    || (exists|k: int| 0 <= k < peaces.len() && hits(objs, #[trigger] peaces[k].pixels, c))
}

/// Whether the apple at `k` is the first one that holds the cell `c`.
pub open spec fn first_apple_at(apples: Seq<Apple>, objs: Seq<MashedPixels>, c: Vec2i16, k: int) -> bool {
    &&& 0 <= k < apples.len()
    &&& hits(objs, apples[k].pixels, c)
    &&& forall|j: int| 0 <= j < k ==> !hits(objs, #[trigger] apples[j].pixels, c)
}

/// The drawables with the one of handle `h` moved to `pos`.
pub open spec fn moved(objs: Seq<MashedPixels>, h: usize, pos: Vec2i16) -> Seq<MashedPixels> {
    objs.update(h as int, MashedPixels { sqare: Square { position: pos, size: objs[h as int].sqare.size } })
}

/// The four walls of a display of dimensions `dim`, in order: left, right,
/// top, and the bottom one on the row above the last.
pub open spec fn wall(dim: Vec2i16, k: int) -> Square {
    let h = (dim.y - 1) as i16;
    if k == 0 {
        Square { position: Vec2i16 { x: 0, y: 0 }, size: Vec2i16 { x: 1, y: h } }
    } else if k == 1 {
        Square { position: Vec2i16 { x: (dim.x - 1) as i16, y: 0 }, size: Vec2i16 { x: 1, y: h } }
    } else if k == 2 {
        Square { position: Vec2i16 { x: 0, y: 0 }, size: Vec2i16 { x: dim.x, y: 1 } }
    } else {
        Square { position: Vec2i16 { x: 0, y: (h - 1) as i16 }, size: Vec2i16 { x: dim.x, y: 1 } }
    }
}

/// Relies on rand's `thread_rng().gen_range(0..100)`: a number drawn from
/// `0 .. 100`.
#[verifier::external_body]
fn random_number() -> (r: i16)
    ensures
        0 <= r < 100,
{
    rand::thread_rng().gen_range(0..100)
}

impl World {
    /// The world of the renderer's display: four walls along its edges,
    /// registered with the renderer, and the center of the field.
    pub fn initialize(output: &mut Renderer) -> (r: Self)
        requires
            old(output).objects().len() + 4 < usize::MAX,
            old(output).dim().x >= 1,
            old(output).dim().y >= 1,
        ensures
            r.size == (Vec2i16 { x: (old(output).dim().x - 1) as i16, y: (old(output).dim().y - 1) as i16 }),
            r.center == (Vec2i16 { x: (old(output).dim().x / 2) as i16, y: ((old(output).dim().y - 1) / 2) as i16 }),
            r.walls@.len() == 4,
            forall|k: int| 0 <= k < 4 ==> r.walls@[k] == old(output).objects().len() + k,
            final(output).objects().len() == old(output).objects().len() + 4,
            forall|k: int|
                0 <= k < 4 ==> (#[trigger] final(output).objects()[old(output).objects().len() + k]).sqare == wall(
                    old(output).dim(),
                    k,
                ),
            final(output).objects().subrange(0, old(output).objects().len() as int) == old(output).objects(),
            final(output).back() == old(output).back(),
            final(output).front() == old(output).front(),
            final(output).dim() == old(output).dim(),
    {
        let dim = output.terminal_dim();
        let size = Vec2i16 { x: dim.x - 1, y: dim.y - 1 };
        let td = Vec2i16 { x: dim.x, y: dim.y - 1 };
        let shapes = [
            Square { position: Vec2i16 { x: 0, y: 0 }, size: Vec2i16 { x: 1, y: td.y } },
            Square { position: Vec2i16 { x: td.x - 1, y: 0 }, size: Vec2i16 { x: 1, y: td.y } },
            Square { position: Vec2i16 { x: 0, y: 0 }, size: Vec2i16 { x: td.x, y: 1 } },
            Square { position: Vec2i16 { x: 0, y: td.y - 1 }, size: Vec2i16 { x: td.x, y: 1 } },
        ];
        let ghost o0 = output.objects();
        assert(forall|j: int| 0 <= j < 4 ==> shapes@[j] == wall(dim, j));
        let mut walls: Vec<usize> = Vec::new();
        let mut k: usize = 0;
        while k < 4
            invariant
                k <= 4,
                walls@.len() == k,
                forall|j: int| 0 <= j < k ==> walls@[j] == o0.len() + j,
                output.objects().len() == o0.len() + k,
                forall|j: int| 0 <= j < 4 ==> shapes@[j] == wall(dim, j),
                dim == old(output).dim(),
                forall|j: int| 0 <= j < k ==> (#[trigger] output.objects()[o0.len() + j]).sqare == wall(dim, j),
                o0.len() + 4 < usize::MAX,
                output.objects().subrange(0, o0.len() as int) == o0,
                output.back() == old(output).back(),
                output.front() == old(output).front(),
                output.dim() == old(output).dim(),
            decreases 4 - k,
        {
            let wall = MashedPixels { sqare: shapes[k] };
            let ghost before = output.objects();
            let h = wall.initialize(output);
            assert(output.objects().subrange(0, o0.len() as int) =~= before.subrange(0, o0.len() as int));
            walls.push(h);
            k = k + 1;
        }
        World { size, center: Vec2i16 { x: td.x / 2, y: td.y / 2 }, walls }
    }
}


impl Sneak {
    /// A one-cell head at the world's center, heading up, registered with
    /// the renderer.
    pub fn initialize(output: &mut Renderer, world: &World) -> (r: Self)
        requires
            old(output).objects().len() + 1 < usize::MAX,
        ensures
            r.pixels == old(output).objects().len(),
            r.direction == Direction::Up,
            r.collected == 0,
            final(output).objects() == old(output).objects().push(
                MashedPixels { sqare: Square { position: world.center, size: Vec2i16 { x: 1, y: 1 } } },
            ),
            final(output).back() == old(output).back(),
            final(output).front() == old(output).front(),
            final(output).dim() == old(output).dim(),
    {
        let head = MashedPixels {
            sqare: Square { position: world.center, size: Vec2i16 { x: 1, y: 1 } },
        };
        let pixels = head.initialize(output);
        Sneak { pixels, direction: Direction::Up, collected: 0 }
    }
}

/// A one-cell drawable off the grid.
pub open spec fn parked() -> MashedPixels {
    MashedPixels { sqare: Square { position: Vec2i16 { x: -1i16, y: -1i16 }, size: Vec2i16 { x: 1, y: 1 } } }
}

impl Game {
    pub closed spec fn is_alive(&self) -> bool {
        self.alive
    }

    pub closed spec fn head(&self) -> usize {
        self.main_actor.pixels
    }

    pub closed spec fn direction(&self) -> Direction {
        self.main_actor.direction
    }

    pub closed spec fn score(&self) -> i32 {
        self.main_actor.collected
    }

    pub closed spec fn tick(&self) -> u64 {
        self.tick
    }

    pub closed spec fn world_size(&self) -> Vec2i16 {
        self.world.size
    }

    pub closed spec fn world_center(&self) -> Vec2i16 {
        self.world.center
    }

    pub closed spec fn walls(&self) -> Seq<usize> {
        self.world.walls@
    }

    pub closed spec fn apples(&self) -> Seq<Apple> {
        self.apples@
    }

    pub closed spec fn peaces(&self) -> Seq<Peace> {
        self.sneak_peaces@
    }

    /// The handles point into `objs`: the walls before the head, then the
    /// head, the apples and the tail segments one after another; the score
    /// counts at most every segment; the field is not empty.
    pub open spec fn wf(&self, objs: Seq<MashedPixels>) -> bool {
        let h = self.head() as int;
        &&& forall|k: int| 0 <= k < self.walls().len() ==> #[trigger] self.walls()[k] < h
        &&& forall|k: int| 0 <= k < self.apples().len() ==> #[trigger] self.apples()[k].pixels == h + 1 + k
        &&& forall|k: int|
            0 <= k < self.peaces().len() ==> #[trigger] self.peaces()[k].pixels == h + 1 + self.apples().len() + k
        &&& h + 1 + self.apples().len() + self.peaces().len() <= objs.len()
        &&& 0 <= self.score() <= self.peaces().len() <= i32::MAX
        &&& self.world_size().x > 0
        &&& self.world_size().y > 0
        &&& self.tick() < u64::MAX
    }

    /// A new game on the renderer's display: the world, the head at its
    /// center, twelve dead apples and one tail segment per cell of the
    /// field, all registered with the renderer.
    pub fn initialize(output: &mut Renderer) -> (r: Self)
        requires
            old(output).objects().len() <= usize::MAX / 2,
            old(output).dim().x >= 2,
            old(output).dim().y >= 2,
        ensures
            r.wf(final(output).objects()),
            r.is_alive(),
            r.score() == 0,
            r.tick() == 0,
            r.direction() == Direction::Up,
            r.world_size() == (Vec2i16 { x: (old(output).dim().x - 1) as i16, y: (old(output).dim().y - 1) as i16 }),
            r.world_center() == (Vec2i16 { x: (old(output).dim().x / 2) as i16, y: ((old(output).dim().y - 1) / 2) as i16 }),
            r.apples().len() == APPLE_COUNT,
            r.peaces().len() == r.world_size().x * r.world_size().y,
            r.walls().len() == 4,
            forall|k: int| 0 <= k < 4 ==> #[trigger] r.walls()[k] == old(output).objects().len() + k,
            r.head() == old(output).objects().len() + 4,
            final(output).objects().len() == old(output).objects().len() + 4 + 1 + APPLE_COUNT + r.peaces().len(),
            final(output).objects().subrange(0, old(output).objects().len() as int) == old(output).objects(),
            forall|k: int|
                0 <= k < 4 ==> (#[trigger] final(output).objects()[old(output).objects().len() + k]).sqare == wall(
                    old(output).dim(),
                    k,
                ),
            forall|k: int| 0 <= k < r.apples().len() ==> !(#[trigger] r.apples()[k]).alive,
            forall|k: int| 0 <= k < r.peaces().len() ==> (#[trigger] r.peaces()[k]).index == UNPLACED,
            forall|k: int|
                r.head() < k < final(output).objects().len() ==> #[trigger] final(output).objects()[k] == parked(),
            final(output).objects()[r.head() as int].sqare == (Square {
                position: Vec2i16 { x: (old(output).dim().x / 2) as i16, y: ((old(output).dim().y - 1) / 2) as i16 },
                size: Vec2i16 { x: 1, y: 1 },
            }),
            final(output).back() == old(output).back(),
            final(output).front() == old(output).front(),
            final(output).dim() == old(output).dim(),
    {
        let ghost oi = output.objects();
        let w = World::initialize(output);
        let ma = Sneak::initialize(output, &w);
        assert(output.objects().subrange(0, oi.len() as int) =~= oi);
        let ghost h = ma.pixels;
        let ghost o1 = output.objects();
        let mut apples_vec: Vec<Apple> = Vec::new();
        let mut k: usize = 0;
        while k < APPLE_COUNT
            invariant
                k <= APPLE_COUNT,
                apples_vec@.len() == k,
                h + 1 == o1.len(),
                o1.len() <= usize::MAX / 2 + 5,
                output.objects().len() == o1.len() + k,
                output.objects().subrange(0, o1.len() as int) == o1,
                forall|j: int| 0 <= j < k ==> (#[trigger] apples_vec@[j]).pixels == h + 1 + j && !apples_vec@[j].alive,
                forall|j: int| h < j < output.objects().len() ==> #[trigger] output.objects()[j] == parked(),
                output.back() == old(output).back(),
                output.front() == old(output).front(),
                output.dim() == old(output).dim(),
            decreases APPLE_COUNT - k,
        {
            let m = MashedPixels {
                sqare: Square { position: Vec2i16 { x: -1, y: -1 }, size: Vec2i16 { x: 1, y: 1 } },
            };
            let ghost before = output.objects();
            let pixels = m.initialize(output);
            assert(output.objects().subrange(0, o1.len() as int) =~= before.subrange(0, o1.len() as int));
            apples_vec.push(Apple { pixels, alive: false });
            k = k + 1;
        }
        assert(0 < w.size.x && 0 < w.size.y);
        assert(0 <= w.size.y * w.size.x <= 32767 * 32767 && w.size.y * w.size.x == w.size.x * w.size.y) by (nonlinear_arith)
            requires
                0 < w.size.x <= 32767,
                0 < w.size.y <= 32767,
        ;
        let count = (w.size.y as usize) * (w.size.x as usize);
        let mut sneak_vec: Vec<Peace> = Vec::new();
        let mut k: usize = 0;
        while k < count
            invariant
                k <= count,
                count == w.size.x * w.size.y,
                count <= 32767 * 32767,
                sneak_vec@.len() == k,
                h + 1 == o1.len(),
                o1.len() <= usize::MAX / 2 + 5,
                output.objects().len() == o1.len() + APPLE_COUNT + k,
                output.objects().subrange(0, o1.len() as int) == o1,
                forall|j: int|
                    0 <= j < k ==> (#[trigger] sneak_vec@[j]).pixels == h + 1 + APPLE_COUNT + j && sneak_vec@[j].index
                        == UNPLACED,
                forall|j: int| h < j < output.objects().len() ==> #[trigger] output.objects()[j] == parked(),
                output.back() == old(output).back(),
                output.front() == old(output).front(),
                output.dim() == old(output).dim(),
            decreases count - k,
        {
            let m = MashedPixels {
                sqare: Square { position: Vec2i16 { x: -1, y: -1 }, size: Vec2i16 { x: 1, y: 1 } },
            };
            let ghost before = output.objects();
            let pixels = m.initialize(output);
            assert(output.objects().subrange(0, o1.len() as int) =~= before.subrange(0, o1.len() as int));
            sneak_vec.push(Peace { pixels, index: UNPLACED });
            k = k + 1;
        }
        assert(o1[h as int] == output.objects().subrange(0, o1.len() as int)[h as int]);
        assert forall|k: int| 0 <= k < 4 implies (#[trigger] output.objects()[oi.len() + k]).sqare == wall(old(output).dim(), k) by {
            assert(o1[oi.len() + k] == output.objects().subrange(0, o1.len() as int)[oi.len() + k]);
        }
        assert(output.objects().subrange(0, oi.len() as int) =~= o1.subrange(0, oi.len() as int));
        Game {
            alive: true,
            world: w,
            tick: 0,
            main_actor: ma,
            apples: apples_vec,
            sneak_peaces: sneak_vec,
        }
    }

    /// How many apples the snake has eaten.
    pub fn get_score(&mut self) -> (r: i32)
        ensures
            r == old(self).score(),
            *final(self) == *old(self),
    {
        self.main_actor.collected
    }

    /// Whether a wall or a tail segment holds the cell `coord`.
    pub fn check_is_in_deadly_collison(&self, output: &Renderer, coord: &Vec2i16) -> (r: bool)
        requires
            self.wf(output.objects()),
        ensures
            r == deadly_at(self.walls(), self.peaces(), output.objects(), *coord),
    {
        let n = self.world.walls.len();
        let mut k: usize = 0;
        while k < n
            invariant
                k <= n,
                n == self.walls().len(),
                self.wf(output.objects()),
                forall|j: int| 0 <= j < k ==> !hits(output.objects(), #[trigger] self.walls()[j], *coord),
            decreases n - k,
        {
            if holds(output.object(self.world.walls[k]), coord) {
                return true;
            }
            k = k + 1;
        }
        let n = self.sneak_peaces.len();
        let mut k: usize = 0;
        while k < n
            invariant
                k <= n,
                n == self.peaces().len(),
                self.wf(output.objects()),
                forall|j: int| 0 <= j < self.walls().len() ==> !hits(output.objects(), #[trigger] self.walls()[j], *coord),
                forall|j: int| 0 <= j < k ==> !hits(output.objects(), #[trigger] self.peaces()[j].pixels, *coord),
            decreases n - k,
        {
            if holds(output.object(self.sneak_peaces[k].pixels), coord) {
                return true;
            }
            k = k + 1;
        }
        false
    }

    /// When an apple holds the cell `coord`, the first such apple is eaten:
    /// it dies and its drawable is parked off the grid.
    pub fn check_is_in_happy_collison(&mut self, output: &mut Renderer, coord: &Vec2i16) -> (r: bool)
        requires
            old(self).wf(old(output).objects()),
        ensures
            final(self).wf(final(output).objects()),
            r == exists|k: int| first_apple_at(old(self).apples(), old(output).objects(), *coord, k),
            r == exists|k: int|
                0 <= k < old(self).apples().len() && hits(old(output).objects(), #[trigger] old(self).apples()[k].pixels, *coord),
            final(self).apples() == eaten_apples(old(self).apples(), old(output).objects(), *coord),
            final(output).objects() == eaten_objects(old(self).apples(), old(output).objects(), *coord),
            r ==> exists|k: int| {
                &&& first_apple_at(old(self).apples(), old(output).objects(), *coord, k)
                &&& final(self).apples() == old(self).apples().update(
                    k,
                    Apple { pixels: old(self).apples()[k].pixels, alive: false },
                )
                &&& final(output).objects() == moved(
                    old(output).objects(),
                    old(self).apples()[k].pixels,
                    Vec2i16 { x: -1i16, y: -1i16 },
                )
            },
            !r ==> final(self).apples() == old(self).apples() && final(output).objects() == old(output).objects(),
            final(output).objects().len() == old(output).objects().len(),
            forall|i: int|
                0 <= i < old(output).objects().len() && (i <= old(self).head() || i > old(self).head() + old(self).apples().len())
                    ==> #[trigger] final(output).objects()[i] == old(output).objects()[i],
            final(self).is_alive() == old(self).is_alive(),
            final(self).head() == old(self).head(),
            final(self).direction() == old(self).direction(),
            final(self).score() == old(self).score(),
            final(self).tick() == old(self).tick(),
            final(self).walls() == old(self).walls(),
            final(self).peaces() == old(self).peaces(),
            final(self).world_size() == old(self).world_size(),
            final(self).world_center() == old(self).world_center(),
            final(output).back() == old(output).back(),
            final(output).front() == old(output).front(),
            final(output).dim() == old(output).dim(),
    {
        let n = self.apples.len();
        let mut k: usize = 0;
        while k < n
            invariant
                k <= n,
                n == self.apples@.len(),
                *self == *old(self),
                *output == *old(output),
                self.wf(output.objects()),
                forall|j: int| 0 <= j < k ==> !hits(output.objects(), #[trigger] self.apples@[j].pixels, *coord),
            decreases n - k,
        {
            let h = self.apples[k].pixels;
            if holds(output.object(h), coord) {
                assert(first_apple_at(old(self).apples(), old(output).objects(), *coord, k as int));
                proof {
                    let c = choose|c: int| first_apple_at(old(self).apples(), old(output).objects(), *coord, c);
                    if c < k {
                        assert(!hits(old(output).objects(), old(self).apples()[c].pixels, *coord));
                    }
                    if k < c {
                        assert(!hits(old(output).objects(), old(self).apples()[k as int].pixels, *coord));
                    }
                }
                self.apples.set(k, Apple { pixels: h, alive: false });
                output.set_object_pos(h, Vec2i16 { x: -1, y: -1 });
                proof {
                    lemma_wf_kept(*old(self), old(output).objects(), *self, output.objects());
                }
                return true;
            }
            k = k + 1;
        }
        false
    }

    /// One tick with a freshly drawn spawn position; see `update_with`.
    pub fn update(&mut self, output: &mut Renderer, last_keystroke: u32)
        requires
            old(self).wf(old(output).objects()),
        ensures
            final(self).wf(final(output).objects()),
            exists|spawn: Vec2i16|
                0 <= spawn.x < 100 && 0 <= spawn.y < 100 && #[trigger] tick_post(
                    *old(self),
                    old(output).objects(),
                    last_keystroke,
                    spawn,
                    *final(self),
                    final(output).objects(),
                ),
            final(output).back() == old(output).back(),
            final(output).front() == old(output).front(),
            final(output).dim() == old(output).dim(),
    {
        let spawn = Game::random_vec2i16();
        self.update_with(output, last_keystroke, spawn);
    }

    /// A spawn position drawn from `0 .. 100` on each axis.
    fn random_vec2i16() -> (v: Vec2i16)
        ensures
            0 <= v.x < 100,
            0 <= v.y < 100,
    {
        let x = random_number();
        let y = random_number();
        Vec2i16 { x, y }
    }

    /// One tick of the game: the last key steers the head (`Q_KEY` ends the
    /// game); the head moves one cell; every `SPAWN_PERIOD` ticks the first
    /// dead apple comes to life at `spawn` plus one, wrapped to the field;
    /// the head dies on a wall or a tail segment; eating an apple grows the
    /// score and the tail, which otherwise follows the head.
    pub fn update_with(&mut self, output: &mut Renderer, last_keystroke: u32, spawn: Vec2i16)
        requires
            old(self).wf(old(output).objects()),
            spawn.x >= 0,
            spawn.y >= 0,
        ensures
            final(self).wf(final(output).objects()),
            tick_post(*old(self), old(output).objects(), last_keystroke, spawn, *final(self), final(output).objects()),
            final(output).back() == old(output).back(),
            final(output).front() == old(output).front(),
            final(output).dim() == old(output).dim(),
    {
        let ghost o0 = output.objects();
        let h = self.main_actor.pixels;
        let last_pos = *output.object(h).get_pos();
        let dir = steer(self.main_actor.direction, last_keystroke);
        self.main_actor.direction = dir;
        if last_keystroke == Q_KEY {
            self.alive = false;
        }
        let next = advance(last_pos, dir);
        output.set_object_pos(h, next);
        let ghost head_moved = output.objects();
        assert(head_moved == moved(o0, h, next));
        let ghost g_h = *self;
        proof {
            lemma_wf_kept(*old(self), o0, *self, output.objects());
        }
        if self.tick % SPAWN_PERIOD == 0 {
            let wx = self.world.size.x as i32;
            let wy = self.world.size.y as i32;
            let pos = Vec2i16 {
                x: ((spawn.x as i32 + 1) % wx) as i16,
                y: ((spawn.y as i32 + 1) % wy) as i16,
            };
            assert(pos == spawn_cell(old(self).world_size(), spawn));
            self.spawn_apple(output, pos);
        }
        let ghost g1 = *self;
        let ghost o1 = output.objects();
        let ghost before_meal = if old(self).tick() % SPAWN_PERIOD == 0 {
            spawned(old(self).apples(), head_moved, spawn_cell(old(self).world_size(), spawn))
        } else {
            head_moved
        };
        assert(o1 == before_meal);
        assert(g_h.apples() == old(self).apples());
        proof {
            lemma_deadly_frame(g1, o0, o1, next);
        }
        assert(o1[h as int].sqare == (Square { position: next, size: o0[h as int].sqare.size }));
        if self.check_is_in_deadly_collison(output, &next) {
            self.alive = false;
        }
        assert(self.alive == (old(self).alive && last_keystroke != Q_KEY && !deadly_at(old(self).walls(), old(self).peaces(), o0, next)));
        let ghost g2 = *self;
        proof {
            lemma_wf_kept(g1, o1, g2, o1);
        }
        let ate = self.meal(output, next, last_pos);
        proof {
            assert forall|k: int| 0 <= k < old(self).peaces().len() implies #[trigger] o1[old(self).peaces()[k].pixels as int] == o0[old(self).peaces()[k].pixels as int] by {
                assert(old(self).peaces()[k].pixels == old(self).head() + 1 + old(self).apples().len() + k);
            }
            assert(g2.peaces() == old(self).peaces());
            lemma_tail_post_rebase(old(self).peaces(), o1, o0, self.peaces(), output.objects(), ate, self.score() as int, last_pos, self.score() as int);
            assert forall|k: int| 0 <= k < g2.apples().len() implies #[trigger] g2.apples()[k].pixels == old(self).apples()[k].pixels by {
                assert(g2.apples()[k].pixels == g2.head() + 1 + k);
                assert(old(self).apples()[k].pixels == old(self).head() + 1 + k);
            }
            if ate {
                let k = choose|k: int| 0 <= k < g2.apples().len() && hits(o1, #[trigger] g2.apples()[k].pixels, next);
                assert(hits(o1, old(self).apples()[k].pixels, next));
            }
            if exists|k: int| 0 <= k < old(self).apples().len() && hits(o1, #[trigger] old(self).apples()[k].pixels, next) {
                let k = choose|k: int| 0 <= k < old(self).apples().len() && hits(o1, #[trigger] old(self).apples()[k].pixels, next);
                assert(hits(o1, g2.apples()[k].pixels, next));
            }
            let apples_mid = if old(self).tick() % SPAWN_PERIOD == 0 {
                spawned_apples(old(self).apples())
            } else {
                old(self).apples()
            };
            assert(g2.apples() == apples_mid);
            assert forall|k: int| 0 <= k < old(self).apples().len() implies #[trigger] output.objects()[old(self).apples()[k].pixels as int]
                == eaten_objects(apples_mid, o1, next)[old(self).apples()[k].pixels as int] by {
                assert(g2.apples()[k].pixels == old(self).apples()[k].pixels);
            }
        }
        let ghost g4 = *self;
        assert(output.objects()[h as int] == o1[h as int]);
        assert(forall|i: int| 0 <= i < h ==> #[trigger] output.objects()[i] == o0[i]);
        self.tick = self.tick + 1;
        if self.tick == u64::MAX {
            self.tick = 0;
        }
        proof {
            lemma_wf_kept(g4, output.objects(), *self, output.objects());
        }
    }

    /// The meal and the tail after the head reached `next` from `last_pos`:
    /// the first apple there, if any, is eaten and the score grows (up to
    /// the number of segments); then the tail grows after a meal, or else
    /// follows the head.
    fn meal(&mut self, output: &mut Renderer, next: Vec2i16, last_pos: Vec2i16) -> (ate: bool)
        requires
            old(self).wf(old(output).objects()),
        ensures
            final(self).wf(final(output).objects()),
            ate == exists|k: int|
                0 <= k < old(self).apples().len() && hits(old(output).objects(), #[trigger] old(self).apples()[k].pixels, next),
            final(self).apples() == eaten_apples(old(self).apples(), old(output).objects(), next),
            forall|k: int|
                0 <= k < old(self).apples().len() ==> #[trigger] final(output).objects()[old(self).apples()[k].pixels as int]
                    == eaten_objects(old(self).apples(), old(output).objects(), next)[old(self).apples()[k].pixels as int],
            final(output).objects().len() == old(output).objects().len(),
            forall|i: int| 0 <= i <= old(self).head() ==> #[trigger] final(output).objects()[i] == old(output).objects()[i],
            tail_post(
                old(self).peaces(),
                old(output).objects(),
                final(self).peaces(),
                final(output).objects(),
                ate,
                final(self).score() as int,
                last_pos,
                final(self).score() as int,
            ),
            final(self).score() as int == if ate && old(self).score() < old(self).peaces().len() {
                old(self).score() + 1
            } else {
                old(self).score() as int
            },
            final(self).is_alive() == old(self).is_alive(),
            final(self).head() == old(self).head(),
            final(self).direction() == old(self).direction(),
            final(self).tick() == old(self).tick(),
            final(self).walls() == old(self).walls(),
            final(self).world_size() == old(self).world_size(),
            final(self).world_center() == old(self).world_center(),
            final(output).back() == old(output).back(),
            final(output).front() == old(output).front(),
            final(output).dim() == old(output).dim(),
    {
        let ghost o0 = output.objects();
        let ate = self.check_is_in_happy_collison(output, &next);
        let ghost o_meal = output.objects();
        let ghost hb = old(self).head() + 1 + old(self).apples().len();
        proof {
            assert forall|k: int| 0 <= k < old(self).peaces().len() implies #[trigger] o_meal[old(self).peaces()[k].pixels as int] == o0[old(self).peaces()[k].pixels as int] by {
                assert(old(self).peaces()[k].pixels == hb + k);
            }
        }
        if ate {
            if (self.main_actor.collected as usize) < self.sneak_peaces.len() {
                self.main_actor.collected = self.main_actor.collected + 1;
            }
            self.grow_tail(output, last_pos);
            proof {
                lemma_tail_post_rebase(old(self).peaces(), o_meal, o0, self.peaces(), output.objects(), true, self.score() as int, last_pos, self.score() as int);
            }
        } else if self.main_actor.collected == 1 {
            let ghost g3 = *self;
            let ghost o3 = output.objects();
            output.set_object_pos(self.sneak_peaces[0].pixels, last_pos);
            proof {
                lemma_wf_kept(g3, o3, *self, output.objects());
                assert(old(self).peaces()[0].pixels == hb);
                assert forall|k: int| 0 <= k < old(self).peaces().len() implies #[trigger] output.objects()[old(self).peaces()[k].pixels as int] == if k < 1 && tail_moves(old(self).peaces()[k].index, k, false, 1) {
                    relocated(o0[old(self).peaces()[k].pixels as int], last_pos)
                } else {
                    o0[old(self).peaces()[k].pixels as int]
                } by {
                    assert(old(self).peaces()[k].pixels == hb + k);
                }
            }
        } else if self.main_actor.collected > 0 {
            self.follow_tail(output, last_pos);
            proof {
                lemma_tail_post_rebase(old(self).peaces(), o_meal, o0, self.peaces(), output.objects(), false, self.score() as int, last_pos, self.score() as int);
            }
        } else {
            proof {
                assert forall|k: int| 0 <= k < old(self).peaces().len() implies #[trigger] output.objects()[old(self).peaces()[k].pixels as int] == o0[old(self).peaces()[k].pixels as int] by {
                    assert(old(self).peaces()[k].pixels == hb + k);
                }
            }
        }
        proof {
            assert forall|k: int| 0 <= k < old(self).apples().len() implies #[trigger] output.objects()[old(self).apples()[k].pixels as int]
                == o_meal[old(self).apples()[k].pixels as int] by {
                assert(old(self).apples()[k].pixels == old(self).head() + 1 + k);
            }
        }
        ate
    }

    /// After an apple is eaten: each of the first `score` segments that is
    /// not yet placed takes place 0; the others move one place back, and
    /// the one that reaches the last place goes to `last_pos`.
    fn grow_tail(&mut self, output: &mut Renderer, last_pos: Vec2i16)
        requires
            old(self).wf(old(output).objects()),
        ensures
            final(self).wf(final(output).objects()),
            tail_step(*old(self), old(output).objects(), *final(self), final(output).objects()),
            tail_post(old(self).peaces(), old(output).objects(), final(self).peaces(), final(output).objects(), true, old(self).score() as int, last_pos, old(self).score() as int),
            final(output).back() == old(output).back(),
            final(output).front() == old(output).front(),
            final(output).dim() == old(output).dim(),
    {
        let n = self.main_actor.collected as usize;
        let mut i: usize = 0;
        while i < n
            invariant
                i <= n,
                n == old(self).score(),
                self.wf(output.objects()),
                tail_step(*old(self), old(output).objects(), *self, output.objects()),
                tail_post(old(self).peaces(), old(output).objects(), self.peaces(), output.objects(), true, n as int, last_pos, i as int),
                old(self).wf(old(output).objects()),
                output.back() == old(output).back(),
                output.front() == old(output).front(),
                output.dim() == old(output).dim(),
            decreases n - i,
        {
            let ghost g0 = *self;
            let ghost ob = output.objects();
            let p = self.sneak_peaces[i].pixels;
            let idx = self.sneak_peaces[i].index;
            if idx == UNPLACED {
                self.sneak_peaces.set(i, Peace { pixels: p, index: 0 });
            } else {
                let idx = idx + 1;
                self.sneak_peaces.set(i, Peace { pixels: p, index: idx });
                if idx == n - 1 {
                    output.set_object_pos(p, last_pos);
                }
            }
            proof {
                lemma_wf_kept(g0, ob, *self, output.objects());
                let p0 = old(self).peaces();
                let o0 = old(output).objects();
                let hb = old(self).head() + 1 + old(self).apples().len();
                assert(g0.peaces()[i as int].pixels == hb + i);
                assert forall|k: int| 0 <= k < p0.len() implies #[trigger] self.peaces()[k].index == if k < i + 1 {
                    new_place(p0[k].index, true, n as int)
                } else {
                    p0[k].index
                } by {
                    assert(g0.peaces()[k] == if k == i { g0.peaces()[k] } else { self.peaces()[k] });
                }
                assert forall|k: int| 0 <= k < p0.len() implies #[trigger] output.objects()[p0[k].pixels as int] == if k < i + 1 && tail_moves(p0[k].index, k, true, n as int) {
                    relocated(o0[p0[k].pixels as int], last_pos)
                } else {
                    o0[p0[k].pixels as int]
                } by {
                    assert(p0[k].pixels == hb + k);
                    assert(g0.peaces()[k].pixels == hb + k);
                    assert(ob[p0[k].pixels as int] == if k < i && tail_moves(p0[k].index, k, true, n as int) {
                        relocated(o0[p0[k].pixels as int], last_pos)
                    } else {
                        o0[p0[k].pixels as int]
                    });
                }
            }
            i = i + 1;
        }
    }

    /// While the tail follows the head: the segment in the last place takes
    /// place 0, the one before it goes to `last_pos`, and the others move
    /// one place back.
    fn follow_tail(&mut self, output: &mut Renderer, last_pos: Vec2i16)
        requires
            old(self).wf(old(output).objects()),
            old(self).score() >= 2,
        ensures
            final(self).wf(final(output).objects()),
            tail_step(*old(self), old(output).objects(), *final(self), final(output).objects()),
            tail_post(old(self).peaces(), old(output).objects(), final(self).peaces(), final(output).objects(), false, old(self).score() as int, last_pos, old(self).score() as int),
            final(output).back() == old(output).back(),
            final(output).front() == old(output).front(),
            final(output).dim() == old(output).dim(),
    {
        let n = self.main_actor.collected as usize;
        let mut i: usize = 0;
        while i < n
            invariant
                i <= n,
                n == old(self).score(),
                n >= 2,
                self.wf(output.objects()),
                tail_step(*old(self), old(output).objects(), *self, output.objects()),
                tail_post(old(self).peaces(), old(output).objects(), self.peaces(), output.objects(), false, n as int, last_pos, i as int),
                old(self).wf(old(output).objects()),
                output.back() == old(output).back(),
                output.front() == old(output).front(),
                output.dim() == old(output).dim(),
            decreases n - i,
        {
            let ghost g0 = *self;
            let ghost ob = output.objects();
            let p = self.sneak_peaces[i].pixels;
            let idx = self.sneak_peaces[i].index;
            if idx == n - 1 {
                self.sneak_peaces.set(i, Peace { pixels: p, index: 0 });
            } else {
                if idx == n - 2 {
                    output.set_object_pos(p, last_pos);
                }
                self.sneak_peaces.set(i, Peace { pixels: p, index: idx.wrapping_add(1) });
            }
            proof {
                lemma_wf_kept(g0, ob, *self, output.objects());
                let p0 = old(self).peaces();
                let o0 = old(output).objects();
                let hb = old(self).head() + 1 + old(self).apples().len();
                assert(g0.peaces()[i as int].pixels == hb + i);
                assert forall|k: int| 0 <= k < p0.len() implies #[trigger] self.peaces()[k].index == if k < i + 1 {
                    new_place(p0[k].index, false, n as int)
                } else {
                    p0[k].index
                } by {
                    assert(g0.peaces()[k] == if k == i { g0.peaces()[k] } else { self.peaces()[k] });
                }
                assert forall|k: int| 0 <= k < p0.len() implies #[trigger] output.objects()[p0[k].pixels as int] == if k < i + 1 && tail_moves(p0[k].index, k, false, n as int) {
                    relocated(o0[p0[k].pixels as int], last_pos)
                } else {
                    o0[p0[k].pixels as int]
                } by {
                    assert(p0[k].pixels == hb + k);
                    assert(g0.peaces()[k].pixels == hb + k);
                    assert(ob[p0[k].pixels as int] == if k < i && tail_moves(p0[k].index, k, false, n as int) {
                        relocated(o0[p0[k].pixels as int], last_pos)
                    } else {
                        o0[p0[k].pixels as int]
                    });
                }
            }
            i = i + 1;
        }
    }

    /// Brings the first dead apple to life at `pos`; with none dead, nothing
    /// changes.
    fn spawn_apple(&mut self, output: &mut Renderer, pos: Vec2i16)
        requires
            old(self).wf(old(output).objects()),
        ensures
            final(self).wf(final(output).objects()),
            (exists|k: int| 0 <= k < old(self).apples().len() && !(#[trigger] old(self).apples()[k]).alive) ==> exists|k: int| {
                &&& 0 <= k < old(self).apples().len()
                &&& !old(self).apples()[k].alive
                &&& forall|j: int| 0 <= j < k ==> (#[trigger] old(self).apples()[j]).alive
                &&& final(self).apples() == old(self).apples().update(k, Apple { pixels: old(self).apples()[k].pixels, alive: true })
                &&& final(output).objects() == moved(old(output).objects(), old(self).apples()[k].pixels, pos)
            },
            (forall|k: int| 0 <= k < old(self).apples().len() ==> (#[trigger] old(self).apples()[k]).alive) ==> final(self).apples() == old(self).apples() && final(output).objects() == old(output).objects(),
            final(output).objects() == spawned(old(self).apples(), old(output).objects(), pos),
            final(self).apples() == spawned_apples(old(self).apples()),
            forall|k: int| 0 <= k < old(self).apples().len() ==> (#[trigger] final(self).apples()[k]).pixels == old(self).apples()[k].pixels,
            final(output).objects().len() == old(output).objects().len(),
            forall|i: int|
                0 <= i < old(output).objects().len() && (i <= old(self).head() || i > old(self).head() + old(self).apples().len())
                    ==> #[trigger] final(output).objects()[i] == old(output).objects()[i],
            final(self).is_alive() == old(self).is_alive(),
            final(self).head() == old(self).head(),
            final(self).direction() == old(self).direction(),
            final(self).score() == old(self).score(),
            final(self).tick() == old(self).tick(),
            final(self).walls() == old(self).walls(),
            final(self).peaces() == old(self).peaces(),
            final(self).world_size() == old(self).world_size(),
            final(self).world_center() == old(self).world_center(),
            final(output).back() == old(output).back(),
            final(output).front() == old(output).front(),
            final(output).dim() == old(output).dim(),
    {
        let n = self.apples.len();
        let mut k: usize = 0;
        while k < n
            invariant
                k <= n,
                n == self.apples@.len(),
                *self == *old(self),
                *output == *old(output),
                self.wf(output.objects()),
                forall|j: int| 0 <= j < k ==> (#[trigger] self.apples@[j]).alive,
            decreases n - k,
        {
            if !self.apples[k].alive {
                let h = self.apples[k].pixels;
                proof {
                    assert(first_dead(self.apples@, k as int));
                    let c = choose|c: int| first_dead(self.apples@, c);
                    if c < k {
                        assert(self.apples@[c].alive);
                    }
                    if k < c {
                        assert(self.apples@[k as int].alive);
                    }
                }
                self.apples.set(k, Apple { pixels: h, alive: true });
                output.set_object_pos(h, pos);
                proof {
                    lemma_wf_kept(*old(self), old(output).objects(), *self, output.objects());
                }
                return;
            }
            k = k + 1;
        }
    }
}

/// What a tail step keeps: everything but the segments' places and the
/// segments' drawables.
pub open spec fn tail_step(g0: Game, o0: Seq<MashedPixels>, g1: Game, o1: Seq<MashedPixels>) -> bool {
    &&& g1.is_alive() == g0.is_alive()
    &&& g1.head() == g0.head()
    &&& g1.direction() == g0.direction()
    &&& g1.score() == g0.score()
    &&& g1.tick() == g0.tick()
    &&& g1.walls() == g0.walls()
    &&& g1.apples() == g0.apples()
    &&& g1.world_size() == g0.world_size()
    &&& g1.world_center() == g0.world_center()
    &&& g1.peaces().len() == g0.peaces().len()
    &&& forall|k: int| 0 <= k < g0.peaces().len() ==> (#[trigger] g1.peaces()[k]).pixels == g0.peaces()[k].pixels
    &&& o1.len() == o0.len()
    &&& forall|i: int| 0 <= i <= g0.head() + g0.apples().len() ==> #[trigger] o1[i] == o0[i]
}

/// A drawable moved to `pos`, its size kept.
pub open spec fn relocated(m: MashedPixels, pos: Vec2i16) -> MashedPixels {
    MashedPixels { sqare: Square { position: pos, size: m.sqare.size } }
}

/// A segment's next place, among the first `n` segments: after a meal an
/// unplaced segment takes place 0 and the others move one back; otherwise,
/// with two or more segments, the last place wraps to 0.
pub open spec fn new_place(idx: usize, ate: bool, n: int) -> usize {
    if ate {
        if idx == UNPLACED { 0 } else { (idx + 1) as usize }
    } else if n == 1 {
        idx
    } else if idx == n - 1 || idx == usize::MAX {
        0
    } else {
        (idx + 1) as usize
    }
}

/// Whether the segment at `k`, among the first `n`, moves to where the head
/// was.
pub open spec fn tail_moves(idx: usize, k: int, ate: bool, n: int) -> bool {
    if ate {
        idx != UNPLACED && idx + 1 == n - 1
    } else if n == 1 {
        k == 0
    } else {
        idx != n - 1 && idx == n - 2
    }
}

/// The first `upto` segments have taken their next places, and those that
/// move have moved to `last_pos`; the others are as they were.
pub open spec fn tail_post(
    p0: Seq<Peace>,
    o0: Seq<MashedPixels>,
    p1: Seq<Peace>,
    o1: Seq<MashedPixels>,
    ate: bool,
    n: int,
    last_pos: Vec2i16,
    upto: int,
) -> bool {
    &&& p1.len() == p0.len()
    &&& forall|k: int| 0 <= k < p0.len() ==> (#[trigger] p1[k]).pixels == p0[k].pixels
    &&& forall|k: int|
        0 <= k < p0.len() ==> (#[trigger] p1[k]).index == if k < upto { new_place(p0[k].index, ate, n) } else { p0[k].index }
    &&& forall|k: int|
        0 <= k < p0.len() ==> #[trigger] o1[p0[k].pixels as int] == if k < upto && tail_moves(p0[k].index, k, ate, n) {
            relocated(o0[p0[k].pixels as int], last_pos)
        } else {
            o0[p0[k].pixels as int]
        }
}

/// A tail step stated against drawables that agree on the segments'
/// handles holds against either.
proof fn lemma_tail_post_rebase(
    p0: Seq<Peace>,
    oa: Seq<MashedPixels>,
    ob: Seq<MashedPixels>,
    p1: Seq<Peace>,
    o1: Seq<MashedPixels>,
    ate: bool,
    n: int,
    last_pos: Vec2i16,
    upto: int,
)
    requires
        tail_post(p0, oa, p1, o1, ate, n, last_pos, upto),
        forall|k: int| 0 <= k < p0.len() ==> oa[(#[trigger] p0[k]).pixels as int] == ob[p0[k].pixels as int],
    ensures
        tail_post(p0, ob, p1, o1, ate, n, last_pos, upto),
{
    assert forall|k: int| 0 <= k < p0.len() implies #[trigger] o1[p0[k].pixels as int] == if k < upto && tail_moves(p0[k].index, k, ate, n) {
        relocated(ob[p0[k].pixels as int], last_pos)
    } else {
        ob[p0[k].pixels as int]
    } by {
        assert(oa[p0[k].pixels as int] == ob[p0[k].pixels as int]);
    }
}

/// Whether the apple at `k` is the first dead one.
pub open spec fn first_dead(apples: Seq<Apple>, k: int) -> bool {
    &&& 0 <= k < apples.len()
    &&& !apples[k].alive
    &&& forall|j: int| 0 <= j < k ==> (#[trigger] apples[j]).alive
}

/// The drawables after the first dead apple, if any, is brought to `pos`.
pub open spec fn spawned(apples: Seq<Apple>, objs: Seq<MashedPixels>, pos: Vec2i16) -> Seq<MashedPixels> {
    if exists|k: int| first_dead(apples, k) {
        moved(objs, apples[choose|k: int| first_dead(apples, k)].pixels, pos)
    } else {
        objs
    }
}

/// The apples after the first dead one, if any, comes alive.
pub open spec fn spawned_apples(apples: Seq<Apple>) -> Seq<Apple> {
    if exists|k: int| first_dead(apples, k) {
        let k = choose|k: int| first_dead(apples, k);
        apples.update(k, Apple { pixels: apples[k].pixels, alive: true })
    } else {
        apples
    }
}

/// The apples after the first one that holds `c`, if any, is eaten.
pub open spec fn eaten_apples(apples: Seq<Apple>, objs: Seq<MashedPixels>, c: Vec2i16) -> Seq<Apple> {
    if exists|k: int| first_apple_at(apples, objs, c, k) {
        let k = choose|k: int| first_apple_at(apples, objs, c, k);
        apples.update(k, Apple { pixels: apples[k].pixels, alive: false })
    } else {
        apples
    }
}

/// The drawables after the first apple that holds `c`, if any, is parked
/// off the grid.
pub open spec fn eaten_objects(apples: Seq<Apple>, objs: Seq<MashedPixels>, c: Vec2i16) -> Seq<MashedPixels> {
    if exists|k: int| first_apple_at(apples, objs, c, k) {
        moved(objs, apples[choose|k: int| first_apple_at(apples, objs, c, k)].pixels, Vec2i16 { x: -1i16, y: -1i16 })
    } else {
        objs
    }
}

/// Where an apple drawn at `spawn` appears: one cell further on each axis,
/// wrapped to the field.
pub open spec fn spawn_cell(size: Vec2i16, spawn: Vec2i16) -> Vec2i16 {
    Vec2i16 { x: ((spawn.x + 1) % (size.x as int)) as i16, y: ((spawn.y + 1) % (size.y as int)) as i16 }
}

/// What one tick does to the head, the walls, the tick count, the score and
/// whether the game goes on, with the spawn position `spawn`.
pub open spec fn tick_post(
    g0: Game,
    o0: Seq<MashedPixels>,
    key: u32,
    spawn: Vec2i16,
    g1: Game,
    o1: Seq<MashedPixels>,
) -> bool {
    let dir = next_direction(g0.direction(), key);
    let next = advanced(o0[g0.head() as int].sqare.position, dir);
    let head_moved = moved(o0, g0.head(), next);
    let before_meal = if g0.tick() % SPAWN_PERIOD == 0 {
        spawned(g0.apples(), head_moved, spawn_cell(g0.world_size(), spawn))
    } else {
        head_moved
    };
    let apples_mid = if g0.tick() % SPAWN_PERIOD == 0 { spawned_apples(g0.apples()) } else { g0.apples() };
    let ate = exists|k: int| 0 <= k < g0.apples().len() && hits(before_meal, #[trigger] g0.apples()[k].pixels, next);
    &&& g1.direction() == dir
    &&& g1.head() == g0.head()
    &&& o1.len() == o0.len()
    &&& o1[g0.head() as int].sqare == (Square { position: next, size: o0[g0.head() as int].sqare.size })
    &&& forall|i: int| 0 <= i < g0.head() ==> #[trigger] o1[i] == o0[i]
    &&& g1.walls() == g0.walls()
    &&& g1.world_size() == g0.world_size()
    &&& g1.world_center() == g0.world_center()
    &&& g1.apples() == eaten_apples(apples_mid, before_meal, next)
    &&& forall|k: int|
        0 <= k < g0.apples().len() ==> #[trigger] o1[g0.apples()[k].pixels as int] == eaten_objects(
            apples_mid,
            before_meal,
            next,
        )[g0.apples()[k].pixels as int]
    &&& g1.is_alive() == (g0.is_alive() && key != Q_KEY && !deadly_at(g0.walls(), g0.peaces(), o0, next))
    &&& g1.tick() == if g0.tick() + 1 == u64::MAX { 0 } else { g0.tick() + 1 }
    &&& tail_post(
        g0.peaces(),
        o0,
        g1.peaces(),
        o1,
        ate,
        g1.score() as int,
        o0[g0.head() as int].sqare.position,
        g1.score() as int,
    )
    &&& g1.score() as int == if ate && g0.score() < g0.peaces().len() { g0.score() + 1 } else { g0.score() as int }
}

/// The direction after the key with the given code is seen.
fn steer(d: Direction, key: u32) -> (r: Direction)
    ensures
        r == next_direction(d, key),
{
    if key == A_KEY {
        Direction::Left
    } else if key == S_KEY {
        Direction::Down
    } else if key == D_KEY {
        Direction::Right
    } else if key == W_KEY {
        Direction::Up
    } else {
        d
    }
}

/// The cell one step from `p` in direction `d`.
fn advance(p: Vec2i16, d: Direction) -> (r: Vec2i16)
    ensures
        r == advanced(p, d),
{
    match d {
        Direction::Up => Vec2i16 { x: p.x, y: if p.y > i16::MIN { p.y - 1 } else { p.y } },
        Direction::Right => Vec2i16 { x: if p.x < i16::MAX { p.x + 1 } else { p.x }, y: p.y },
        Direction::Down => Vec2i16 { x: p.x, y: if p.y < i16::MAX { p.y + 1 } else { p.y } },
        Direction::Left => Vec2i16 { x: if p.x > i16::MIN { p.x - 1 } else { p.x }, y: p.y },
    }
}

/// Moving the head and the apples changes no wall or segment, so whether a
/// cell is deadly stays as it was.
proof fn lemma_deadly_frame(g: Game, o0: Seq<MashedPixels>, o1: Seq<MashedPixels>, c: Vec2i16)
    requires
        g.wf(o0),
        o1.len() == o0.len(),
        forall|i: int|
            0 <= i < o0.len() && (i < g.head() || i > g.head() + g.apples().len()) ==> #[trigger] o1[i] == o0[i],
    ensures
        deadly_at(g.walls(), g.peaces(), o1, c) == deadly_at(g.walls(), g.peaces(), o0, c),
{
    assert forall|k: int| 0 <= k < g.walls().len() implies hits(o1, #[trigger] g.walls()[k], c) == hits(o0, g.walls()[k], c) by {
        assert(o1[g.walls()[k] as int] == o0[g.walls()[k] as int]);
    }
    assert forall|k: int| 0 <= k < g.peaces().len() implies hits(o1, #[trigger] g.peaces()[k].pixels, c) == hits(o0, g.peaces()[k].pixels, c) by {
        assert(g.peaces()[k].pixels == g.head() + 1 + g.apples().len() + k);
        assert(o1[g.peaces()[k].pixels as int] == o0[g.peaces()[k].pixels as int]);
    }
}

/// Well-formedness rests on the handles, the score bound, the tick bound and
/// the field's size alone.
proof fn lemma_wf_kept(g0: Game, o0: Seq<MashedPixels>, g1: Game, o1: Seq<MashedPixels>)
    requires
        g0.wf(o0),
        o1.len() == o0.len(),
        g1.head() == g0.head(),
        g1.walls() == g0.walls(),
        g1.world_size() == g0.world_size(),
        g1.apples().len() == g0.apples().len(),
        forall|k: int| 0 <= k < g0.apples().len() ==> (#[trigger] g1.apples()[k]).pixels == g0.apples()[k].pixels,
        g1.peaces().len() == g0.peaces().len(),
        forall|k: int| 0 <= k < g0.peaces().len() ==> (#[trigger] g1.peaces()[k]).pixels == g0.peaces()[k].pixels,
        0 <= g1.score() <= g1.peaces().len(),
        g1.tick() < u64::MAX,
    ensures
        g1.wf(o1),
{
    assert forall|k: int| 0 <= k < g1.walls().len() implies #[trigger] g1.walls()[k] < g1.head() by {
        assert(g0.walls()[k] < g0.head());
    }
    assert forall|k: int| 0 <= k < g1.apples().len() implies #[trigger] g1.apples()[k].pixels == g1.head() + 1 + k by {
        assert(g0.apples()[k].pixels == g0.head() + 1 + k);
    }
    assert forall|k: int| 0 <= k < g1.peaces().len() implies #[trigger] g1.peaces()[k].pixels == g1.head() + 1 + g1.apples().len() + k by {
        assert(g0.peaces()[k].pixels == g0.head() + 1 + g0.apples().len() + k);
    }
}

/// Whether the drawable holds the cell `coord`.
fn holds(m: &MashedPixels, coord: &Vec2i16) -> (r: bool)
    ensures
        r == contains(m.sqare, coord.x as int, coord.y as int),
{
    let pos = m.get_pos();
    let size = m.get_size();
    let x_diff = coord.x as i32 - pos.x as i32;
    let y_diff = coord.y as i32 - pos.y as i32;
    if x_diff < 0 || y_diff < 0 {
        return false;
    }
    x_diff < size.x as i32 && y_diff < size.y as i32
}

} // verus!
