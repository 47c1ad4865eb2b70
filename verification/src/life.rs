//! The cellular-automaton compute engine: grid configuration, the toroidal
//! Life transition rule, double-buffered state storage and readback.

use vstd::prelude::*;
use vstd::arithmetic::div_mod::lemma_fundamental_div_mod_converse;

verus! {

/// Horizontal extent of one dispatch tile.
pub const TILE_WIDTH: u32 = 5;

/// Vertical extent of one dispatch tile.
pub const TILE_HEIGHT: u32 = 5;

/// Dimensions of the simulation grid, in cells.
#[derive(Clone, Copy, PartialEq, Eq, Structural, Debug)]
pub struct Config {
    pub width: u32,
    pub height: u32,
}

/// Why a configuration was rejected.
#[derive(Clone, Copy, PartialEq, Eq, Structural, Debug)]
pub enum ConfigError {
    /// A dimension was zero.
    ZeroDimension,
    /// A dimension is not a multiple of the dispatch tile extent.
    TileIndivisible,
}

/// Why an engine could not be built.
#[derive(Clone, Copy, PartialEq, Eq, Structural, Debug)]
pub enum ConstructionError {
    /// The initial grid does not hold exactly `width * height` cells.
    SizeMismatch,
}

impl Config {
    /// Both dimensions are positive.
    pub open spec fn wf(self) -> bool {
        self.width > 0 && self.height > 0
    }

    /// Both dimensions are multiples of the dispatch tile extents, so the
    /// tiling covers the grid exactly.
    pub open spec fn tileable(self) -> bool {
        self.width % TILE_WIDTH == 0 && self.height % TILE_HEIGHT == 0
    }

    /// Number of cells in the grid.
    pub open spec fn area(self) -> int {
        self.width * self.height
    }

    /// Builds a configuration, rejecting dimensions that are zero or that the
    /// dispatch tiling would not cover exactly.
    pub fn new(width: u32, height: u32) -> (r: Result<Config, ConfigError>)
        ensures
            match r {
                Ok(c) => c == (Config { width, height }) && c.wf() && c.tileable(),
                Err(e) => {
                    &&& !(width > 0 && height > 0 && width % TILE_WIDTH == 0 && height
                        % TILE_HEIGHT == 0)
                    &&& e == (if width == 0 || height == 0 {
                        ConfigError::ZeroDimension
                    } else {
                        ConfigError::TileIndivisible
                    })
                },
            },
    {
        if width == 0 || height == 0 {
            Err(ConfigError::ZeroDimension)
        } else if width % TILE_WIDTH != 0 || height % TILE_HEIGHT != 0 {
            Err(ConfigError::TileIndivisible)
        } else {
            Ok(Config { width, height })
        }
    }
}

/// Every cell of the grid is 0 (dead) or 1 (alive).
pub open spec fn is_binary(g: Seq<u32>) -> bool {
    forall|i: int| 0 <= i < g.len() ==> g[i] == 0 || g[i] == 1
}

/// Every cell of the grid is dead.
pub open spec fn all_dead(g: Seq<u32>) -> bool {
    forall|i: int| 0 <= i < g.len() ==> g[i] == 0
}

/// Every cell of the grid is alive.
pub open spec fn all_live(g: Seq<u32>) -> bool {
    forall|i: int| 0 <= i < g.len() ==> g[i] == 1
}

/// The cell of `g` at column `x`, row `y`, in row-major order.
pub open spec fn cell(g: Seq<u32>, c: Config, x: int, y: int) -> u32 {
    g[y * c.width + x]
}

/// The coordinate one step toward zero, wrapping to `m - 1` at the edge.
pub open spec fn wrap_dec(v: int, m: int) -> int {
    if v == 0 {
        m - 1
    } else {
        v - 1
    }
}

/// The coordinate one step away from zero, wrapping to 0 at the edge.
pub open spec fn wrap_inc(v: int, m: int) -> int {
    if v == m - 1 {
        0
    } else {
        v + 1
    }
}

/// How many of the eight toroidal neighbours of `(x, y)` are alive.
pub open spec fn neighbor_count(g: Seq<u32>, c: Config, x: int, y: int) -> int {
    let w = c.width as int;
    let h = c.height as int;
    let xl = wrap_dec(x, w);
    let xr = wrap_inc(x, w);
    let yu = wrap_dec(y, h);
    let yd = wrap_inc(y, h);
    cell(g, c, xl, yu) + cell(g, c, x, yu) + cell(g, c, xr, yu) + cell(g, c, xl, y) + cell(
        g,
        c,
        xr,
        y,
    ) + cell(g, c, xl, yd) + cell(g, c, x, yd) + cell(g, c, xr, yd)
}

/// The Life transition rule for one cell: a live cell survives with two or
/// three live neighbours, a dead cell is born with exactly three.
pub open spec fn next_cell(g: Seq<u32>, c: Config, x: int, y: int) -> u32 {
    let n = neighbor_count(g, c, x, y);
    if cell(g, c, x, y) == 1 {
        if n == 2 || n == 3 {
            1u32
        } else {
            0u32
        }
    } else {
        if n == 3 {
            1u32
        } else {
            0u32
        }
    }
}

/// One synchronous generation: every cell of the result is the transition
/// rule applied to the full previous grid.
pub open spec fn step_spec(g: Seq<u32>, c: Config) -> Seq<u32> {
    Seq::new(
        c.area() as nat,
        |i: int| next_cell(g, c, i % (c.width as int), i / (c.width as int)),
    )
}

/// `n` generations applied to `g`.
pub open spec fn iterate(n: nat, g: Seq<u32>, c: Config) -> Seq<u32>
    decreases n,
{
    if n == 0 {
        g
    } else {
        step_spec(iterate((n - 1) as nat, g, c), c)
    }
}

/// Row-major indices of in-range coordinates lie inside the grid.
pub proof fn lemma_index_in_range(c: Config, x: int, y: int)
    requires
        c.wf(),
        0 <= x < c.width,
        0 <= y < c.height,
    ensures
        0 <= y * (c.width as int) + x < c.area(),
        y * (c.width as int) <= c.area(),
{
    let w = c.width as int;
    let h = c.height as int;
    assert(0 <= y * w + x && y * w + x < w * h && y * w <= w * h) by (nonlinear_arith)
        requires
            0 <= x < w,
            0 <= y < h,
    ;
}

/// Wrapped coordinates stay in range.
pub proof fn lemma_wrap_in_range(v: int, m: int)
    requires
        0 < m,
        0 <= v < m,
    ensures
        0 <= wrap_dec(v, m) < m,
        0 <= wrap_inc(v, m) < m,
{
}

/// The cell the transition rule writes at flat index `y * width + x` is the
/// rule applied at `(x, y)`.
pub proof fn lemma_step_spec_at(g: Seq<u32>, c: Config, x: int, y: int)
    requires
        c.wf(),
        0 <= x < c.width,
        0 <= y < c.height,
    ensures
        step_spec(g, c)[y * (c.width as int) + x] == next_cell(g, c, x, y),
{
    let w = c.width as int;
    let i = y * w + x;
    lemma_index_in_range(c, x, y);
    lemma_fundamental_div_mod_converse(i, w, y, x);
}

/// No spontaneous life: one step of an all-dead grid is all dead.
pub proof fn lemma_no_spontaneous_life(g: Seq<u32>, c: Config)
    requires
        c.wf(),
        g.len() == c.area(),
        all_dead(g),
    ensures
        all_dead(step_spec(g, c)),
{
    let w = c.width as int;
    let h = c.height as int;
    let s = step_spec(g, c);
    assert forall|i: int| 0 <= i < s.len() implies s[i] == 0 by {
        let x = i % w;
        let y = i / w;
        assert(0 <= x < w && 0 <= y < h && y * w + x == i) by (nonlinear_arith)
            requires
                0 <= i < w * h,
                w > 0,
                x == i % w,
                y == i / w,
        ;
        lemma_dead_neighborhood(g, c, x, y);
    }
}

/// `(x, y)` lies in the two-by-two block whose top-left corner is
/// `(bx, by)`.
pub open spec fn in_block(bx: int, by: int, x: int, y: int) -> bool {
    bx <= x <= bx + 1 && by <= y <= by + 1
}

/// The grid whose live cells are exactly a two-by-two block with top-left
/// corner `(bx, by)`.
pub open spec fn block_grid(c: Config, bx: int, by: int) -> Seq<u32> {
    Seq::new(
        c.area() as nat,
        |i: int|
            if in_block(bx, by, i % (c.width as int), i / (c.width as int)) {
                1u32
            } else {
                0u32
            },
    )
}

/// Reading the block grid at in-range coordinates yields the block
/// membership of those coordinates.
proof fn lemma_block_cell(c: Config, bx: int, by: int, x: int, y: int)
    requires
        c.wf(),
        0 <= x < c.width,
        0 <= y < c.height,
    ensures
        cell(block_grid(c, bx, by), c, x, y) == (if in_block(bx, by, x, y) {
            1u32
        } else {
            0u32
        }),
{
    let w = c.width as int;
    let i = y * w + x;
    lemma_index_in_range(c, x, y);
    lemma_fundamental_div_mod_converse(i, w, y, x);
}

/// A two-by-two block of live cells whose neighbourhood does not cross the
/// grid edges is a still life: one step leaves the grid unchanged.
#[verifier::rlimit(100)]
pub proof fn lemma_block_still_life(c: Config, bx: int, by: int)
    requires
        c.wf(),
        1 <= bx,
        bx + 2 < c.width,
        1 <= by,
        by + 2 < c.height,
    ensures
        step_spec(block_grid(c, bx, by), c) == block_grid(c, bx, by),
{
    let w = c.width as int;
    let h = c.height as int;
    let g = block_grid(c, bx, by);
    let s = step_spec(g, c);
    assert forall|i: int| 0 <= i < c.area() implies s[i] == g[i] by {
        let x = i % w;
        let y = i / w;
        assert(0 <= x < w && 0 <= y < h && y * w + x == i) by (nonlinear_arith)
            requires
                0 <= i < w * h,
                w > 0,
                x == i % w,
                y == i / w,
        ;
        let xl = wrap_dec(x, w);
        let xr = wrap_inc(x, w);
        let yu = wrap_dec(y, h);
        let yd = wrap_inc(y, h);
        lemma_wrap_in_range(x, w);
        lemma_wrap_in_range(y, h);
        lemma_block_cell(c, bx, by, xl, yu);
        lemma_block_cell(c, bx, by, x, yu);
        lemma_block_cell(c, bx, by, xr, yu);
        lemma_block_cell(c, bx, by, xl, y);
        lemma_block_cell(c, bx, by, x, y);
        lemma_block_cell(c, bx, by, xr, y);
        lemma_block_cell(c, bx, by, xl, yd);
        lemma_block_cell(c, bx, by, x, yd);
        lemma_block_cell(c, bx, by, xr, yd);
        assert(s[i] == next_cell(g, c, x, y));
    }
    assert(s =~= g);
}

/// `(x, y)` lies on the horizontal three-cell bar whose left end is
/// `(bx, by)`.
pub open spec fn in_h_bar(bx: int, by: int, x: int, y: int) -> bool {
    bx <= x <= bx + 2 && y == by
}

/// `(x, y)` lies on the vertical three-cell bar centred at
/// `(bx + 1, by)`.
pub open spec fn in_v_bar(bx: int, by: int, x: int, y: int) -> bool {
    x == bx + 1 && by - 1 <= y <= by + 1
}

/// The grid whose live cells are exactly a horizontal blinker with left end
/// `(bx, by)`.
pub open spec fn blinker_h_grid(c: Config, bx: int, by: int) -> Seq<u32> {
    Seq::new(
        c.area() as nat,
        |i: int|
            if in_h_bar(bx, by, i % (c.width as int), i / (c.width as int)) {
                1u32
            } else {
                0u32
            },
    )
}

/// The grid whose live cells are exactly the vertical phase of that blinker.
pub open spec fn blinker_v_grid(c: Config, bx: int, by: int) -> Seq<u32> {
    Seq::new(
        c.area() as nat,
        |i: int|
            if in_v_bar(bx, by, i % (c.width as int), i / (c.width as int)) {
                1u32
            } else {
                0u32
            },
    )
}

/// Reading a blinker grid at in-range coordinates yields bar membership.
proof fn lemma_blinker_cell(c: Config, bx: int, by: int, x: int, y: int)
    requires
        c.wf(),
        0 <= x < c.width,
        0 <= y < c.height,
    ensures
        cell(blinker_h_grid(c, bx, by), c, x, y) == (if in_h_bar(bx, by, x, y) {
            1u32
        } else {
            0u32
        }),
        cell(blinker_v_grid(c, bx, by), c, x, y) == (if in_v_bar(bx, by, x, y) {
            1u32
        } else {
            0u32
        }),
{
    let w = c.width as int;
    let i = y * w + x;
    lemma_index_in_range(c, x, y);
    lemma_fundamental_div_mod_converse(i, w, y, x);
}

/// One step turns the horizontal blinker phase into the vertical one and
/// the vertical one back into the horizontal one, as long as neither
/// phase's neighbourhood crosses the grid edges.
#[verifier::rlimit(100)]
proof fn lemma_blinker_flip(c: Config, bx: int, by: int)
    requires
        c.wf(),
        1 <= bx,
        bx + 3 < c.width,
        2 <= by,
        by + 2 < c.height,
    ensures
        step_spec(blinker_h_grid(c, bx, by), c) == blinker_v_grid(c, bx, by),
        step_spec(blinker_v_grid(c, bx, by), c) == blinker_h_grid(c, bx, by),
{
    let w = c.width as int;
    let h = c.height as int;
    let gh = blinker_h_grid(c, bx, by);
    let gv = blinker_v_grid(c, bx, by);
    let sh = step_spec(gh, c);
    let sv = step_spec(gv, c);
    assert forall|i: int| 0 <= i < c.area() implies sh[i] == gv[i] && sv[i] == gh[i] by {
        let x = i % w;
        let y = i / w;
        assert(0 <= x < w && 0 <= y < h && y * w + x == i) by (nonlinear_arith)
            requires
                0 <= i < w * h,
                w > 0,
                x == i % w,
                y == i / w,
        ;
        let xl = wrap_dec(x, w);
        let xr = wrap_inc(x, w);
        let yu = wrap_dec(y, h);
        let yd = wrap_inc(y, h);
        lemma_wrap_in_range(x, w);
        lemma_wrap_in_range(y, h);
        lemma_blinker_cell(c, bx, by, xl, yu);
        lemma_blinker_cell(c, bx, by, x, yu);
        lemma_blinker_cell(c, bx, by, xr, yu);
        lemma_blinker_cell(c, bx, by, xl, y);
        lemma_blinker_cell(c, bx, by, x, y);
        lemma_blinker_cell(c, bx, by, xr, y);
        lemma_blinker_cell(c, bx, by, xl, yd);
        lemma_blinker_cell(c, bx, by, x, yd);
        lemma_blinker_cell(c, bx, by, xr, yd);
        assert(sh[i] == next_cell(gh, c, x, y));
        assert(sv[i] == next_cell(gv, c, x, y));
    }
    assert(sh =~= gv);
    assert(sv =~= gh);
}

/// A blinker oscillates with period exactly two: after two steps the grid
/// is back to its original configuration, and after one step it is not.
pub proof fn lemma_blinker_period_two(c: Config, bx: int, by: int)
    requires
        c.wf(),
        1 <= bx,
        bx + 3 < c.width,
        2 <= by,
        by + 2 < c.height,
    ensures
        iterate(2, blinker_h_grid(c, bx, by), c) == blinker_h_grid(c, bx, by),
        iterate(1, blinker_h_grid(c, bx, by), c) != blinker_h_grid(c, bx, by),
{
    let gh = blinker_h_grid(c, bx, by);
    let gv = blinker_v_grid(c, bx, by);
    lemma_blinker_flip(c, bx, by);
    assert(iterate(1, gh, c) == step_spec(iterate(0, gh, c), c));
    assert(iterate(1, gh, c) == gv);
    assert(iterate(2, gh, c) == step_spec(gv, c));
    lemma_blinker_cell(c, bx, by, bx, by);
    assert(cell(gh, c, bx, by) != cell(gv, c, bx, by));
}

/// Every neighbour read of an all-dead grid yields a dead cell, so the rule
/// writes a dead cell.
proof fn lemma_dead_neighborhood(g: Seq<u32>, c: Config, x: int, y: int)
    requires
        c.wf(),
        g.len() == c.area(),
        all_dead(g),
        0 <= x < c.width,
        0 <= y < c.height,
    ensures
        next_cell(g, c, x, y) == 0,
{
    let w = c.width as int;
    let h = c.height as int;
    let xl = wrap_dec(x, w);
    let xr = wrap_inc(x, w);
    let yu = wrap_dec(y, h);
    let yd = wrap_inc(y, h);
    lemma_wrap_in_range(x, w);
    lemma_wrap_in_range(y, h);
    lemma_index_in_range(c, xl, yu);
    lemma_index_in_range(c, x, yu);
    lemma_index_in_range(c, xr, yu);
    lemma_index_in_range(c, xl, y);
    lemma_index_in_range(c, x, y);
    lemma_index_in_range(c, xr, y);
    lemma_index_in_range(c, xl, yd);
    lemma_index_in_range(c, x, yd);
    lemma_index_in_range(c, xr, yd);
}

/// Reads one cell of the grid.
fn cell_at(cur: &Vec<u32>, config: &Config, x: u32, y: u32) -> (v: u32)
    requires
        config.wf(),
        cur@.len() == config.area(),
        is_binary(cur@),
        x < config.width,
        y < config.height,
    ensures
        v == cell(cur@, *config, x as int, y as int),
        v == 0 || v == 1,
{
    let n = cur.len();
    proof {
        lemma_index_in_range(*config, x as int, y as int);
        assert(n == config.area());
    }
    let i: usize = (y as usize) * (config.width as usize) + (x as usize);
    cur[i]
}

/// Applies the transition rule to one cell of the grid.
fn transition(cur: &Vec<u32>, config: &Config, x: u32, y: u32) -> (v: u32)
    requires
        config.wf(),
        cur@.len() == config.area(),
        is_binary(cur@),
        x < config.width,
        y < config.height,
    ensures
        v == next_cell(cur@, *config, x as int, y as int),
{
    let w = config.width;
    let h = config.height;
    let xl: u32 = if x == 0 { w - 1 } else { x - 1 };
    let xr: u32 = if x + 1 == w { 0 } else { x + 1 };
    let yu: u32 = if y == 0 { h - 1 } else { y - 1 };
    let yd: u32 = if y + 1 == h { 0 } else { y + 1 };
    proof {
        assert(xl == wrap_dec(x as int, w as int));
        assert(xr == wrap_inc(x as int, w as int));
        assert(yu == wrap_dec(y as int, h as int));
        assert(yd == wrap_inc(y as int, h as int));
    }
    let n = cell_at(cur, config, xl, yu) + cell_at(cur, config, x, yu) + cell_at(cur, config, xr, yu)
        + cell_at(cur, config, xl, y) + cell_at(cur, config, xr, y) + cell_at(cur, config, xl, yd)
        + cell_at(cur, config, x, yd) + cell_at(cur, config, xr, yd);
    proof {
        assert(n == neighbor_count(cur@, *config, x as int, y as int));
    }
    let alive = cell_at(cur, config, x, y);
    if alive == 1 {
        if n == 2 || n == 3 {
            1
        } else {
            0
        }
    } else {
        if n == 3 {
            1
        } else {
            0
        }
    }
}

/// A vector of `n` copies of `v`.
pub fn filled(n: usize, v: u32) -> (r: Vec<u32>)
    ensures
        r@ == Seq::new(n as nat, |i: int| v),
{
    let mut r: Vec<u32> = Vec::new();
    let mut k: usize = 0;
    while k < n
        invariant
            k <= n,
            r@ == Seq::new(k as nat, |i: int| v),
        decreases n - k,
    {
        r.push(v);
        k = k + 1;
        proof {
            assert(r@ =~= Seq::new(k as nat, |i: int| v));
        }
    }
    r
}

/// The compute engine: a grid configuration and two liveness buffers.  The
/// `current` buffer always holds the newest fully published generation; the
/// `next` buffer is the scratch the following step writes into.
pub struct Life {
    config: Config,
    current: Vec<u32>,
    next: Vec<u32>,
    seed_grid: Ghost<Seq<u32>>,
    generation: Ghost<nat>,
}

impl Life {
    /// The configuration the engine was built with.
    pub closed spec fn config(self) -> Config {
        self.config
    }

    /// The newest fully published generation.
    pub closed spec fn grid(self) -> Seq<u32> {
        self.current@
    }

    /// How many steps have completed since construction.
    pub closed spec fn generation(self) -> nat {
        self.generation@
    }

    /// The initial grid the engine was seeded with.
    pub closed spec fn seed_grid(self) -> Seq<u32> {
        self.seed_grid@
    }

    /// The engine invariant: both buffers span the grid, the published buffer
    /// is binary, and it equals the seed grid advanced by `generation` steps.
    pub closed spec fn wf(self) -> bool {
        &&& self.config.wf()
        &&& self.current@.len() == self.config.area()
        &&& self.next@.len() == self.config.area()
        &&& self.seed_grid@.len() == self.config.area()
        &&& is_binary(self.current@)
        &&& is_binary(self.seed_grid@)
        &&& self.current@ == iterate(self.generation@, self.seed_grid@, self.config)
    }

    /// Builds an engine over `config`, seeded with `data`; fails exactly when
    /// `data` does not hold one cell per grid position.
    pub fn new(config: Config, data: Vec<u32>) -> (r: Result<Life, ConstructionError>)
        requires
            config.wf(),
            is_binary(data@),
        ensures
            match r {
                Ok(l) => {
                    &&& data@.len() == config.area()
                    &&& l.wf()
                    &&& l.config() == config
                    &&& l.grid() == data@
                    &&& l.seed_grid() == data@
                    &&& l.generation() == 0
                },
                Err(e) => {
                    &&& data@.len() != config.area()
                    &&& e == ConstructionError::SizeMismatch
                },
            },
    {
        let w = config.width as u64;
        let h = config.height as u64;
        assert(w * h <= 0xffff_ffff_ffff_ffff) by (nonlinear_arith)
            requires
                w <= 0xffff_ffff,
                h <= 0xffff_ffff,
        ;
        let a = w * h;
        if data.len() as u64 == a {
            let n = data.len();
            let next = filled(n, 0);
            let ghost d = data@;
            Ok(
                Life {
                    config,
                    current: data,
                    next,
                    seed_grid: Ghost(d),
                    generation: Ghost(0nat),
                },
            )
        } else {
            Err(ConstructionError::SizeMismatch)
        }
    }

    /// Advances the simulation by exactly one generation: the published grid
    /// becomes the transition rule applied synchronously to the whole
    /// previous grid.
    #[verifier::loop_isolation(false)]
    pub fn step(&mut self)
        requires
            old(self).wf(),
        ensures
            final(self).wf(),
            final(self).config() == old(self).config(),
            final(self).seed_grid() == old(self).seed_grid(),
            final(self).generation() == old(self).generation() + 1,
            final(self).grid() == step_spec(old(self).grid(), old(self).config()),
    {
        let w = self.config.width;
        let h = self.config.height;
        let cfg = self.config;
        let n = self.current.len();
        proof {
            assert(n == cfg.area());
        }
        let ghost g0 = self.current@;
        let ghost target = step_spec(g0, cfg);
        let mut y: u32 = 0;
        while y < h
            invariant
                y <= h,
                self.config == old(self).config,
                self.current == old(self).current,
                self.seed_grid == old(self).seed_grid,
                self.generation == old(self).generation,
                self.next@.len() == cfg.area(),
                forall|i: int| 0 <= i < (y as int) * (w as int) ==> self.next@[i] == target[i],
            decreases h - y,
        {
            let mut x: u32 = 0;
            while x < w
                invariant
                    x <= w,
                    y < h,
                    self.config == old(self).config,
                    self.current == old(self).current,
                    self.seed_grid == old(self).seed_grid,
                    self.generation == old(self).generation,
                    self.next@.len() == cfg.area(),
                    forall|i: int|
                        0 <= i < (y as int) * (w as int) + (x as int) ==> self.next@[i]
                            == target[i],
                decreases w - x,
            {
                let v = transition(&self.current, &cfg, x, y);
                proof {
                    lemma_index_in_range(cfg, x as int, y as int);
                    lemma_step_spec_at(g0, cfg, x as int, y as int);
                }
                let i: usize = (y as usize) * (w as usize) + (x as usize);
                self.next[i] = v;
                x = x + 1;
            }
            proof {
                assert(((y + 1) as int) * (w as int) == (y as int) * (w as int) + (w as int))
                    by (nonlinear_arith);
            }
            y = y + 1;
        }
        proof {
            assert((h as int) * (w as int) == cfg.area()) by (nonlinear_arith)
                requires
                    cfg.width == w,
                    cfg.height == h,
            ;
            assert(self.next@ =~= target);
        }
        core::mem::swap(&mut self.current, &mut self.next);
        proof {
            self.generation@ = self.generation@ + 1;
            assert(is_binary(self.current@)) by {
                assert(forall|i: int|
                    0 <= i < target.len() ==> target[i] == 0 || target[i] == 1);
            }
        }
    }

    /// The published grid always reflects exactly `generation` applications
    /// of the transition rule to the seed grid.
    pub proof fn lemma_published_is_iterated(&self)
        requires
            self.wf(),
        ensures
            self.grid() == iterate(self.generation(), self.seed_grid(), self.config()),
    {
    }

    /// Copies the newest published generation out to the caller.  What comes
    /// back is exactly the seed grid advanced by one application of the
    /// transition rule per completed step.
    pub fn read_current(&self) -> (r: Vec<u32>)
        requires
            self.wf(),
        ensures
            r@ == self.grid(),
            r@ == iterate(self.generation(), self.seed_grid(), self.config()),
            r@.len() == self.config().area(),
    {
        let mut out: Vec<u32> = Vec::new();
        let mut k: usize = 0;
        let n = self.current.len();
        while k < n
            invariant
                k <= n,
                n == self.current@.len(),
                out@ == self.current@.take(k as int),
            decreases n - k,
        {
            out.push(self.current[k]);
            k = k + 1;
            proof {
                assert(out@ =~= self.current@.take(k as int));
            }
        }
        proof {
            assert(out@ =~= self.current@);
        }
        out
    }
}

} // verus!
