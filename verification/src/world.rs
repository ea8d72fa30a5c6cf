//! The pixel world: chunked storage plus a CPU falling-sand simulation.
//!
//! - The world is split into square chunks; still chunks sleep, and every write wakes
//!   the chunk written and its four neighbours.
//! - Powders and liquids that came to rest carry a settled bit, cleared when a neighbour changes.
//! - Fire, lava and acid react; settled reactive pixels still react now and then.
use vstd::prelude::*;
use crate::materials::{Kind, MaterialDef, MaterialId, Materials, Special, EMPTY, OOB};
use crate::rng::{Rng, seeded, xorshift, output};

verus! {

/// Side of a chunk in pixels.
pub const CHUNK_PX: usize = 128;
/// Connected static regions up to this size that lose their support crumble into debris.
pub const MAX_FLOATER_PX: usize = 512;
/// At most this many seeds are examined per floater check.
pub const MAX_FLOATER_SEEDS: usize = 256;
/// Mixed into the world seed for the simulation's own random stream.
pub const SIM_SEED_SALT: u64 = 0x5A17_1D5E;

/// One simulated pixel (4 bytes).
#[derive(Clone, Copy, Debug, PartialEq, Eq, Structural)]
pub struct Pixel {
    pub mat: u8,
    /// Brightness jitter (rendering).
    pub shade: u8,
    /// Lifetime (gases); 0 means none.
    pub life: u8,
    /// bit0: settled; bit1: horizontal direction (1 = right); bits 2..: mining damage.
    pub aux: u8,
}

pub open spec fn empty_px() -> Pixel {
    Pixel { mat: 0, shade: 0, life: 0, aux: 0 }
}

/// What reads outside the world's sides or below its bottom give.
pub open spec fn oob_px() -> Pixel {
    Pixel { mat: 255, shade: 0, life: 0, aux: 0 }
}

pub open spec fn settled(p: Pixel) -> bool {
    p.aux & 1 != 0
}

pub open spec fn unsettled(p: Pixel) -> Pixel {
    Pixel { mat: p.mat, shade: p.shade, life: p.life, aux: p.aux & !1u8 }
}

pub open spec fn dir_of(p: Pixel) -> int {
    if p.aux & 2 != 0 { 1 } else { -1 }
}

pub open spec fn with_dir_spec(p: Pixel, d: int) -> Pixel {
    Pixel { mat: p.mat, shade: p.shade, life: p.life, aux: if d > 0 { p.aux | 2u8 } else { p.aux & !2u8 } }
}

impl Default for Pixel {
    fn default() -> (p: Pixel)
        ensures
            p == empty_px(),
    {
        Pixel { mat: 0, shade: 0, life: 0, aux: 0 }
    }
}

impl Pixel {
    pub fn is_settled(&self) -> (b: bool)
        ensures
            b == settled(*self),
    {
        self.aux & 1 != 0
    }

    fn dir(&self) -> (d: i32)
        ensures
            d == dir_of(*self),
    {
        if self.aux & 2 != 0 { 1 } else { -1 }
    }

    fn with_dir(self, d: i32) -> (p: Pixel)
        ensures
            p == with_dir_spec(self, d as int),
    {
        let mut s = self;
        if d > 0 {
            s.aux = s.aux | 2;
        } else {
            s.aux = s.aux & !2u8;
        }
        s
    }

    fn unsettle(self) -> (p: Pixel)
        ensures
            p == unsettled(self),
    {
        let mut s = self;
        s.aux = s.aux & !1u8;
        s
    }
}

/// The direction a pixel was given is the direction it reports, and giving a direction
/// keeps the settled bit; unsettling clears the settled bit and keeps the direction.
pub proof fn lemma_pixel_bits(p: Pixel, d: int)
    ensures
        dir_of(with_dir_spec(p, d)) == (if d > 0 { 1int } else { -1int }),
        settled(with_dir_spec(p, d)) == settled(p),
        !settled(unsettled(p)),
        dir_of(unsettled(p)) == dir_of(p),
{
    let a = p.aux;
    assert((a | 2u8) & 2u8 != 0) by (bit_vector);
    assert((a & !2u8) & 2u8 == 0) by (bit_vector);
    assert(((a | 2u8) & 1u8 != 0) == (a & 1u8 != 0)) by (bit_vector);
    assert(((a & !2u8) & 1u8 != 0) == (a & 1u8 != 0)) by (bit_vector);
    assert((a & !1u8) & 1u8 == 0) by (bit_vector);
    assert(((a & !1u8) & 2u8 != 0) == (a & 2u8 != 0)) by (bit_vector);
}

#[derive(Clone, Copy, Debug)]
pub struct Rect {
    pub x: i32,
    pub y: i32,
    pub w: i32,
    pub h: i32,
}

/// Hooks through which the simulation reports to the outside (light and the like).
pub trait SimHooks {
    /// What the receiver keeps valid from one call to the next (nothing, unless
    /// an implementation says otherwise).
    open spec fn hooks_ok(&self) -> bool {
        true
    }

    /// Whether the receiver is what `before` becomes through the contributions `calls`
    /// (pixel x, pixel y, amount), in order, as far as the receiver tells (always,
    /// unless an implementation says otherwise).
    open spec fn after_calls(&self, before: &Self, calls: Seq<(i32, i32, u8)>) -> bool {
        true
    }

    /// Accumulates a light contribution at a burning or glowing pixel (simulation coordinates).
    fn add_emissive(&mut self, x: i32, y: i32, amount: u8)
        ensures
            old(self).hooks_ok() ==> final(self).hooks_ok(),
            forall|b: &Self, c: Seq<(i32, i32, u8)>| #[trigger] old(self).after_calls(b, c) ==> final(self).after_calls(b, c.push((x, y, amount))),
    ;
}

/// Ids of materials the simulation refers to by name (0 when missing).
#[derive(Clone, Copy, Default, Debug)]
pub struct SimIds {
    pub water: MaterialId,
    pub steam: MaterialId,
    pub smoke: MaterialId,
    pub fire: MaterialId,
    pub stone_debris: MaterialId,
}

/// The id of `name`, or 0 when the table has no such material.
pub open spec fn id_or_zero(mats: Materials, name: Seq<char>) -> MaterialId {
    match mats.id_spec(name) {
        Some(k) => k,
        None => 0,
    }
}

impl SimIds {
    pub open spec fn of(mats: Materials) -> SimIds {
        SimIds {
            water: id_or_zero(mats, "water"@),
            steam: id_or_zero(mats, "steam"@),
            smoke: id_or_zero(mats, "smoke"@),
            fire: id_or_zero(mats, "fire"@),
            stone_debris: id_or_zero(mats, "stone_debris"@),
        }
    }

    pub fn new(mats: &Materials) -> (ids: SimIds)
        requires
            mats.wf(),
        ensures
            ids == SimIds::of(*mats),
    {
        let water = match mats.id("water") { Some(k) => k, None => 0 };
        let steam = match mats.id("steam") { Some(k) => k, None => 0 };
        let smoke = match mats.id("smoke") { Some(k) => k, None => 0 };
        let fire = match mats.id("fire") { Some(k) => k, None => 0 };
        let stone_debris = match mats.id("stone_debris") { Some(k) => k, None => 0 };
        SimIds { water, steam, smoke, fire, stone_debris }
    }
}

/// The mutable part of a world, as mathematics: pixels as a function of coordinates
/// (with the read rules of `get` outside the world), chunk flags by chunk index.
#[verifier::ext_equal]
pub struct SimState {
    pub px: spec_fn(int, int) -> Pixel,
    pub asleep: Seq<bool>,
    pub active: Seq<u32>,
    pub dirty: Seq<bool>,
    pub rng: u64,
    pub tick: u64,
    pub active_pixels: u64,
    pub asleep_chunks: u32,
}

/// Reads a row-major pixel buffer with the world's edge rules.
pub open spec fn read_px(px: Seq<Pixel>, w: int, h: int, x: int, y: int) -> Pixel {
    if x < 0 || x >= w || y >= h {
        oob_px()
    } else if y < 0 {
        empty_px()
    } else {
        px[y * w + x]
    }
}

pub open spec fn is_nb4(a: int, b: int, x: int, y: int) -> bool {
    (a == x && (b == y - 1 || b == y + 1)) || (b == y && (a == x - 1 || a == x + 1))
}

pub open spec fn clampi(v: int, lo: int, hi: int) -> int {
    if v < lo {
        lo
    } else if v > hi {
        hi
    } else {
        v
    }
}

pub open spec fn max0(v: int) -> int {
    if v < 0 { 0 } else { v }
}

/// The fixed geometry of a world: size in pixels and chunk grid.
pub struct Frame {
    pub w: int,
    pub h: int,
    pub cols: int,
    pub rows: int,
}

impl Frame {
    pub open spec fn in_bounds(&self, x: int, y: int) -> bool {
        0 <= x < self.w && 0 <= y < self.h
    }

    pub open spec fn n_chunks(&self) -> int {
        self.cols * self.rows
    }

    /// Index of the chunk that holds in-bounds pixel (x, y).
    pub open spec fn chunk_of(&self, x: int, y: int) -> int {
        (y / 128) * self.cols + x / 128
    }

    /// Clears the settled bit of the in-bounds 4-neighbours of (x, y).
    pub open spec fn st_unsettle_around(&self, s: SimState, x: int, y: int) -> SimState {
        SimState {
            px: |a: int, b: int|
                if self.in_bounds(a, b) && is_nb4(a, b, x, y) { unsettled((s.px)(a, b)) } else { (s.px)(a, b) },
            ..s
        }
    }

    pub open spec fn wake_one(&self, a: Seq<bool>, cx: int, cy: int) -> Seq<bool> {
        if 0 <= cx < self.cols && 0 <= cy < self.rows {
            a.update(cy * self.cols + cx, false)
        } else {
            a
        }
    }

    /// Wakes the chunk of (x, y) and its four neighbours in the chunk grid.
    pub open spec fn st_wake_around(&self, s: SimState, x: int, y: int) -> SimState {
        let cx = x / 128;
        let cy = y / 128;
        let a0 = self.wake_one(s.asleep, cx, cy);
        let a1 = self.wake_one(a0, cx - 1, cy);
        let a2 = self.wake_one(a1, cx + 1, cy);
        let a3 = self.wake_one(a2, cx, cy - 1);
        let a4 = self.wake_one(a3, cx, cy + 1);
        SimState { asleep: a4, ..s }
    }

    pub open spec fn st_mark(&self, s: SimState, x: int, y: int) -> SimState {
        SimState { dirty: s.dirty.update(self.chunk_of(x, y), true), ..s }
    }

    /// What `set(x, y, p)` does to the state: in bounds, the pixel becomes `p`, its
    /// neighbours lose their settled bit, nearby chunks wake and its chunk turns dirty.
    pub open spec fn set_st(&self, s: SimState, x: int, y: int, p: Pixel) -> SimState {
        if self.in_bounds(x, y) {
            self.st_mark(
                self.st_wake_around(self.st_unsettle_around(PixelWorld::st_write(s, x, y, p), x, y), x, y),
                x,
                y,
            )
        } else {
            s
        }
    }

    /// What an in-place pixel edit does: the pixel changes and its chunk turns dirty.
    pub open spec fn patch_st(&self, s: SimState, x: int, y: int, p: Pixel) -> SimState {
        if self.in_bounds(x, y) {
            self.st_mark(PixelWorld::st_write(s, x, y, p), x, y)
        } else {
            s
        }
    }

    /// First and last chunk column and row that `mark_dirty(r)` covers.
    pub open spec fn rect_span(&self, r: Rect) -> (int, int, int, int) {
        let c0x = clampi(max0(r.x as int) / 128, 0, self.cols - 1);
        let c0y = clampi(max0(r.y as int) / 128, 0, self.rows - 1);
        let x1 = r.x + r.w - 1;
        let y1 = r.y + r.h - 1;
        let c1x = clampi(max0(if x1 < self.w - 1 { x1 } else { self.w - 1 }) / 128, 0, self.cols - 1);
        let c1y = clampi(max0(if y1 < self.h - 1 { y1 } else { self.h - 1 }) / 128, 0, self.rows - 1);
        (c0x, c0y, c1x, c1y)
    }

    /// Chunk `i` lies in the span of `r`.
    pub open spec fn in_span(&self, r: Rect, i: int) -> bool {
        let (c0x, c0y, c1x, c1y) = self.rect_span(r);
        c0x <= i % self.cols <= c1x && c0y <= i / self.cols <= c1y
    }

    /// The rectangle of chunk `i` in pixels.
    pub open spec fn chunk_rect(&self, i: int) -> Rect {
        Rect { x: ((i % self.cols) * 128) as i32, y: ((i / self.cols) * 128) as i32, w: 128, h: 128 }
    }

    /// The dirty chunks among the first `n`, in index order, with their rectangles.
    pub open spec fn dirty_list(&self, d: Seq<bool>, n: int) -> Seq<(usize, Rect)>
        decreases n,
    {
        if n <= 0 {
            Seq::empty()
        } else if d[n - 1] {
            self.dirty_list(d, n - 1).push(((n - 1) as usize, self.chunk_rect(n - 1)))
        } else {
            self.dirty_list(d, n - 1)
        }
    }

    /// The bytes of chunk `ci`: (material, shade) pairs in chunk-local row order.
    pub open spec fn chunk_bytes(&self, s: SimState, ci: int) -> Seq<u8> {
        Seq::new(2 * 16384, |k: int| {
            let l = k / 2;
            let p = (s.px)((ci % self.cols) * 128 + l % 128, (ci / self.cols) * 128 + l / 128);
            if k % 2 == 0 { p.mat } else { p.shade }
        })
    }

    /// The whole world as (material, shade) pairs in row-major order.
    pub open spec fn mat_shade_bytes(&self, s: SimState) -> Seq<u8> {
        Seq::new((2 * (self.w * self.h)) as nat, |k: int| {
            let i = k / 2;
            let p = (s.px)(i % self.w, i / self.w);
            if k % 2 == 0 { p.mat } else { p.shade }
        })
    }

    /// The pixels `import_mat_shade(data)` writes: material and shade from the stream,
    /// life and aux cleared.
    pub open spec fn imported_px(&self, data: Seq<u8>, x: int, y: int) -> Pixel {
        let i = y * self.w + x;
        Pixel { mat: data[2 * i], shade: data[2 * i + 1], life: 0, aux: 0 }
    }

    /// What `spawn(x, y, mat)` does: on an empty cell, draws a shade jitter and writes the
    /// material with its birth lifetime; otherwise nothing.
    pub open spec fn spawn_st(&self, mats: Materials, s: SimState, x: int, y: int, mat: u8) -> SimState {
        if mat == 0 || mat == 255 || (s.px)(x, y).mat != 0 {
            s
        } else {
            let d = mats.def_spec(mat);
            let j = d.jitter as int;
            let (r2, v) = crate::rng::range_next(s.rng, -j, j);
            let shade = clampi(127 + v, 0, 255) as u8;
            self.set_st(SimState { rng: r2, ..s }, x, y, Pixel { mat, shade, life: d.life, aux: 0 })
        }
    }

    pub open spec fn swap_st(&self, s: SimState, ax: int, ay: int, bx: int, by: int) -> SimState {
        let a = (s.px)(ax, ay);
        let b = (s.px)(bx, by);
        self.set_st(self.set_st(s, ax, ay, b), bx, by, unsettled(a))
    }

    /// Moving pixel `p` from (fx, fy) to (tx, ty): whatever it displaces there (a
    /// lighter liquid, say) takes its old place, an empty cell leaves an empty one.
    pub open spec fn move_st(&self, s: SimState, fx: int, fy: int, tx: int, ty: int, p: Pixel) -> SimState {
        let t = (s.px)(tx, ty);
        let back = if t.mat == 0 { empty_px() } else { t };
        self.set_st(self.set_st(s, fx, fy, back), tx, ty, unsettled(p))
    }

    pub open spec fn settle_st(&self, s: SimState, x: int, y: int) -> SimState {
        let p = (s.px)(x, y);
        self.patch_st(s, x, y, Pixel { mat: p.mat, shade: p.shade, life: p.life, aux: p.aux | 1u8 })
    }

    /// The in-grid chunk `i` is the chunk of pixel (x, y) or one of its four neighbours.
    pub open spec fn near_chunk(&self, i: int, x: int, y: int) -> bool {
        let cx = i % self.cols;
        let cy = i / self.cols;
        let qx = x / 128;
        let qy = y / 128;
        ||| (cx == qx && cy == qy)
        ||| (cx == qx - 1 && cy == qy)
        ||| (cx == qx + 1 && cy == qy)
        ||| (cx == qx && cy == qy - 1)
        ||| (cx == qx && cy == qy + 1)
    }

    /// The state after every cell with `pred` turned into its debris: neighbours of the
    /// cells lose their settled bit, chunks near the cells wake, the cells' chunks turn dirty.
    pub open spec fn apply_region(&self, mats: Materials, s: SimState, pred: spec_fn(int, int) -> bool) -> SimState {
        SimState {
            px: |a: int, b: int|
                if pred(a, b) {
                    PixelWorld::drop_px(mats, (s.px)(a, b))
                } else if self.in_bounds(a, b) && (pred(a - 1, b) || pred(a + 1, b) || pred(a, b - 1) || pred(a, b + 1)) {
                    unsettled((s.px)(a, b))
                } else {
                    (s.px)(a, b)
                },
            asleep: Seq::new(self.n_chunks() as nat, |i: int| s.asleep[i] && !(exists|a: int, b: int| #[trigger] pred(a, b) && self.near_chunk(i, a, b))),
            dirty: Seq::new(self.n_chunks() as nat, |i: int| s.dirty[i] || (exists|a: int, b: int| #[trigger] pred(a, b) && self.chunk_of(a, b) == i)),
            ..s
        }
    }

    /// What collapsing the region of (sx, sy) does: nothing when the region is larger than a
    /// floater may be, otherwise every cell of it turns into its debris.
    #[verifier::opaque]
    pub open spec fn collapse_st(&self, mats: Materials, s: SimState, sx: int, sy: int) -> SimState {
        if region_exceeds(mats, s, sx, sy) {
            s
        } else {
            self.apply_region(mats, s, |x: int, y: int| in_region(mats, s, sx, sy, x, y))
        }
    }

    /// What examining one neighbour of a cleared cell does: a solid static cell with no solid
    /// static cell right below it has its region collapsed.
    pub open spec fn resolve_one(&self, mats: Materials, s: SimState, x: int, y: int) -> SimState {
        if !solid_static(mats, s, x, y) {
            s
        } else {
            let below = (s.px)(x, y + 1);
            if below.mat != 0 && below.mat != 255 && mats.def_spec(below.mat).kind == Kind::Static && mats.def_spec(below.mat).solid {
                s
            } else {
                self.collapse_st(mats, s, x, y)
            }
        }
    }

    /// Examines the four neighbours of a seed, in the order up, down, left, right.
    pub open spec fn resolve_seed(&self, mats: Materials, s: SimState, sx: int, sy: int) -> SimState {
        let s1 = self.resolve_one(mats, s, sx, sy - 1);
        let s2 = self.resolve_one(mats, s1, sx, sy + 1);
        let s3 = self.resolve_one(mats, s2, sx - 1, sy);
        self.resolve_one(mats, s3, sx + 1, sy)
    }

    /// Examines the first `k` seeds in order.
    pub open spec fn resolve_seeds(&self, mats: Materials, s: SimState, seeds: Seq<(i32, i32)>, k: int) -> SimState
        decreases k,
    {
        if k <= 0 {
            s
        } else {
            let prev = self.resolve_seeds(mats, s, seeds, k - 1);
            self.resolve_seed(mats, prev, seeds[k - 1].0 as int, seeds[k - 1].1 as int)
        }
    }

    /// What `resolve_floaters(seeds)` does: at most the first seeds are examined.
    pub open spec fn resolve_st(&self, mats: Materials, s: SimState, seeds: Seq<(i32, i32)>) -> SimState {
        self.resolve_seeds(mats, s, seeds, if seeds.len() < MAX_FLOATER_SEEDS { seeds.len() as int } else { MAX_FLOATER_SEEDS as int })
    }

    /// What `mine_px(x, y, power)` does and answers: on a minable static pixel the damage
    /// grows by `power`; once it reaches the hardness the pixel is cleared, the floater
    /// check runs around it and the material is answered; otherwise the damage (capped at
    /// `MAX_DAMAGE`) is stored and nothing is answered.
    pub open spec fn mine_st(&self, mats: Materials, s: SimState, x: int, y: int, power: u16) -> (SimState, Option<u8>) {
        let p = (s.px)(x, y);
        if !PixelWorld::mine_target(mats, p) {
            (s, None)
        } else {
            let dmg = PixelWorld::damage_of(p) + power;
            if dmg >= mats.def_spec(p.mat).hp {
                let s1 = self.set_st(s, x, y, empty_px());
                (self.resolve_st(mats, s1, seq![(x as i32, y as i32)]), Some(p.mat))
            } else {
                let capped = if dmg < MAX_DAMAGE { dmg } else { MAX_DAMAGE as int };
                (self.patch_st(s, x, y, PixelWorld::with_damage(p, capped)), None)
            }
        }
    }
}

pub struct PixelWorld {
    pub w: i32,
    pub h: i32,
    cw: i32,
    ch: i32,
    px: Vec<Pixel>,
    asleep: Vec<bool>,
    active: Vec<u32>,
    dirty_chunks: Vec<bool>,
    rng: Rng,
    tick: u64,
    pub ids: SimIds,
    /// Pixels active or reacting during the last step.
    pub active_pixels: u64,
    pub asleep_chunks: u32,
}

proof fn lemma_index_in_range(w: int, h: int, x: int, y: int)
    requires
        0 <= x < w,
        0 <= y < h,
    ensures
        0 <= y * w + x < w * h,
        y * w <= y * w + x,
{
    assert(0 <= y * w) by (nonlinear_arith)
        requires
            0 <= y,
            0 < w,
    ;
    assert(y * w + x < w * h) by (nonlinear_arith)
        requires
            0 <= x < w,
            0 <= y < h,
    ;
}

proof fn lemma_index_inj(w: int, a: int, b: int, x: int, y: int)
    requires
        0 <= a < w,
        0 <= x < w,
        0 <= b,
        0 <= y,
        b * w + a == y * w + x,
    ensures
        a == x,
        b == y,
{
    if b < y {
        assert(b * w + a < y * w + x) by (nonlinear_arith)
            requires
                0 <= a < w,
                0 <= x,
                b < y,
        ;
    } else if y < b {
        assert(y * w + x < b * w + a) by (nonlinear_arith)
            requires
                0 <= x < w,
                0 <= a,
                y < b,
        ;
    }
}

impl PixelWorld {
    /// Chunk counts match the pixel size and every buffer has its length.
    pub closed spec fn wf(&self) -> bool {
        &&& self.cw >= 1
        &&& self.ch >= 1
        &&& self.w == self.cw * 128
        &&& self.h == self.ch * 128
        &&& self.w * self.h * 4 <= isize::MAX
        &&& self.cw * self.ch <= i32::MAX
        &&& self.px@.len() == self.w * self.h
        &&& self.asleep@.len() == self.cw * self.ch
        &&& self.active@.len() == self.cw * self.ch
        &&& self.dirty_chunks@.len() == self.cw * self.ch
    }

    pub closed spec fn state(&self) -> SimState {
        SimState {
            px: |x: int, y: int| read_px(self.px@, self.w as int, self.h as int, x, y),
            asleep: self.asleep@,
            active: self.active@,
            dirty: self.dirty_chunks@,
            rng: self.rng@,
            tick: self.tick,
            active_pixels: self.active_pixels,
            asleep_chunks: self.asleep_chunks,
        }
    }

    pub closed spec fn frame(&self) -> Frame {
        Frame { w: self.w as int, h: self.h as int, cols: self.cw as int, rows: self.ch as int }
    }

    pub open spec fn width(&self) -> int {
        self.frame().w
    }

    pub open spec fn height(&self) -> int {
        self.frame().h
    }

    pub closed spec fn sim_ids(&self) -> SimIds {
        self.ids
    }

    /// Chunk grid width and height.
    pub open spec fn cols(&self) -> int {
        self.frame().cols
    }

    pub open spec fn rows(&self) -> int {
        self.frame().rows
    }

    /// Size, chunk grid and ids are the same.
    pub open spec fn same_frame(&self, other: &PixelWorld) -> bool {
        &&& self.frame() == other.frame()
        &&& self.sim_ids() == other.sim_ids()
    }

    pub open spec fn pixel(&self, x: int, y: int) -> Pixel {
        (self.state().px)(x, y)
    }

    pub open spec fn in_bounds(&self, x: int, y: int) -> bool {
        self.frame().in_bounds(x, y)
    }

    pub open spec fn n_chunks(&self) -> int {
        self.frame().n_chunks()
    }

    /// Index of the chunk that holds in-bounds pixel (x, y).
    pub open spec fn chunk_of(&self, x: int, y: int) -> int {
        self.frame().chunk_of(x, y)
    }

    pub open spec fn st_write(s: SimState, x: int, y: int, p: Pixel) -> SimState {
        SimState { px: |a: int, b: int| if a == x && b == y { p } else { (s.px)(a, b) }, ..s }
    }

    /// Clears the settled bit of the in-bounds 4-neighbours of (x, y).
    pub open spec fn st_unsettle_around(&self, s: SimState, x: int, y: int) -> SimState {
        self.frame().st_unsettle_around(s, x, y)
    }

    pub open spec fn wake_one(&self, a: Seq<bool>, cx: int, cy: int) -> Seq<bool> {
        self.frame().wake_one(a, cx, cy)
    }

    /// Wakes the chunk of (x, y) and its four neighbours in the chunk grid.
    pub open spec fn st_wake_around(&self, s: SimState, x: int, y: int) -> SimState {
        self.frame().st_wake_around(s, x, y)
    }

    pub open spec fn st_mark(&self, s: SimState, x: int, y: int) -> SimState {
        self.frame().st_mark(s, x, y)
    }

    /// What `set(x, y, p)` does to the state: in bounds, the pixel becomes `p`, its
    /// neighbours lose their settled bit, nearby chunks wake and its chunk turns dirty.
    pub open spec fn set_st(&self, s: SimState, x: int, y: int, p: Pixel) -> SimState {
        self.frame().set_st(s, x, y, p)
    }

    /// What an in-place pixel edit does: the pixel changes and its chunk turns dirty.
    pub open spec fn patch_st(&self, s: SimState, x: int, y: int, p: Pixel) -> SimState {
        self.frame().patch_st(s, x, y, p)
    }

    proof fn lemma_wf_facts(&self)
        requires
            self.wf(),
        ensures
            self.cols() >= 1,
            self.rows() >= 1,
            self.width() == self.cols() * 128,
            self.height() == self.rows() * 128,
            self.state().asleep.len() == self.n_chunks(),
            self.state().dirty.len() == self.n_chunks(),
            self.state().active.len() == self.n_chunks(),
            self.n_chunks() <= self.w * self.h,
            self.n_chunks() >= 1,
            self.n_chunks() <= i32::MAX,
            self.w * self.h <= usize::MAX,
            self.w * self.h * 4 <= isize::MAX,
    {
        assert(self.cw * self.ch <= self.w * self.h) by (nonlinear_arith)
            requires
                self.w == self.cw * 128,
                self.h == self.ch * 128,
                self.cw >= 1,
                self.ch >= 1,
        ;
        assert(self.cw * self.ch >= 1) by (nonlinear_arith)
            requires
                self.cw >= 1,
                self.ch >= 1,
        ;
    }

    proof fn lemma_chunk_in_range(&self, x: int, y: int)
        requires
            self.wf(),
            self.in_bounds(x, y),
        ensures
            0 <= x / 128 < self.cols(),
            0 <= y / 128 < self.rows(),
            0 <= self.chunk_of(x, y) < self.n_chunks(),
    {
        lemma_index_in_range(self.cw as int, self.ch as int, x / 128, y / 128);
    }

    fn px_index(&self, x: i32, y: i32) -> (i: usize)
        requires
            self.wf(),
            self.in_bounds(x as int, y as int),
        ensures
            i == y * self.w + x,
            i < self.px@.len(),
    {
        proof {
            lemma_index_in_range(self.w as int, self.h as int, x as int, y as int);
        }
        (y as usize) * (self.w as usize) + (x as usize)
    }

    fn write_px(&mut self, x: i32, y: i32, p: Pixel)
        requires
            old(self).wf(),
            old(self).in_bounds(x as int, y as int),
        ensures
            final(self).wf(),
            final(self).same_frame(old(self)),
            final(self).state() == Self::st_write(old(self).state(), x as int, y as int, p),
    {
        let i = self.px_index(x, y);
        self.px.set(i, p);
        proof {
            let old_px = old(self).px@;
            let w = self.w as int;
            let h = self.h as int;
            assert forall|a: int, b: int| read_px(self.px@, w, h, a, b) == (if a == x && b == y { p } else {
                read_px(old_px, w, h, a, b) }) by {
                if 0 <= a < w && 0 <= b < h && !(a == x && b == y) {
                    lemma_index_in_range(w, h, a, b);
                    if b * w + a == y * w + x {
                        lemma_index_inj(w, a, b, x as int, y as int);
                    }
                }
            }
            assert(self.state().px =~= Self::st_write(old(self).state(), x as int, y as int, p).px);
        }
    }

    fn unsettle_at(&mut self, x: i32, y: i32)
        requires
            old(self).wf(),
            old(self).in_bounds(x as int, y as int),
        ensures
            final(self).wf(),
            final(self).same_frame(old(self)),
            final(self).state() == Self::st_write(old(self).state(), x as int, y as int,
                unsettled(old(self).pixel(x as int, y as int))),
    {
        let i = self.px_index(x, y);
        let q = self.px[i];
        if q.is_settled() {
            self.write_px(x, y, q.unsettle());
        } else {
            proof {
                let a = q.aux;
                assert(a & 1u8 == 0 ==> a & !1u8 == a) by (bit_vector);
                assert(self.state().px =~= Self::st_write(old(self).state(), x as int, y as int,
                    unsettled(old(self).pixel(x as int, y as int))).px);
            }
        }
    }

    fn wake_chunk(&mut self, cx: i32, cy: i32)
        requires
            old(self).wf(),
        ensures
            final(self).wf(),
            final(self).same_frame(old(self)),
            final(self).state() == (SimState {
                asleep: old(self).wake_one(old(self).state().asleep, cx as int, cy as int),
                ..old(self).state()
            }),
    {
        if cx < 0 || cy < 0 || cx >= self.cw || cy >= self.ch {
            return;
        }
        proof {
            self.lemma_wf_facts();
            lemma_index_in_range(self.cw as int, self.ch as int, cx as int, cy as int);
        }
        let i = (cy as usize) * (self.cw as usize) + (cx as usize);
        self.asleep.set(i, false);
    }

    fn wake_around(&mut self, x: i32, y: i32)
        requires
            old(self).wf(),
            old(self).in_bounds(x as int, y as int),
        ensures
            final(self).wf(),
            final(self).same_frame(old(self)),
            final(self).state() == old(self).st_wake_around(old(self).state(), x as int, y as int),
    {
        let cx = x / 128;
        let cy = y / 128;
        self.wake_chunk(cx, cy);
        self.wake_chunk(cx - 1, cy);
        self.wake_chunk(cx + 1, cy);
        self.wake_chunk(cx, cy - 1);
        self.wake_chunk(cx, cy + 1);
    }

    fn chunk_index(&self, x: i32, y: i32) -> (ci: usize)
        requires
            self.wf(),
            self.in_bounds(x as int, y as int),
        ensures
            ci == self.chunk_of(x as int, y as int),
            ci < self.n_chunks(),
    {
        proof {
            self.lemma_wf_facts();
            self.lemma_chunk_in_range(x as int, y as int);
        }
        ((y / 128) as usize) * (self.cw as usize) + ((x / 128) as usize)
    }

    fn mark_px(&mut self, x: i32, y: i32)
        requires
            old(self).wf(),
            old(self).in_bounds(x as int, y as int),
        ensures
            final(self).wf(),
            final(self).same_frame(old(self)),
            final(self).state() == old(self).st_mark(old(self).state(), x as int, y as int),
    {
        let ci = self.chunk_index(x, y);
        self.dirty_chunks.set(ci, true);
    }

    /// The pixel at (x, y): out-of-bounds sides and below the bottom read as the
    /// out-of-bounds material, above the top reads as empty sky.
    pub fn get(&self, x: i32, y: i32) -> (p: Pixel)
        requires
            self.wf(),
        ensures
            p == self.pixel(x as int, y as int),
            (x < 0 || x >= self.width() || y >= self.height()) ==> p == oob_px(),
            (0 <= x < self.width() && y < 0) ==> p == empty_px(),
    {
        proof {
            self.lemma_wf_facts();
        }
        if x < 0 || x >= self.w {
            return Pixel { mat: OOB, shade: 0, life: 0, aux: 0 };
        }
        if y >= self.h {
            return Pixel { mat: OOB, shade: 0, life: 0, aux: 0 };
        }
        if y < 0 {
            return Pixel { mat: 0, shade: 0, life: 0, aux: 0 };
        }
        let i = self.px_index(x, y);
        self.px[i]
    }

    /// Writes a pixel (ignored out of bounds), wakes the nearby chunks, unsettles the
    /// four neighbours and marks the chunk dirty.
    pub fn set(&mut self, x: i32, y: i32, p: Pixel)
        requires
            old(self).wf(),
        ensures
            final(self).wf(),
            final(self).same_frame(old(self)),
            final(self).state() == old(self).set_st(old(self).state(), x as int, y as int, p),
    {
        if x < 0 || x >= self.w || y < 0 || y >= self.h {
            return;
        }
        let ghost s0 = self.state();
        self.write_px(x, y, p);
        let ghost s1 = self.state();
        self.wake_around(x, y);
        let ghost s2 = self.state();
        if y - 1 >= 0 {
            self.unsettle_at(x, y - 1);
        }
        if y + 1 < self.h {
            self.unsettle_at(x, y + 1);
        }
        if x - 1 >= 0 {
            self.unsettle_at(x - 1, y);
        }
        if x + 1 < self.w {
            self.unsettle_at(x + 1, y);
        }
        let ghost s3 = self.state();
        proof {
            let target = old(self).st_unsettle_around(s2, x as int, y as int);
            assert(s3.px =~= target.px);
            assert(s3 =~= target);
            assert(old(self).st_wake_around(s1, x as int, y as int) =~= s2);
        }
        self.mark_px(x, y);
        proof {
            assert(self.state() =~= old(self).set_st(old(self).state(), x as int, y as int, p));
        }
    }
    /// First and last chunk column and row that `mark_dirty(r)` covers.
    pub open spec fn rect_span(&self, r: Rect) -> (int, int, int, int) {
        self.frame().rect_span(r)
    }

    /// Chunk `i` lies in the span of `r`.
    pub open spec fn in_span(&self, r: Rect, i: int) -> bool {
        self.frame().in_span(r, i)
    }

    proof fn lemma_chunk_coords(&self, cx: int, cy: int)
        requires
            self.wf(),
            0 <= cx < self.cols(),
            0 <= cy < self.rows(),
        ensures
            0 <= cy * self.cols() + cx < self.n_chunks(),
            (cy * self.cols() + cx) % self.cols() == cx,
            (cy * self.cols() + cx) / self.cols() == cy,
    {
        lemma_index_in_range(self.cols(), self.rows(), cx, cy);
        vstd::arithmetic::div_mod::lemma_fundamental_div_mod_converse(cy * self.cols() + cx, self.cols(), cy, cx);
    }

    proof fn lemma_chunk_split(&self, i: int)
        requires
            self.wf(),
            0 <= i < self.n_chunks(),
        ensures
            0 <= i % self.cols() < self.cols(),
            0 <= i / self.cols() < self.rows(),
            i == (i / self.cols()) * self.cols() + i % self.cols(),
    {
        let c = self.cols();
        let q = i / c;
        let r = i % c;
        vstd::arithmetic::div_mod::lemma_fundamental_div_mod(i, c);
        vstd::arithmetic::div_mod::lemma_div_pos_is_pos(i, c);
        assert(c * q == q * c) by (nonlinear_arith);
        assert(i == q * c + r);
        if q >= self.rows() {
            assert(q * c >= c * self.rows()) by (nonlinear_arith)
                requires
                    q >= self.rows(),
                    c >= 1,
            ;
        }
    }

    /// Marks every chunk in the (clamped) chunk span of `r` dirty.
    fn mark_dirty(&mut self, r: Rect)
        requires
            old(self).wf(),
            i32::MIN <= r.x + r.w <= i32::MAX,
            i32::MIN <= r.y + r.h <= i32::MAX,
            r.x + r.w - 1 >= i32::MIN,
            r.y + r.h - 1 >= i32::MIN,
        ensures
            final(self).wf(),
            final(self).same_frame(old(self)),
            final(self).state() == (SimState {
                dirty: Seq::new(old(self).n_chunks() as nat, |i: int| old(self).state().dirty[i] || old(self).in_span(r, i)),
                ..old(self).state()
            }),
    {
        let ghost s0 = self.state();
        proof {
            self.lemma_wf_facts();
        }
        let c0x = clamp_i32(max0_i32(r.x) / 128, 0, self.cw - 1);
        let c0y = clamp_i32(max0_i32(r.y) / 128, 0, self.ch - 1);
        let x1 = r.x + r.w - 1;
        let y1 = r.y + r.h - 1;
        let c1x = clamp_i32(max0_i32(if x1 < self.w - 1 { x1 } else { self.w - 1 }) / 128, 0, self.cw - 1);
        let c1y = clamp_i32(max0_i32(if y1 < self.h - 1 { y1 } else { self.h - 1 }) / 128, 0, self.ch - 1);
        assert((c0x as int, c0y as int, c1x as int, c1y as int) == self.rect_span(r));
        let ghost n = self.n_chunks();
        let mut cy = c0y;
        while cy <= c1y
            invariant
                self.wf(),
                self.same_frame(old(self)),
                (c0x as int, c0y as int, c1x as int, c1y as int) == old(self).rect_span(r),
                0 <= c0x < self.cols(),
                0 <= c1x < self.cols(),
                0 <= c0y <= cy,
                0 <= c0y < self.rows(),
                c1y < self.rows(),
                cy <= c1y + 1 || cy == c0y,
                n == self.n_chunks(),
                self.state() == (SimState {
                    dirty: Seq::new(n as nat, |i: int| s0.dirty[i] || (c0x <= i % self.cols() <= c1x && c0y <= i / self.cols() < cy)),
                    ..s0
                }),
            decreases c1y + 1 - cy,
        {
            let mut cx = c0x;
            while cx <= c1x
                invariant
                    self.wf(),
                    self.same_frame(old(self)),
                    0 <= c0x <= cx,
                    cx <= c1x + 1 || cx == c0x,
                    c0x < self.cols(),
                    0 <= c1x < self.cols(),
                    0 <= c0y <= cy <= c1y,
                    c1y < self.rows(),
                    n == self.n_chunks(),
                    self.state() == (SimState {
                        dirty: Seq::new(n as nat, |i: int| s0.dirty[i] || (c0x <= i % self.cols() <= c1x && c0y <= i / self.cols() < cy)
                            || (i / self.cols() == cy && c0x <= i % self.cols() < cx)),
                        ..s0
                    }),
                decreases c1x + 1 - cx,
            {
                proof {
                    self.lemma_wf_facts();
                    self.lemma_chunk_coords(cx as int, cy as int);
                }
                let i = (cy as usize) * (self.cw as usize) + (cx as usize);
                let ghost before = self.dirty_chunks@;
                self.dirty_chunks.set(i, true);
                proof {
                    assert forall|j: int| 0 <= j < n implies #[trigger] self.dirty_chunks@[j] == (s0.dirty[j] || (c0x <= j % self.cols() <= c1x && c0y <= j / self.cols() < cy)
                        || (j / self.cols() == cy && c0x <= j % self.cols() < cx + 1)) by {
                        if j != i as int {
                            self.lemma_chunk_split(j);
                            if j / self.cols() == cy && j % self.cols() == cx {
                                assert(j == cy * self.cols() + cx);
                            }
                        }
                    }
                    assert(self.dirty_chunks@ =~= Seq::new(n as nat, |j: int| s0.dirty[j] || (c0x <= j % self.cols() <= c1x && c0y <= j / self.cols() < cy)
                        || (j / self.cols() == cy && c0x <= j % self.cols() < cx + 1)));
                    assert(self.state() =~= (SimState {
                        dirty: Seq::new(n as nat, |j: int| s0.dirty[j] || (c0x <= j % self.cols() <= c1x && c0y <= j / self.cols() < cy)
                            || (j / self.cols() == cy && c0x <= j % self.cols() < cx + 1)),
                        ..s0
                    }));
                }
                cx = cx + 1;
            }
            proof {
                assert(self.state().dirty =~= Seq::new(n as nat, |i: int| s0.dirty[i] || (c0x <= i % self.cols() <= c1x && c0y <= i / self.cols() < cy + 1)));
            }
            cy = cy + 1;
        }
        proof {
            assert(self.state().dirty =~= Seq::new(n as nat, |i: int| s0.dirty[i] || old(self).in_span(r, i)));
            assert(self.state() =~= (SimState {
                dirty: Seq::new(old(self).n_chunks() as nat, |i: int| old(self).state().dirty[i] || old(self).in_span(r, i)),
                ..old(self).state()
            }));
        }
    }

    /// The whole world's rectangle covers every chunk.
    proof fn lemma_full_span(&self, i: int)
        requires
            self.wf(),
            0 <= i < self.n_chunks(),
        ensures
            self.in_span(Rect { x: 0, y: 0, w: self.w, h: self.h }, i),
    {
        self.lemma_chunk_split(i);
        assert((self.w - 1) / 128 == self.cw - 1);
        assert((self.h - 1) / 128 == self.ch - 1);
    }
}

fn clamp_i32(v: i32, lo: i32, hi: i32) -> (r: i32)
    requires
        lo <= hi,
    ensures
        r == clampi(v as int, lo as int, hi as int),
{
    if v < lo {
        lo
    } else if v > hi {
        hi
    } else {
        v
    }
}

fn max0_i32(v: i32) -> (r: i32)
    ensures
        r == max0(v as int),
{
    if v < 0 { 0 } else { v }
}

impl PixelWorld {
    pub fn new(seed: u64, w: i32, h: i32, mats: &Materials) -> (world: PixelWorld)
        requires
            mats.wf(),
            w > 0,
            h > 0,
            w % 128 == 0,
            h % 128 == 0,
            w * h * 4 <= isize::MAX,
            (w / 128) * (h / 128) <= i32::MAX,
        ensures
            world.wf(),
            world.width() == w,
            world.height() == h,
            world.cols() == w / 128,
            world.rows() == h / 128,
            world.sim_ids() == SimIds::of(*mats),
            forall|x: int, y: int| world.in_bounds(x, y) ==> world.pixel(x, y) == empty_px(),
            world.state().asleep == Seq::new(world.n_chunks() as nat, |i: int| true),
            world.state().active == Seq::new(world.n_chunks() as nat, |i: int| 0u32),
            world.state().dirty == Seq::new(world.n_chunks() as nat, |i: int| true),
            world.state().rng == seeded(seed ^ SIM_SEED_SALT),
            world.state().tick == 0,
            world.state().active_pixels == 0,
            world.state().asleep_chunks == 0,
    {
        let cw = w / 128;
        let ch = h / 128;
        proof {
            assert(cw * ch <= w * h) by (nonlinear_arith)
                requires
                    w == cw * 128,
                    h == ch * 128,
                    cw >= 1,
                    ch >= 1,
            ;
            assert(0 <= w * h) by (nonlinear_arith)
                requires
                    w > 0,
                    h > 0,
            ;
        }
        let n = (cw as usize) * (ch as usize);
        let npx = (w as usize) * (h as usize);
        let mut px: Vec<Pixel> = Vec::new();
        let mut i: usize = 0;
        while i < npx
            invariant
                i <= npx,
                px@.len() == i,
                forall|k: int| 0 <= k < i ==> px@[k] == empty_px(),
            decreases npx - i,
        {
            px.push(Pixel { mat: 0, shade: 0, life: 0, aux: 0 });
            i = i + 1;
        }
        let mut asleep: Vec<bool> = Vec::new();
        let mut active: Vec<u32> = Vec::new();
        let mut dirty: Vec<bool> = Vec::new();
        let mut j: usize = 0;
        while j < n
            invariant
                j <= n,
                asleep@.len() == j,
                active@.len() == j,
                dirty@.len() == j,
                forall|k: int| 0 <= k < j ==> asleep@[k] && active@[k] == 0 && !dirty@[k],
            decreases n - j,
        {
            asleep.push(true);
            active.push(0);
            dirty.push(false);
            j = j + 1;
        }
        let mut s = PixelWorld {
            w,
            h,
            cw,
            ch,
            px,
            asleep,
            active,
            dirty_chunks: dirty,
            rng: Rng::new(seed ^ SIM_SEED_SALT),
            tick: 0,
            ids: SimIds::new(mats),
            active_pixels: 0,
            asleep_chunks: 0,
        };
        s.mark_dirty(Rect { x: 0, y: 0, w, h });
        proof {
            assert forall|k: int| 0 <= k < s.n_chunks() implies s.state().dirty[k] by {
                s.lemma_full_span(k);
            }
            assert(s.state().dirty =~= Seq::new(s.n_chunks() as nat, |i: int| true));
            assert(s.state().asleep =~= Seq::new(s.n_chunks() as nat, |i: int| true));
            assert(s.state().active =~= Seq::new(s.n_chunks() as nat, |i: int| 0u32));
            assert forall|x: int, y: int| s.in_bounds(x, y) implies s.pixel(x, y) == empty_px() by {
                lemma_index_in_range(w as int, h as int, x, y);
            }
        }
        s
    }

    /// The simulation's own random stream.
    pub fn rng(&mut self) -> (r: &mut Rng)
        ensures
            (*r)@ == old(self).state().rng,
            final(self).wf() == old(self).wf(),
            final(self).same_frame(old(self)),
            final(self).state() == (SimState { rng: (*final(r))@, ..old(self).state() }),
    {
        &mut self.rng
    }

    /// Width and height are whole numbers of chunks.
    pub proof fn lemma_dims(&self)
        requires
            self.wf(),
        ensures
            self.width() % 128 == 0,
            self.height() % 128 == 0,
            self.width() >= 128,
            self.height() >= 128,
            self.width() <= i32::MAX,
            self.height() <= i32::MAX,
            self.width() % 4 == 0,
            self.height() % 4 == 0,
    {
        self.lemma_wf_facts();
        vstd::arithmetic::div_mod::lemma_mod_multiples_basic(self.cols(), 128);
        vstd::arithmetic::div_mod::lemma_mod_multiples_basic(self.rows(), 128);
    }

    /// An empty pixel lies in the world's columns and not below its bottom row
    /// (above the top is open sky).
    pub proof fn lemma_empty_in_bounds(&self, x: int, y: int)
        requires
            self.wf(),
            self.pixel(x, y).mat == EMPTY,
        ensures
            0 <= x < self.width(),
            y < self.height(),
    {
    }

    /// Width and height in pixels.
    pub fn size(&self) -> (r: (i32, i32))
        requires
            self.wf(),
        ensures
            r.0 == self.width(),
            r.1 == self.height(),
            r.0 >= 128,
            r.1 >= 128,
    {
        proof {
            self.lemma_wf_facts();
        }
        (self.w, self.h)
    }

    pub fn chunk_grid(&self) -> (g: (i32, i32))
        ensures
            g.0 == self.cols(),
            g.1 == self.rows(),
    {
        (self.cw, self.ch)
    }

    /// Whether a chunk sleeps (coordinates are clamped into the grid).
    pub fn chunk_asleep(&self, cx: i32, cy: i32) -> (b: bool)
        requires
            self.wf(),
        ensures
            b == self.state().asleep[clampi(cy as int, 0, self.rows() - 1) * self.cols() + clampi(cx as int, 0, self.cols() - 1)],
    {
        let y = clamp_i32(cy, 0, self.ch - 1);
        let x = clamp_i32(cx, 0, self.cw - 1);
        proof {
            self.lemma_wf_facts();
            self.lemma_chunk_coords(x as int, y as int);
        }
        self.asleep[(y as usize) * (self.cw as usize) + (x as usize)]
    }

    /// The rectangle of chunk `i` in pixels.
    pub open spec fn chunk_rect(&self, i: int) -> Rect {
        self.frame().chunk_rect(i)
    }

    /// The dirty chunks among the first `n`, in index order, with their rectangles.
    pub open spec fn dirty_list(&self, d: Seq<bool>, n: int) -> Seq<(usize, Rect)>
    {
        self.frame().dirty_list(d, n)
    }

    /// Takes the list of dirty chunks (for per-chunk texture upload) and clears every mark.
    pub fn take_dirty_chunks(&mut self) -> (out: Vec<(usize, Rect)>)
        requires
            old(self).wf(),
        ensures
            final(self).wf(),
            final(self).same_frame(old(self)),
            out@ == old(self).dirty_list(old(self).state().dirty, old(self).n_chunks()),
            final(self).state() == (SimState {
                dirty: Seq::new(old(self).n_chunks() as nat, |i: int| false),
                ..old(self).state()
            }),
    {
        proof {
            self.lemma_wf_facts();
        }
        let ghost s0 = self.state();
        let n = self.dirty_chunks.len();
        let mut out: Vec<(usize, Rect)> = Vec::new();
        let mut i: usize = 0;
        while i < n
            invariant
                self.wf(),
                self.same_frame(old(self)),
                n == self.n_chunks(),
                i <= n,
                out@ == old(self).dirty_list(s0.dirty, i as int),
                self.state() == (SimState {
                    dirty: Seq::new(n as nat, |k: int| if k < i { false } else { s0.dirty[k] }),
                    ..s0
                }),
            decreases n - i,
        {
            if self.dirty_chunks[i] {
                self.dirty_chunks.set(i, false);
                proof {
                    self.lemma_chunk_split(i as int);
                    assert((i as int % self.cols()) * 128 < self.w);
                    assert((i as int / self.cols()) * 128 < self.h);
                }
                let cx = (i % (self.cw as usize)) as i32;
                let cy = (i / (self.cw as usize)) as i32;
                out.push((i, Rect { x: cx * 128, y: cy * 128, w: 128, h: 128 }));
            }
            proof {
                assert(self.state().dirty =~= Seq::new(n as nat, |k: int| if k < i + 1 { false } else { s0.dirty[k] }));
            }
            i = i + 1;
        }
        proof {
            assert(self.state().dirty =~= Seq::new(n as nat, |k: int| false));
        }
        out
    }

    /// The bytes of chunk `ci`: (material, shade) pairs in chunk-local row order.
    pub open spec fn chunk_bytes(&self, s: SimState, ci: int) -> Seq<u8> {
        self.frame().chunk_bytes(s, ci)
    }

    /// Writes the material/shade bytes of one chunk into `out` (replacing its contents).
    pub fn export_chunk_data(&self, ci: usize, out: &mut Vec<u8>)
        requires
            self.wf(),
            ci < self.n_chunks(),
        ensures
            final(out)@ == self.chunk_bytes(self.state(), ci as int),
    {
        proof {
            self.lemma_chunk_split(ci as int);
        }
        out.clear();
        let cx = (ci % (self.cw as usize)) as i32;
        let cy = (ci / (self.cw as usize)) as i32;
        let ghost target = self.chunk_bytes(self.state(), ci as int);
        let mut ly: i32 = 0;
        while ly < 128
            invariant
                self.wf(),
                0 <= ly <= 128,
                cx == ci as int % self.cols(),
                cy == ci as int / self.cols(),
                0 <= cx < self.cols(),
                0 <= cy < self.rows(),
                target == self.chunk_bytes(self.state(), ci as int),
                out@.len() == 2 * (128 * ly),
                forall|k: int| 0 <= k < out@.len() ==> out@[k] == target[k],
            decreases 128 - ly,
        {
            let mut lx: i32 = 0;
            while lx < 128
                invariant
                    self.wf(),
                    0 <= ly < 128,
                    0 <= lx <= 128,
                    cx == ci as int % self.cols(),
                    cy == ci as int / self.cols(),
                    0 <= cx < self.cols(),
                    0 <= cy < self.rows(),
                    target == self.chunk_bytes(self.state(), ci as int),
                    out@.len() == 2 * (128 * ly + lx),
                    forall|k: int| 0 <= k < out@.len() ==> out@[k] == target[k],
                decreases 128 - lx,
            {
                let x = cx * 128 + lx;
                let y = cy * 128 + ly;
                let p = self.get(x, y);
                let ghost l = 128 * ly + lx;
                proof {
                    assert((2 * l) / 2 == l);
                    assert((2 * l + 1) / 2 == l);
                    assert(l % 128 == lx && l / 128 == ly) by {
                        vstd::arithmetic::div_mod::lemma_fundamental_div_mod_converse(l, 128, ly as int, lx as int);
                    }
                }
                out.push(p.mat);
                out.push(p.shade);
                proof {
                    assert(out@[2 * l] == target[2 * l]);
                    assert(out@[2 * l + 1] == target[2 * l + 1]);
                }
                lx = lx + 1;
            }
            ly = ly + 1;
        }
        proof {
            assert(out@ =~= target);
        }
    }

    /// The whole world as (material, shade) pairs in row-major order.
    pub open spec fn mat_shade_bytes(&self, s: SimState) -> Seq<u8> {
        self.frame().mat_shade_bytes(s)
    }

    /// Exports every pixel as interleaved material/shade bytes, row by row (for saving).
    pub fn export_mat_shade(&self) -> (out: Vec<u8>)
        requires
            self.wf(),
            self.width() * self.height() * 2 <= i32::MAX,
        ensures
            out@ == self.mat_shade_bytes(self.state()),
    {
        let ghost target = self.mat_shade_bytes(self.state());
        let mut out: Vec<u8> = Vec::with_capacity((self.w * self.h * 2) as usize);
        let mut y: i32 = 0;
        while y < self.h
            invariant
                self.wf(),
                0 <= y <= self.h,
                target == self.mat_shade_bytes(self.state()),
                out@.len() == 2 * (y * self.w),
                forall|k: int| 0 <= k < out@.len() ==> out@[k] == target[k],
            decreases self.h - y,
        {
            let mut x: i32 = 0;
            while x < self.w
                invariant
                    self.wf(),
                    0 <= y < self.h,
                    0 <= x <= self.w,
                    target == self.mat_shade_bytes(self.state()),
                    out@.len() == 2 * (y * self.w + x),
                    forall|k: int| 0 <= k < out@.len() ==> out@[k] == target[k],
                decreases self.w - x,
            {
                let p = self.get(x, y);
                let ghost i = y * self.w + x;
                proof {
                    lemma_index_in_range(self.w as int, self.h as int, x as int, y as int);
                    assert((2 * i) / 2 == i);
                    assert((2 * i + 1) / 2 == i);
                    assert(i % (self.w as int) == x && i / (self.w as int) == y) by {
                        vstd::arithmetic::div_mod::lemma_fundamental_div_mod_converse(i, self.w as int, y as int, x as int);
                    }
                }
                out.push(p.mat);
                out.push(p.shade);
                proof {
                    assert(out@[2 * i] == target[2 * i]);
                    assert(out@[2 * i + 1] == target[2 * i + 1]);
                }
                x = x + 1;
            }
            proof {
                assert((y + 1) * self.w == y * self.w + self.w) by (nonlinear_arith);
            }
            y = y + 1;
        }
        proof {
            assert(self.h * self.w == self.w * self.h) by (nonlinear_arith);
            assert(out@.len() == target.len());
            assert(out@ =~= target);
        }
        out
    }

    /// The pixels `import_mat_shade(data)` writes: material and shade from the stream,
    /// life and aux cleared.
    pub open spec fn imported_px(&self, data: Seq<u8>, x: int, y: int) -> Pixel {
        self.frame().imported_px(data, x, y)
    }

    /// Loads every pixel from an interleaved material/shade stream (for loading a save):
    /// life and aux are cleared, every chunk wakes with a full activity count and turns dirty.
    pub fn import_mat_shade(&mut self, data: &[u8])
        requires
            old(self).wf(),
            old(self).width() * old(self).height() * 2 <= i32::MAX,
            data@.len() == old(self).width() * old(self).height() * 2,
        ensures
            final(self).wf(),
            final(self).same_frame(old(self)),
            forall|x: int, y: int| final(self).in_bounds(x, y) ==> final(self).pixel(x, y) == old(self).imported_px(data@, x, y),
            forall|x: int, y: int| !old(self).in_bounds(x, y) ==> final(self).pixel(x, y) == old(self).pixel(x, y),
            final(self).state().asleep == Seq::new(old(self).n_chunks() as nat, |i: int| false),
            final(self).state().active == Seq::new(old(self).n_chunks() as nat, |i: int| u32::MAX / 2),
            final(self).state().dirty == Seq::new(old(self).n_chunks() as nat, |i: int| true),
            final(self).state().rng == old(self).state().rng,
            final(self).state().tick == old(self).state().tick,
            final(self).state().active_pixels == old(self).state().active_pixels,
            final(self).state().asleep_chunks == old(self).state().asleep_chunks,
    {
        proof {
            self.lemma_wf_facts();
        }
        let n = self.asleep.len();
        let mut c: usize = 0;
        while c < n
            invariant
                self.wf(),
                self.same_frame(old(self)),
                n == self.n_chunks(),
                c <= n,
                self.px@ == old(self).px@,
                self.state().dirty == old(self).state().dirty,
                self.state().rng == old(self).state().rng,
                self.state().tick == old(self).state().tick,
                self.state().active_pixels == old(self).state().active_pixels,
                self.state().asleep_chunks == old(self).state().asleep_chunks,
                forall|k: int| 0 <= k < c ==> !self.asleep@[k] && self.active@[k] == u32::MAX / 2,
            decreases n - c,
        {
            self.asleep.set(c, false);
            self.active.set(c, u32::MAX / 2);
            c = c + 1;
        }
        proof {
            assert(self.state().asleep =~= Seq::new(n as nat, |i: int| false));
            assert(self.state().active =~= Seq::new(n as nat, |i: int| u32::MAX / 2));
        }
        let mut y: i32 = 0;
        while y < self.h
            invariant
                self.wf(),
                self.same_frame(old(self)),
                0 <= y <= self.h,
                data@.len() == self.w * self.h * 2,
                self.state().asleep == Seq::new(n as nat, |i: int| false),
                self.state().active == Seq::new(n as nat, |i: int| u32::MAX / 2),
                n == self.n_chunks(),
                self.state().dirty == old(self).state().dirty,
                self.state().rng == old(self).state().rng,
                self.state().tick == old(self).state().tick,
                self.state().active_pixels == old(self).state().active_pixels,
                self.state().asleep_chunks == old(self).state().asleep_chunks,
                forall|a: int, b: int| 0 <= a < self.w && 0 <= b < y ==> #[trigger] self.pixel(a, b) == old(self).imported_px(data@, a, b),
                forall|a: int, b: int| 0 <= a < self.w && y <= b < self.h ==> #[trigger] self.pixel(a, b) == old(self).pixel(a, b),
            decreases self.h - y,
        {
            let mut x: i32 = 0;
            while x < self.w
                invariant
                    self.wf(),
                    self.same_frame(old(self)),
                    0 <= y < self.h,
                    0 <= x <= self.w,
                    data@.len() == self.w * self.h * 2,
                    self.state().asleep == Seq::new(n as nat, |i: int| false),
                    self.state().active == Seq::new(n as nat, |i: int| u32::MAX / 2),
                    n == self.n_chunks(),
                    self.state().dirty == old(self).state().dirty,
                    self.state().rng == old(self).state().rng,
                    self.state().tick == old(self).state().tick,
                    self.state().active_pixels == old(self).state().active_pixels,
                    self.state().asleep_chunks == old(self).state().asleep_chunks,
                    forall|a: int, b: int| 0 <= a < self.w && 0 <= b < y ==> #[trigger] self.pixel(a, b) == old(self).imported_px(data@, a, b),
                    forall|a: int, b: int| 0 <= a < x && b == y ==> #[trigger] self.pixel(a, b) == old(self).imported_px(data@, a, b),
                    forall|a: int, b: int| 0 <= a < self.w && y < b < self.h ==> #[trigger] self.pixel(a, b) == old(self).pixel(a, b),
                    forall|a: int, b: int| x <= a < self.w && b == y ==> #[trigger] self.pixel(a, b) == old(self).pixel(a, b),
                decreases self.w - x,
            {
                proof {
                    lemma_index_in_range(self.w as int, self.h as int, x as int, y as int);
                }
                let i = ((y as usize) * (self.w as usize) + (x as usize)) * 2;
                let p = Pixel { mat: data[i], shade: data[i + 1], life: 0, aux: 0 };
                assert(p == old(self).imported_px(data@, x as int, y as int));
                let ghost bw = *self;
                self.write_px(x, y, p);
                proof {
                    assert(self.pixel(x as int, y as int) == p);
                    assert forall|a: int, b: int| !(a == x && b == y) implies #[trigger] self.pixel(a, b) == bw.pixel(a, b) by {
                    }
                }
                x = x + 1;
            }
            y = y + 1;
        }
        let ghost bw = *self;
        self.mark_dirty(Rect { x: 0, y: 0, w: self.w, h: self.h });
        proof {
            assert forall|a: int, b: int| true implies #[trigger] self.pixel(a, b) == bw.pixel(a, b) by {
            }
            assert forall|k: int| 0 <= k < self.n_chunks() implies self.state().dirty[k] by {
                self.lemma_full_span(k);
            }
            assert(self.state().dirty =~= Seq::new(n as nat, |i: int| true));
            assert forall|x: int, y: int| !old(self).in_bounds(x, y) implies self.pixel(x, y) == old(self).pixel(x, y) by {
            }
        }
    }

    /// What `spawn(x, y, mat)` does: on an empty cell, draws a shade jitter and writes the
    /// material with its birth lifetime; otherwise nothing.
    pub open spec fn spawn_st(&self, mats: Materials, s: SimState, x: int, y: int, mat: u8) -> SimState {
        self.frame().spawn_st(mats, s, x, y, mat)
    }

    /// Spawns a material pixel with colour jitter (empty cells only).
    pub fn spawn(&mut self, x: i32, y: i32, mat: MaterialId, mats: &Materials)
        requires
            old(self).wf(),
            mats.wf(),
        ensures
            final(self).wf(),
            final(self).same_frame(old(self)),
            final(self).state() == old(self).spawn_st(*mats, old(self).state(), x as int, y as int, mat),
    {
        if mat == EMPTY || mat == OOB || self.get(x, y).mat != EMPTY {
            return;
        }
        let d = mats.def(mat);
        let j = d.jitter as i32;
        let v = self.rng.range_i32(-j, j);
        let shade = clamp_i32(127 + v, 0, 255) as u8;
        self.set(x, y, Pixel { mat, shade, life: d.life, aux: 0 });
    }

    /// What reads outside the grid give: the out-of-world pixel beside or below it,
    /// the empty one above it.
    pub proof fn lemma_read_rule(&self, x: int, y: int)
        requires
            self.wf(),
        ensures
            (x < 0 || x >= self.width() || y >= self.height()) ==> self.pixel(x, y) == oob_px(),
            (0 <= x < self.width() && y < 0) ==> self.pixel(x, y) == empty_px(),
    {
        self.lemma_wf_facts();
    }

    /// Empties a pixel unless it is already empty or out of bounds.
    pub fn clear_px(&mut self, x: i32, y: i32)
        requires
            old(self).wf(),
        ensures
            final(self).pixel(x as int, y as int).mat == 0 || final(self).pixel(x as int, y as int).mat == 255,
            final(self).wf(),
            final(self).same_frame(old(self)),
            final(self).state() == (if old(self).pixel(x as int, y as int).mat != 0 && old(self).pixel(x as int, y as int).mat != 255 {
                old(self).set_st(old(self).state(), x as int, y as int, empty_px())
            } else {
                old(self).state()
            }),
    {
        let m = self.get(x, y).mat;
        if m != EMPTY && m != OOB {
            self.set(x, y, Pixel { mat: 0, shade: 0, life: 0, aux: 0 });
            proof {
                self.lemma_read_rule(x as int, y as int);
            }
        }
    }

    pub open spec fn swap_st(&self, s: SimState, ax: int, ay: int, bx: int, by: int) -> SimState {
        self.frame().swap_st(s, ax, ay, bx, by)
    }

    fn swap(&mut self, ax: i32, ay: i32, bx: i32, by: i32)
        requires
            old(self).wf(),
        ensures
            final(self).wf(),
            final(self).same_frame(old(self)),
            final(self).state() == old(self).swap_st(old(self).state(), ax as int, ay as int, bx as int, by as int),
    {
        let a = self.get(ax, ay);
        let b = self.get(bx, by);
        self.set(ax, ay, b);
        self.set(bx, by, a.unsettle());
    }

    pub open spec fn move_st(&self, s: SimState, fx: int, fy: int, tx: int, ty: int, p: Pixel) -> SimState {
        self.frame().move_st(s, fx, fy, tx, ty, p)
    }

    fn move_to(&mut self, fx: i32, fy: i32, tx: i32, ty: i32, p: Pixel)
        requires
            old(self).wf(),
        ensures
            final(self).wf(),
            final(self).same_frame(old(self)),
            final(self).state() == old(self).move_st(old(self).state(), fx as int, fy as int, tx as int, ty as int, p),
    {
        let t = self.get(tx, ty);
        if t.mat == EMPTY {
            self.set(fx, fy, Pixel { mat: 0, shade: 0, life: 0, aux: 0 });
        } else {
            self.set(fx, fy, t);
        }
        self.set(tx, ty, p.unsettle());
    }

    /// Whether a pixel of the given kind and density may enter (x, y): empty cells always,
    /// out-of-bounds never; otherwise powders sink into lighter liquids, liquids sink into
    /// lighter liquids when not rising, gases rise through liquids, static never moves.
    pub open spec fn can_enter_spec(mats: Materials, s: SimState, x: int, y: int, kind: Kind, density: u16, rising: bool) -> bool {
        let t = (s.px)(x, y);
        if t.mat == 0 {
            true
        } else if t.mat == 255 {
            false
        } else {
            let td = mats.def_spec(t.mat);
            match kind {
                Kind::Powder => td.kind == Kind::Liquid && density > td.density,
                Kind::Liquid => td.kind == Kind::Liquid && density > td.density && !rising,
                Kind::Gas => td.kind == Kind::Liquid && rising,
                Kind::Static => false,
            }
        }
    }

    fn can_enter(&self, mats: &Materials, x: i32, y: i32, kind: Kind, density: u16, rising: bool) -> (b: bool)
        requires
            self.wf(),
            mats.wf(),
        ensures
            b == Self::can_enter_spec(*mats, self.state(), x as int, y as int, kind, density, rising),
    {
        let t = self.get(x, y);
        if t.mat == EMPTY {
            return true;
        }
        if t.mat == OOB {
            return false;
        }
        let td = mats.def(t.mat);
        match kind {
            Kind::Powder => td.kind == Kind::Liquid && density > td.density,
            Kind::Liquid => td.kind == Kind::Liquid && density > td.density && !rising,
            Kind::Gas => td.kind == Kind::Liquid && rising,
            Kind::Static => false,
        }
    }

    /// Edits a pixel in place (ignored out of bounds) and marks its chunk dirty,
    /// without waking chunks or unsettling neighbours.
    fn patch(&mut self, x: i32, y: i32, p: Pixel)
        requires
            old(self).wf(),
        ensures
            final(self).wf(),
            final(self).same_frame(old(self)),
            final(self).state() == old(self).patch_st(old(self).state(), x as int, y as int, p),
    {
        if x < 0 || x >= self.w || y < 0 || y >= self.h {
            return;
        }
        self.write_px(x, y, p);
        self.mark_px(x, y);
    }

    pub open spec fn settle_st(&self, s: SimState, x: int, y: int) -> SimState {
        self.frame().settle_st(s, x, y)
    }

    /// Sets the settled bit of a pixel.
    fn settle(&mut self, x: i32, y: i32)
        requires
            old(self).wf(),
        ensures
            final(self).wf(),
            final(self).same_frame(old(self)),
            final(self).state() == old(self).settle_st(old(self).state(), x as int, y as int),
    {
        let p = self.get(x, y);
        self.patch(x, y, Pixel { mat: p.mat, shade: p.shade, life: p.life, aux: p.aux | 1 });
    }

    /// The in-grid chunk `i` is the chunk of pixel (x, y) or one of its four neighbours.
    pub open spec fn near_chunk(&self, i: int, x: int, y: int) -> bool {
        self.frame().near_chunk(i, x, y)
    }

    proof fn lemma_wake_one(&self, a: Seq<bool>, cx: int, cy: int, i: int)
        requires
            self.wf(),
            a.len() == self.n_chunks(),
            0 <= i < self.n_chunks(),
        ensures
            self.wake_one(a, cx, cy).len() == a.len(),
            self.wake_one(a, cx, cy)[i] == (a[i] && !(i % self.cols() == cx && i / self.cols() == cy)),
    {
        self.lemma_chunk_split(i);
        if 0 <= cx < self.cols() && 0 <= cy < self.rows() {
            self.lemma_chunk_coords(cx, cy);
        }
    }

    /// Waking around a pixel clears exactly the sleep flags of the nearby chunks.
    proof fn lemma_wake_direct(&self, s: SimState, x: int, y: int)
        requires
            self.wf(),
            self.in_bounds(x, y),
            s.asleep.len() == self.n_chunks(),
        ensures
            self.st_wake_around(s, x, y).asleep == Seq::new(self.n_chunks() as nat, |i: int| s.asleep[i] && !self.near_chunk(i, x, y)),
    {
        self.lemma_wf_facts();
        let qx = x / 128;
        let qy = y / 128;
        let a0 = self.wake_one(s.asleep, qx, qy);
        let a1 = self.wake_one(a0, qx - 1, qy);
        let a2 = self.wake_one(a1, qx + 1, qy);
        let a3 = self.wake_one(a2, qx, qy - 1);
        let a4 = self.wake_one(a3, qx, qy + 1);
        assert(a4 == self.st_wake_around(s, x, y).asleep);
        self.lemma_wake_one(s.asleep, qx, qy, 0);
        self.lemma_wake_one(a0, qx - 1, qy, 0);
        self.lemma_wake_one(a1, qx + 1, qy, 0);
        self.lemma_wake_one(a2, qx, qy - 1, 0);
        self.lemma_wake_one(a3, qx, qy + 1, 0);
        let target = Seq::new(self.n_chunks() as nat, |i: int| s.asleep[i] && !self.near_chunk(i, x, y));
        assert forall|i: int| 0 <= i < self.n_chunks() implies a4[i] == target[i] by {
            self.lemma_wake_one(s.asleep, qx, qy, i);
            self.lemma_wake_one(a0, qx - 1, qy, i);
            self.lemma_wake_one(a1, qx + 1, qy, i);
            self.lemma_wake_one(a2, qx, qy - 1, i);
            self.lemma_wake_one(a3, qx, qy + 1, i);
        }
        assert(a4.len() == target.len());
        assert(a4 =~= target);
    }

    /// The pixel a floater cell turns into: its material's debris (keeping the shade and
    /// taking the debris' birth lifetime), or empty when there is none.
    pub open spec fn drop_px(mats: Materials, p: Pixel) -> Pixel {
        match crate::materials::opt_str_view(mats.def_spec(p.mat).drop) {
            Some(name) => match mats.id_spec(name) {
                Some(dm) => Pixel { mat: dm, shade: p.shade, life: mats.def_spec(dm).life, aux: 0 },
                None => empty_px(),
            },
            None => empty_px(),
        }
    }

    /// The state after every cell with `pred` turned into its debris: neighbours of the
    /// cells lose their settled bit, chunks near the cells wake, the cells' chunks turn dirty.
    pub open spec fn apply_region(&self, mats: Materials, s: SimState, pred: spec_fn(int, int) -> bool) -> SimState {
        self.frame().apply_region(mats, s, pred)
    }

    proof fn lemma_drop_bits(mats: Materials, p: Pixel)
        ensures
            unsettled(Self::drop_px(mats, p)) == Self::drop_px(mats, p),
            Self::drop_px(mats, unsettled(p)) == Self::drop_px(mats, p),
            unsettled(unsettled(p)) == unsettled(p),
    {
        assert(0u8 & !1u8 == 0u8) by (bit_vector);
        let a = p.aux;
        assert((a & !1u8) & !1u8 == a & !1u8) by (bit_vector);
    }

    /// Turning one more cell into debris, on top of a set of cells, is one `set`.
    proof fn lemma_apply_step(&self, mats: Materials, s0: SimState, pred: spec_fn(int, int) -> bool, qx: int, qy: int)
        requires
            self.wf(),
            s0.asleep.len() == self.n_chunks(),
            s0.dirty.len() == self.n_chunks(),
            forall|x: int, y: int| #[trigger] pred(x, y) ==> self.in_bounds(x, y),
            self.in_bounds(qx, qy),
            !pred(qx, qy),
        ensures
            self.set_st(self.apply_region(mats, s0, pred), qx, qy,
                Self::drop_px(mats, (self.apply_region(mats, s0, pred).px)(qx, qy)))
            == self.apply_region(mats, s0, |x: int, y: int| pred(x, y) || (x == qx && y == qy)),
    {
        self.lemma_wf_facts();
        self.lemma_chunk_in_range(qx, qy);
        let s1 = self.apply_region(mats, s0, pred);
        let pred2 = |x: int, y: int| pred(x, y) || (x == qx && y == qy);
        let d = Self::drop_px(mats, (s1.px)(qx, qy));
        let lhs = self.set_st(s1, qx, qy, d);
        let rhs = self.apply_region(mats, s0, pred2);
        Self::lemma_drop_bits(mats, (s0.px)(qx, qy));
        assert(d == Self::drop_px(mats, (s0.px)(qx, qy)));
        assert forall|a: int, b: int| #[trigger] (lhs.px)(a, b) == (rhs.px)(a, b) by {
            Self::lemma_drop_bits(mats, (s0.px)(a, b));
        }
        assert(lhs.px =~= rhs.px);
        let w1 = Self::st_write(s1, qx, qy, d);
        let u1 = self.st_unsettle_around(w1, qx, qy);
        self.lemma_wake_direct(u1, qx, qy);
        assert forall|i: int| 0 <= i < self.n_chunks() implies lhs.asleep[i] == rhs.asleep[i] by {
            if self.near_chunk(i, qx, qy) {
                assert(pred2(qx, qy));
            }
            if exists|a: int, b: int| #[trigger] pred2(a, b) && self.near_chunk(i, a, b) {
                let (a, b) = choose|a: int, b: int| #[trigger] pred2(a, b) && self.near_chunk(i, a, b);
                if !(a == qx && b == qy) {
                    assert(pred(a, b));
                }
            }
            if exists|a: int, b: int| #[trigger] pred(a, b) && self.near_chunk(i, a, b) {
                let (a, b) = choose|a: int, b: int| #[trigger] pred(a, b) && self.near_chunk(i, a, b);
                assert(pred2(a, b));
            }
        }
        assert(lhs.asleep =~= rhs.asleep);
        assert forall|i: int| 0 <= i < self.n_chunks() implies lhs.dirty[i] == rhs.dirty[i] by {
            if i == self.chunk_of(qx, qy) {
                assert(pred2(qx, qy));
            }
            if exists|a: int, b: int| #[trigger] pred2(a, b) && self.chunk_of(a, b) == i {
                let (a, b) = choose|a: int, b: int| #[trigger] pred2(a, b) && self.chunk_of(a, b) == i;
                if !(a == qx && b == qy) {
                    assert(pred(a, b));
                }
            }
            if exists|a: int, b: int| #[trigger] pred(a, b) && self.chunk_of(a, b) == i {
                let (a, b) = choose|a: int, b: int| #[trigger] pred(a, b) && self.chunk_of(a, b) == i;
                assert(pred2(a, b));
            }
        }
        assert(lhs.dirty =~= rhs.dirty);
        assert(lhs =~= rhs);
    }

    /// Nothing turned: the state is unchanged.
    proof fn lemma_apply_none(&self, mats: Materials, s0: SimState)
        requires
            self.wf(),
            s0.asleep.len() == self.n_chunks(),
            s0.dirty.len() == self.n_chunks(),
        ensures
            self.apply_region(mats, s0, |x: int, y: int| false) == s0,
    {
        let r = self.apply_region(mats, s0, |x: int, y: int| false);
        assert(r.px =~= s0.px);
        assert(r.asleep =~= s0.asleep);
        assert(r.dirty =~= s0.dirty);
        assert(r =~= s0);
    }
}

/// Solid static terrain at (x, y).
pub open spec fn solid_static(mats: Materials, s: SimState, x: int, y: int) -> bool {
    let p = (s.px)(x, y);
    p.mat != 0 && p.mat != 255 && mats.def_spec(p.mat).kind == Kind::Static && mats.def_spec(p.mat).solid
}

/// (x, y) is joined to (sx, sy) through at most `n` steps between 4-adjacent solid static cells.
pub open spec fn reach_n(mats: Materials, s: SimState, sx: int, sy: int, x: int, y: int, n: nat) -> bool
    decreases n,
{
    if x == sx && y == sy {
        true
    } else if n == 0 {
        false
    } else {
        solid_static(mats, s, x, y) && (reach_n(mats, s, sx, sy, x - 1, y, (n - 1) as nat) || reach_n(
            mats,
            s,
            sx,
            sy,
            x + 1,
            y,
            (n - 1) as nat,
        ) || reach_n(mats, s, sx, sy, x, y - 1, (n - 1) as nat) || reach_n(mats, s, sx, sy, x, y + 1, (n - 1) as nat))
    }
}

/// (x, y) belongs to the connected solid static region of (sx, sy).
pub open spec fn in_region(mats: Materials, s: SimState, sx: int, sy: int, x: int, y: int) -> bool {
    exists|n: nat| reach_n(mats, s, sx, sy, x, y, n)
}

/// The region of (sx, sy) has more cells than a floater may have.
pub open spec fn region_exceeds(mats: Materials, s: SimState, sx: int, sy: int) -> bool {
    exists|l: Seq<(int, int)>|
        #![trigger l.no_duplicates()]
        l.len() == MAX_FLOATER_PX + 1 && l.no_duplicates() && (forall|k: int| 0 <= k < l.len() ==> in_region(mats, s, sx, sy, l[k].0, l[k].1))
}

pub open spec fn cell_in(l: Seq<(i32, i32)>, x: int, y: int) -> bool {
    exists|k: int| 0 <= k < l.len() && l[k].0 == x && l[k].1 == y
}

pub open spec fn as_int_cells(l: Seq<(i32, i32)>) -> Seq<(int, int)> {
    l.map_values(|c: (i32, i32)| (c.0 as int, c.1 as int))
}

pub open spec fn nb_dx(d: int) -> int {
    if d == 2 { -1 } else if d == 3 { 1 } else { 0 }
}

pub open spec fn nb_dy(d: int) -> int {
    if d == 0 { -1 } else if d == 1 { 1 } else { 0 }
}

proof fn lemma_reach_closed(mats: Materials, s: SimState, sx: int, sy: int, region: Seq<(i32, i32)>, x: int, y: int, n: nat)
    requires
        cell_in(region, sx, sy),
        forall|k: int, d: int|
            0 <= k < region.len() && 0 <= d < 4 && solid_static(mats, s, region[k].0 + nb_dx(d), region[k].1 + nb_dy(d))
                ==> cell_in(region, region[k].0 + nb_dx(d), region[k].1 + nb_dy(d)),
        reach_n(mats, s, sx, sy, x, y, n),
    ensures
        cell_in(region, x, y),
    decreases n,
{
    if x == sx && y == sy {
    } else {
        let m = (n - 1) as nat;
        if reach_n(mats, s, sx, sy, x - 1, y, m) {
            lemma_reach_closed(mats, s, sx, sy, region, x - 1, y, m);
            let k = choose|k: int| 0 <= k < region.len() && region[k].0 == x - 1 && region[k].1 == y;
            assert(solid_static(mats, s, region[k].0 + nb_dx(3), region[k].1 + nb_dy(3)));
        } else if reach_n(mats, s, sx, sy, x + 1, y, m) {
            lemma_reach_closed(mats, s, sx, sy, region, x + 1, y, m);
            let k = choose|k: int| 0 <= k < region.len() && region[k].0 == x + 1 && region[k].1 == y;
            assert(solid_static(mats, s, region[k].0 + nb_dx(2), region[k].1 + nb_dy(2)));
        } else if reach_n(mats, s, sx, sy, x, y - 1, m) {
            lemma_reach_closed(mats, s, sx, sy, region, x, y - 1, m);
            let k = choose|k: int| 0 <= k < region.len() && region[k].0 == x && region[k].1 == y - 1;
            assert(solid_static(mats, s, region[k].0 + nb_dx(1), region[k].1 + nb_dy(1)));
        } else {
            lemma_reach_closed(mats, s, sx, sy, region, x, y + 1, m);
            let k = choose|k: int| 0 <= k < region.len() && region[k].0 == x && region[k].1 == y + 1;
            assert(solid_static(mats, s, region[k].0 + nb_dx(0), region[k].1 + nb_dy(0)));
        }
    }
}

/// A neighbour of a reachable cell that is solid static is reachable too.
proof fn lemma_reach_step(mats: Materials, s: SimState, sx: int, sy: int, x: int, y: int, d: int)
    requires
        in_region(mats, s, sx, sy, x, y),
        0 <= d < 4,
        solid_static(mats, s, x + nb_dx(d), y + nb_dy(d)),
    ensures
        in_region(mats, s, sx, sy, x + nb_dx(d), y + nb_dy(d)),
{
    let n = choose|n: nat| reach_n(mats, s, sx, sy, x, y, n);
    let nx = x + nb_dx(d);
    let ny = y + nb_dy(d);
    assert(reach_n(mats, s, sx, sy, nx, ny, n + 1));
}

proof fn lemma_int_cells(l: Seq<(i32, i32)>)
    requires
        l.no_duplicates(),
    ensures
        as_int_cells(l).len() == l.len(),
        as_int_cells(l).no_duplicates(),
        forall|k: int| 0 <= k < l.len() ==> #[trigger] as_int_cells(l)[k] == (l[k].0 as int, l[k].1 as int),
{
    let m = as_int_cells(l);
    assert forall|i: int, j: int| 0 <= i < m.len() && 0 <= j < m.len() && i != j implies m[i] != m[j] by {
        assert(l[i] != l[j]);
    }
}

/// A list of distinct cells, all of them in another list, is no longer than that list.
proof fn lemma_distinct_within(l: Seq<(int, int)>, r: Seq<(int, int)>)
    requires
        l.no_duplicates(),
        forall|k: int| 0 <= k < l.len() ==> r.contains(#[trigger] l[k]),
    ensures
        l.len() <= r.len(),
{
    l.unique_seq_to_set();
    r.lemma_cardinality_of_set();
    assert forall|c: (int, int)| l.to_set().contains(c) implies r.to_set().contains(c) by {
    }
    vstd::set_lib::lemma_len_subset(l.to_set(), r.to_set());
}

fn nb_delta(d: usize) -> (r: (i32, i32))
    requires
        d < 4,
    ensures
        r.0 == nb_dx(d as int),
        r.1 == nb_dy(d as int),
{
    if d == 0 {
        (0, -1)
    } else if d == 1 {
        (0, 1)
    } else if d == 2 {
        (-1, 0)
    } else {
        (1, 0)
    }
}

impl PixelWorld {
    pub fn is_solid_static(&self, mats: &Materials, x: i32, y: i32) -> (b: bool)
        requires
            self.wf(),
            mats.wf(),
        ensures
            b == solid_static(*mats, self.state(), x as int, y as int),
            b ==> self.in_bounds(x as int, y as int),
    {
        let p = self.get(x, y);
        if p.mat == EMPTY || p.mat == OOB {
            return false;
        }
        let d = mats.def(p.mat);
        d.kind == Kind::Static && d.solid
    }

    fn cell_key(&self, x: i32, y: i32) -> (k: u64)
        requires
            self.wf(),
            self.in_bounds(x as int, y as int),
        ensures
            k == y * self.width() + x,
    {
        proof {
            lemma_index_in_range(self.w as int, self.h as int, x as int, y as int);
        }
        (y as u64) * (self.w as u64) + (x as u64)
    }

    /// Bounded flood fill of the solid static region of (sx, sy): `None` when it holds
    /// more cells than a floater may, otherwise its cells (each once).
    fn floater_region(&self, mats: &Materials, sx: i32, sy: i32) -> (r: Option<Vec<(i32, i32)>>)
        requires
            self.wf(),
            mats.wf(),
            solid_static(*mats, self.state(), sx as int, sy as int),
        ensures
            r is None ==> region_exceeds(*mats, self.state(), sx as int, sy as int),
            r matches Some(v) ==> {
                &&& !region_exceeds(*mats, self.state(), sx as int, sy as int)
                &&& v@.no_duplicates()
                &&& v@.len() <= MAX_FLOATER_PX
                &&& forall|x: int, y: int| cell_in(v@, x, y) <==> in_region(*mats, self.state(), sx as int, sy as int, x, y)
                &&& forall|k: int| 0 <= k < v@.len() ==> self.in_bounds(#[trigger] v@[k].0 as int, v@[k].1 as int)
            },
    {
        broadcast use vstd::std_specs::hash::group_hash_axioms;
        let ghost s = self.state();
        let ghost m = *mats;
        let ghost sxi = sx as int;
        let ghost syi = sy as int;
        let mut region: Vec<(i32, i32)> = Vec::new();
        let mut seen: std::collections::HashSet<u64> = std::collections::HashSet::new();
        let mut stack: Vec<(i32, i32)> = Vec::new();
        stack.push((sx, sy));
        let k0 = self.cell_key(sx, sy);
        seen.insert(k0);
        assert(reach_n(m, s, sxi, syi, sxi, syi, 0));
        proof {
            assert(stack@[0] == (sx, sy));
            assert(cell_in(stack@, sxi, syi));
            assert forall|x: int, y: int| self.in_bounds(x, y) implies (seen@.contains((y * self.width() + x) as u64) <==> cell_in(region@, x, y) || cell_in(stack@, x, y)) by {
                if seen@.contains((y * self.width() + x) as u64) {
                    lemma_index_in_range(self.w as int, self.h as int, x, y);
                    lemma_index_inj(self.w as int, x, y, sxi, syi);
                    assert(stack@[0].0 == x && stack@[0].1 == y);
                }
            }
            assert((region@ + stack@) =~= stack@);
        }
        while stack.len() > 0
            invariant
                self.wf(),
                mats.wf(),
                s == self.state(),
                m == *mats,
                sxi == sx as int,
                syi == sy as int,
                forall|k: int| 0 <= k < region@.len() ==> in_region(m, s, sxi, syi, #[trigger] region@[k].0 as int, region@[k].1 as int)
                    && solid_static(m, s, region@[k].0 as int, region@[k].1 as int),
                forall|k: int| 0 <= k < stack@.len() ==> in_region(m, s, sxi, syi, #[trigger] stack@[k].0 as int, stack@[k].1 as int)
                    && solid_static(m, s, stack@[k].0 as int, stack@[k].1 as int),
                forall|x: int, y: int| self.in_bounds(x, y) ==> (seen@.contains((y * self.width() + x) as u64) <==> cell_in(region@, x, y) || cell_in(stack@, x, y)),
                region@.no_duplicates(),
                stack@.no_duplicates(),
                forall|i: int, j: int| 0 <= i < region@.len() && 0 <= j < stack@.len() ==> region@[i] != stack@[j],
                forall|k: int, d: int|
                    0 <= k < region@.len() && 0 <= d < 4 && solid_static(m, s, region@[k].0 + nb_dx(d), region@[k].1 + nb_dy(d))
                        ==> seen@.contains(((region@[k].1 + nb_dy(d)) * self.width() + (region@[k].0 + nb_dx(d))) as u64),
                region@.len() <= MAX_FLOATER_PX,
                cell_in(region@, sxi, syi) || cell_in(stack@, sxi, syi),
            decreases MAX_FLOATER_PX + 1 - region@.len(),
        {
            let ghost prev_region = region@;
            let ghost prev_stack = stack@;
            let c = stack.pop();
            let (x, y) = match c {
                Some(c) => c,
                None => {
                    return None;
                },
            };
            region.push((x, y));
            proof {
                let last = region@.len() - 1;
                assert(region@[last] == (x, y));
                assert(prev_stack[prev_stack.len() - 1] == (x, y));
                assert(stack@ =~= prev_stack.drop_last());
                assert forall|i: int, j: int| 0 <= i < region@.len() && 0 <= j < region@.len() && i != j implies region@[i] != region@[j] by {
                    if i == last {
                        assert(prev_stack[prev_stack.len() - 1] != prev_region[j]);
                    } else if j == last {
                        assert(prev_stack[prev_stack.len() - 1] != prev_region[i]);
                    }
                }
                assert forall|i: int, j: int| 0 <= i < region@.len() && 0 <= j < stack@.len() implies region@[i] != stack@[j] by {
                    if i == last {
                        assert(prev_stack[prev_stack.len() - 1] != prev_stack[j]);
                    } else {
                        assert(prev_region[i] != prev_stack[j]);
                    }
                }
                assert forall|xx: int, yy: int| self.in_bounds(xx, yy) implies (seen@.contains((yy * self.width() + xx) as u64) <==> cell_in(region@, xx, yy) || cell_in(stack@, xx, yy)) by {
                    if cell_in(prev_region, xx, yy) {
                        let k = choose|k: int| 0 <= k < prev_region.len() && prev_region[k].0 == xx && prev_region[k].1 == yy;
                        assert(region@[k] == prev_region[k]);
                    }
                    if cell_in(prev_stack, xx, yy) {
                        let k = choose|k: int| 0 <= k < prev_stack.len() && prev_stack[k].0 == xx && prev_stack[k].1 == yy;
                        if k == prev_stack.len() - 1 {
                            assert(region@[last].0 == xx && region@[last].1 == yy);
                        } else {
                            assert(stack@[k] == prev_stack[k]);
                        }
                    }
                    if cell_in(region@, xx, yy) {
                        let k = choose|k: int| 0 <= k < region@.len() && region@[k].0 == xx && region@[k].1 == yy;
                        if k < last {
                            assert(prev_region[k] == region@[k]);
                        } else {
                            assert(prev_stack[prev_stack.len() - 1] == region@[k]);
                        }
                    }
                    if cell_in(stack@, xx, yy) {
                        let k = choose|k: int| 0 <= k < stack@.len() && stack@[k].0 == xx && stack@[k].1 == yy;
                        assert(prev_stack[k] == stack@[k]);
                    }
                }
                if cell_in(prev_stack, sxi, syi) {
                    let k = choose|k: int| 0 <= k < prev_stack.len() && prev_stack[k].0 == sxi && prev_stack[k].1 == syi;
                    if k == prev_stack.len() - 1 {
                        assert(region@[last].0 == sxi && region@[last].1 == syi);
                    } else {
                        assert(stack@[k] == prev_stack[k]);
                    }
                }
                if cell_in(prev_region, sxi, syi) {
                    let k = choose|k: int| 0 <= k < prev_region.len() && prev_region[k].0 == sxi && prev_region[k].1 == syi;
                    assert(region@[k] == prev_region[k]);
                }
            }
            if region.len() > MAX_FLOATER_PX {
                proof {
                    lemma_int_cells(region@);
                    let l = as_int_cells(region@);
                    assert(l.no_duplicates());
                    assert forall|k: int| 0 <= k < l.len() implies in_region(m, s, sxi, syi, l[k].0, l[k].1) by {
                        assert(l[k] == (region@[k].0 as int, region@[k].1 as int));
                    }
                    assert(l.len() == MAX_FLOATER_PX + 1);
                    assert(region_exceeds(m, s, sxi, syi));
                }
                return None;
            }
            proof {
                lemma_index_in_range(self.w as int, self.h as int, x as int, y as int);
            }
            let mut d: usize = 0;
            while d < 4
                invariant
                    self.wf(),
                    mats.wf(),
                    s == self.state(),
                    m == *mats,
                    sxi == sx as int,
                    syi == sy as int,
                    0 <= d <= 4,
                    region@.len() >= 1,
                    region@[region@.len() - 1] == (x, y),
                    self.in_bounds(x as int, y as int),
                    forall|k: int| 0 <= k < region@.len() ==> in_region(m, s, sxi, syi, #[trigger] region@[k].0 as int, region@[k].1 as int)
                        && solid_static(m, s, region@[k].0 as int, region@[k].1 as int),
                    forall|k: int| 0 <= k < stack@.len() ==> in_region(m, s, sxi, syi, #[trigger] stack@[k].0 as int, stack@[k].1 as int)
                        && solid_static(m, s, stack@[k].0 as int, stack@[k].1 as int),
                    forall|xx: int, yy: int| self.in_bounds(xx, yy) ==> (seen@.contains((yy * self.width() + xx) as u64) <==> cell_in(region@, xx, yy) || cell_in(stack@, xx, yy)),
                    region@.no_duplicates(),
                    stack@.no_duplicates(),
                    forall|i: int, j: int| 0 <= i < region@.len() && 0 <= j < stack@.len() ==> region@[i] != stack@[j],
                    forall|k: int, dd: int|
                        0 <= k < region@.len() && 0 <= dd < 4 && (k < region@.len() - 1 || dd < d) && solid_static(m, s, region@[k].0 + nb_dx(dd), region@[k].1 + nb_dy(dd))
                            ==> seen@.contains(((region@[k].1 + nb_dy(dd)) * self.width() + (region@[k].0 + nb_dx(dd))) as u64),
                    region@.len() <= MAX_FLOATER_PX,
                    cell_in(region@, sxi, syi) || cell_in(stack@, sxi, syi),
                decreases 4 - d,
            {
                let (dx, dy) = nb_delta(d);
                let nx = x + dx;
                let ny = y + dy;
                if self.is_solid_static(mats, nx, ny) {
                    let key = self.cell_key(nx, ny);
                    if !seen.contains(&key) {
                        let ghost prev_seen = seen@;
                        let ghost pst = stack@;
                        seen.insert(key);
                        stack.push((nx, ny));
                        proof {
                            lemma_reach_step(m, s, sxi, syi, x as int, y as int, d as int);
                            assert(!cell_in(region@, nx as int, ny as int) && !cell_in(pst, nx as int, ny as int));
                            assert forall|i: int, j: int| 0 <= i < stack@.len() && 0 <= j < stack@.len() && i != j implies stack@[i] != stack@[j] by {
                                if i == pst.len() {
                                    assert(!cell_in(pst, nx as int, ny as int));
                                    assert(stack@[j] == pst[j]);
                                } else if j == pst.len() {
                                    assert(stack@[i] == pst[i]);
                                } else {
                                    assert(stack@[i] == pst[i] && stack@[j] == pst[j]);
                                }
                            }
                            assert forall|i: int, j: int| 0 <= i < region@.len() && 0 <= j < stack@.len() implies region@[i] != stack@[j] by {
                                if j == pst.len() {
                                    assert(!cell_in(region@, nx as int, ny as int));
                                } else {
                                    assert(stack@[j] == pst[j]);
                                }
                            }
                            assert forall|xx: int, yy: int| self.in_bounds(xx, yy) implies (seen@.contains((yy * self.width() + xx) as u64) <==> cell_in(region@, xx, yy) || cell_in(stack@, xx, yy)) by {
                                lemma_index_in_range(self.w as int, self.h as int, xx, yy);
                                if (yy * self.width() + xx) as u64 == key {
                                    lemma_index_inj(self.w as int, xx, yy, nx as int, ny as int);
                                    assert(stack@[pst.len() as int] == (nx, ny));
                                } else {
                                    if cell_in(stack@, xx, yy) {
                                        let k = choose|k: int| 0 <= k < stack@.len() && stack@[k].0 == xx && stack@[k].1 == yy;
                                        if k < pst.len() {
                                            assert(pst[k] == stack@[k]);
                                        }
                                    }
                                    if cell_in(pst, xx, yy) {
                                        let k = choose|k: int| 0 <= k < pst.len() && pst[k].0 == xx && pst[k].1 == yy;
                                        assert(stack@[k] == pst[k]);
                                    }
                                }
                            }
                            if cell_in(pst, sxi, syi) {
                                let k = choose|k: int| 0 <= k < pst.len() && pst[k].0 == sxi && pst[k].1 == syi;
                                assert(stack@[k] == pst[k]);
                            }
                        }
                    }
                }
                d = d + 1;
            }
        }
        proof {
            assert forall|k: int, dd: int|
                0 <= k < region@.len() && 0 <= dd < 4 && solid_static(m, s, region@[k].0 + nb_dx(dd), region@[k].1 + nb_dy(dd))
                    implies cell_in(region@, region@[k].0 + nb_dx(dd), region@[k].1 + nb_dy(dd)) by {
                let nx = region@[k].0 + nb_dx(dd);
                let ny = region@[k].1 + nb_dy(dd);
                assert(self.in_bounds(nx, ny));
            }
            assert forall|x: int, y: int| cell_in(region@, x, y) <==> in_region(m, s, sxi, syi, x, y) by {
                if in_region(m, s, sxi, syi, x, y) {
                    let n = choose|n: nat| reach_n(m, s, sxi, syi, x, y, n);
                    lemma_reach_closed(m, s, sxi, syi, region@, x, y, n);
                }
                if cell_in(region@, x, y) {
                    let k = choose|k: int| 0 <= k < region@.len() && region@[k].0 == x && region@[k].1 == y;
                    assert(in_region(m, s, sxi, syi, region@[k].0 as int, region@[k].1 as int));
                }
            }
            if region_exceeds(m, s, sxi, syi) {
                let l = choose|l: Seq<(int, int)>|
                    #![trigger l.no_duplicates()]
                    l.len() == MAX_FLOATER_PX + 1 && l.no_duplicates() && (forall|k: int| 0 <= k < l.len() ==> in_region(m, s, sxi, syi, l[k].0, l[k].1));
                lemma_int_cells(region@);
                let r = as_int_cells(region@);
                assert forall|k: int| 0 <= k < l.len() implies r.contains(#[trigger] l[k]) by {
                    assert(in_region(m, s, sxi, syi, l[k].0, l[k].1));
                    assert(cell_in(region@, l[k].0, l[k].1));
                    let j = choose|j: int| 0 <= j < region@.len() && region@[j].0 == l[k].0 && region@[j].1 == l[k].1;
                    assert(r[j] == l[k]);
                }
                lemma_distinct_within(l, r);
            }
            assert forall|k: int| 0 <= k < region@.len() implies self.in_bounds(#[trigger] region@[k].0 as int, region@[k].1 as int) by {
                assert(solid_static(m, s, region@[k].0 as int, region@[k].1 as int));
            }
        }
        Some(region)
    }

    /// What collapsing the region of (sx, sy) does: nothing when the region is larger than a
    /// floater may be, otherwise every cell of it turns into its debris.
    pub open spec fn collapse_st(&self, mats: Materials, s: SimState, sx: int, sy: int) -> SimState {
        self.frame().collapse_st(mats, s, sx, sy)
    }

    /// Turns the unsupported region of solid static cells at (sx, sy) into falling debris,
    /// unless it is larger than a floater may be (then it counts as anchored terrain).
    fn collapse_floater_region(&mut self, sx: i32, sy: i32, mats: &Materials)
        requires
            old(self).wf(),
            mats.wf(),
            solid_static(*mats, old(self).state(), sx as int, sy as int),
        ensures
            final(self).wf(),
            final(self).same_frame(old(self)),
            final(self).state() == old(self).collapse_st(*mats, old(self).state(), sx as int, sy as int),
    {
        let r = self.floater_region(mats, sx, sy);
        let region = match r {
            None => {
                proof {
                    reveal(Frame::collapse_st);
                }
                return;
            },
            Some(v) => v,
        };
        let ghost s0 = self.state();
        let ghost m = *mats;
        proof {
            self.lemma_wf_facts();
            self.lemma_apply_none(m, s0);
            assert((|x: int, y: int| cell_in(region@.take(0), x, y)) =~= (|x: int, y: int| false));
        }
        let n = region.len();
        let mut k: usize = 0;
        while k < n
            invariant
                self.wf(),
                self.same_frame(old(self)),
                old(self).wf(),
                mats.wf(),
                m == *mats,
                s0 == old(self).state(),
                n == region@.len(),
                k <= n,
                region@.no_duplicates(),
                forall|j: int| 0 <= j < region@.len() ==> old(self).in_bounds(#[trigger] region@[j].0 as int, region@[j].1 as int),
                self.state() == old(self).apply_region(m, s0, |x: int, y: int| cell_in(region@.take(k as int), x, y)),
            decreases n - k,
        {
            let (x, y) = region[k];
            let ghost pred = |a: int, b: int| cell_in(region@.take(k as int), a, b);
            let p = self.get(x, y);
            let drop = match &mats.def(p.mat).drop {
                Some(d) => mats.id(d.as_str()),
                None => None,
            };
            let q = match drop {
                Some(dm) => Pixel { mat: dm, shade: p.shade, life: mats.def(dm).life, aux: 0 },
                None => Pixel { mat: 0, shade: 0, life: 0, aux: 0 },
            };
            proof {
                assert(q == PixelWorld::drop_px(m, p));
                let tk = region@.take(k as int);
                assert forall|a: int, b: int| #[trigger] pred(a, b) implies old(self).in_bounds(a, b) by {
                    let j = choose|j: int| 0 <= j < tk.len() && tk[j].0 == a && tk[j].1 == b;
                    assert(region@[j] == tk[j]);
                }
                assert(!pred(x as int, y as int)) by {
                    if pred(x as int, y as int) {
                        let j = choose|j: int| 0 <= j < tk.len() && tk[j].0 == x && tk[j].1 == y;
                        assert(region@[j] == tk[j]);
                        assert(region@[j] == region@[k as int]);
                    }
                }
                old(self).lemma_wf_facts();
                old(self).lemma_apply_step(m, s0, pred, x as int, y as int);
                let pred2 = |a: int, b: int| pred(a, b) || (a == x && b == y);
                let t0 = region@.take(k as int);
                let t1 = region@.take(k + 1);
                assert forall|a: int, b: int| #[trigger] pred2(a, b) == cell_in(t1, a, b) by {
                    if cell_in(t1, a, b) {
                        let j = choose|j: int| 0 <= j < t1.len() && t1[j].0 == a && t1[j].1 == b;
                        if j < k {
                            assert(t0[j] == t1[j]);
                        }
                    }
                    if pred(a, b) {
                        let j = choose|j: int| 0 <= j < t0.len() && t0[j].0 == a && t0[j].1 == b;
                        assert(t0[j] == t1[j]);
                    }
                    if a == x && b == y {
                        assert(t1[k as int] == region@[k as int]);
                    }
                }
                assert(pred2 =~= (|a: int, b: int| cell_in(region@.take(k + 1), a, b)));
            }
            self.set(x, y, q);
            k = k + 1;
        }
        proof {
            reveal(Frame::collapse_st);
            assert(region@.take(n as int) =~= region@);
            assert((|x: int, y: int| cell_in(region@.take(n as int), x, y)) =~= (|x: int, y: int| in_region(m, s0, sx as int, sy as int, x, y)));
        }
    }

    /// What examining one neighbour of a cleared cell does: a solid static cell with no solid
    /// static cell right below it has its region collapsed.
    pub open spec fn resolve_one(&self, mats: Materials, s: SimState, x: int, y: int) -> SimState {
        self.frame().resolve_one(mats, s, x, y)
    }

    /// Examines the four neighbours of a seed, in the order up, down, left, right.
    pub open spec fn resolve_seed(&self, mats: Materials, s: SimState, sx: int, sy: int) -> SimState {
        self.frame().resolve_seed(mats, s, sx, sy)
    }

    /// Examines the first `k` seeds in order.
    pub open spec fn resolve_seeds(&self, mats: Materials, s: SimState, seeds: Seq<(i32, i32)>, k: int) -> SimState
    {
        self.frame().resolve_seeds(mats, s, seeds, k)
    }

    /// What `resolve_floaters(seeds)` does: at most the first seeds are examined.
    pub open spec fn resolve_st(&self, mats: Materials, s: SimState, seeds: Seq<(i32, i32)>) -> SimState {
        self.frame().resolve_st(mats, s, seeds)
    }

    fn resolve_at(&mut self, mats: &Materials, x: i32, y: i32)
        requires
            old(self).wf(),
            mats.wf(),
        ensures
            final(self).wf(),
            final(self).same_frame(old(self)),
            final(self).state() == old(self).resolve_one(*mats, old(self).state(), x as int, y as int),
    {
        if !self.is_solid_static(mats, x, y) {
            return;
        }
        let below = self.get(x, y + 1);
        if below.mat != EMPTY && below.mat != OOB && mats.def(below.mat).kind == Kind::Static && mats.def(below.mat).solid {
            return;
        }
        self.collapse_floater_region(x, y, mats);
    }

    /// Floater check around cleared cells: any solid static cell next to a seed that has
    /// no solid static cell right below it has its connected region examined; regions up
    /// to the floater size crumble into their debris (cells without debris vanish), larger
    /// ones count as anchored. Non-solid static cells (platforms, ropes, torches, trees,
    /// background walls) never take part.
    pub fn resolve_floaters(&mut self, mats: &Materials, seeds: &[(i32, i32)])
        requires
            old(self).wf(),
            mats.wf(),
            forall|k: int| 0 <= k < seeds@.len() ==> i32::MIN < #[trigger] seeds@[k].0 < i32::MAX && i32::MIN < seeds@[k].1 < i32::MAX,
        ensures
            final(self).wf(),
            final(self).same_frame(old(self)),
            final(self).state() == old(self).resolve_st(*mats, old(self).state(), seeds@),
    {
        let n = if seeds.len() < MAX_FLOATER_SEEDS { seeds.len() } else { MAX_FLOATER_SEEDS };
        let mut k: usize = 0;
        while k < n
            invariant
                self.wf(),
                self.same_frame(old(self)),
                mats.wf(),
                k <= n,
                n <= seeds@.len(),
                n == (if seeds@.len() < MAX_FLOATER_SEEDS { seeds@.len() as int } else { MAX_FLOATER_SEEDS as int }),
                forall|j: int| 0 <= j < seeds@.len() ==> i32::MIN < #[trigger] seeds@[j].0 < i32::MAX && i32::MIN < seeds@[j].1 < i32::MAX,
                self.state() == old(self).resolve_seeds(*mats, old(self).state(), seeds@, k as int),
            decreases n - k,
        {
            let (sx, sy) = seeds[k];
            self.resolve_at(mats, sx, sy - 1);
            self.resolve_at(mats, sx, sy + 1);
            self.resolve_at(mats, sx - 1, sy);
            self.resolve_at(mats, sx + 1, sy);
            k = k + 1;
        }
    }

    /// Mining targets a static material that can be mined.
    pub open spec fn mine_target(mats: Materials, p: Pixel) -> bool {
        p.mat != 0 && p.mat != 255 && mats.def_spec(p.mat).kind == Kind::Static && mats.def_spec(p.mat).hp != 0
    }

    /// The damage bits of a pixel: the high six bits of aux.
    pub open spec fn damage_bits(p: Pixel) -> int {
        (p.aux >> 2u8) as int
    }

    /// Damage accumulated on a static pixel: its damage bits, and once those are
    /// full (63), what mining stored in the lifetime byte on top.
    pub open spec fn damage_of(p: Pixel) -> int {
        if PixelWorld::damage_bits(p) < 63 {
            PixelWorld::damage_bits(p)
        } else {
            63 + p.life
        }
    }

    /// Pixel `p` holding damage `d` (at most `MAX_DAMAGE`): below 63 in its damage bits
    /// alone, its lifetime kept; from 63 on the bits full and the rest in the lifetime byte.
    pub open spec fn with_damage(p: Pixel, d: int) -> Pixel {
        if d < 63 {
            Pixel { mat: p.mat, shade: p.shade, life: p.life, aux: ((((d as u8) << 2u8) | (p.aux & 3u8)) as u8) }
        } else {
            Pixel { mat: p.mat, shade: p.shade, life: (d - 63) as u8, aux: (((63u8 << 2u8) | (p.aux & 3u8)) as u8) }
        }
    }

    /// What `mine_px(x, y, power)` does and answers: on a minable static pixel the damage
    /// grows by `power`; once it reaches the hardness the pixel is cleared, the floater
    /// check runs around it and the material is answered; otherwise the damage (capped at
    /// `MAX_DAMAGE`) is stored and nothing is answered.
    pub open spec fn mine_st(&self, mats: Materials, s: SimState, x: int, y: int, power: u16) -> (SimState, Option<u8>) {
        self.frame().mine_st(mats, s, x, y, power)
    }

    /// Mines a static pixel: accumulates damage and destroys it once the damage reaches its
    /// hardness; answers the destroyed material.
    pub fn mine_px(&mut self, x: i32, y: i32, power: u16, mats: &Materials) -> (r: Option<u8>)
        requires
            old(self).wf(),
            mats.wf(),
            Self::mine_target(*mats, old(self).pixel(x as int, y as int)) ==> Self::damage_bits(old(self).pixel(x as int, y as int)) + power <= u16::MAX,
        ensures
            final(self).wf(),
            final(self).same_frame(old(self)),
            (final(self).state(), r) == old(self).mine_st(*mats, old(self).state(), x as int, y as int, power),
    {
        let p = self.get(x, y);
        if p.mat == EMPTY || p.mat == OOB {
            return None;
        }
        let def = mats.def(p.mat);
        if def.kind != Kind::Static || def.hp == 0 {
            return None;
        }
        let bits = (p.aux >> 2) as u32;
        let held: u32 = if bits < 63 { bits } else { 63 + p.life as u32 };
        let dmg: u32 = held + power as u32;
        if dmg >= def.hp as u32 {
            let m = p.mat;
            self.set(x, y, Pixel { mat: 0, shade: 0, life: 0, aux: 0 });
            let seeds = [(x, y)];
            proof {
                assert(seeds@ =~= seq![(x, y)]);
            }
            self.resolve_floaters(mats, &seeds);
            Some(m)
        } else {
            let capped: u32 = if dmg < MAX_DAMAGE as u32 { dmg } else { MAX_DAMAGE as u32 };
            let q = if capped < 63 {
                Pixel { mat: p.mat, shade: p.shade, life: p.life, aux: ((capped as u8) << 2) | (p.aux & 0b11) }
            } else {
                Pixel { mat: p.mat, shade: p.shade, life: (capped - 63) as u8, aux: (63u8 << 2) | (p.aux & 0b11) }
            };
            proof {
                assert(q == PixelWorld::with_damage(p, capped as int));
            }
            self.patch(x, y, q);
            None
        }
    }

}

/// Most damage a static pixel can hold: 63 in its damage bits and 255 more in its
/// lifetime byte.
pub const MAX_DAMAGE: u16 = 318;

/// `chance(0.5)` as a threshold on the 24-bit draw.
pub const HALF_CHANCE: u32 = 8388608;
/// `chance(0.02)`: a surface liquid pixel occasionally settles instead of sliding.
pub const SETTLE_CHANCE: u32 = 335545;
/// `chance(0.3)`: a burnt-out fire pixel leaves smoke.
pub const SMOKE_CHANCE: u32 = 5033165;
/// `chance(0.06)`: a spent steam pixel condenses to water.
pub const CONDENSE_CHANCE: u32 = 1006633;
/// `chance(0.2)`: fire quenched by water removes the water.
pub const QUENCH_CHANCE: u32 = 3355444;
/// `chance(0.25)`: acid corrodes a soluble static neighbour.
pub const CORRODE_CHANCE: u32 = 4194304;
/// Minimum burn time of an ignited pixel.
pub const MIN_BURN: u8 = 20;

/// `chance(flammable / 255 * 0.35)` for each flammability, as a threshold on the 24-bit
/// draw (the least integer not below the single-precision probability times 2^24).
pub const FIRE_IGNITE: [u32; 256] = [
    0, 23028, 46056, 69083, 92111, 115138, 138166, 161193,
    184221, 207248, 230276, 253304, 276331, 299359, 322386, 345414,
    368441, 391469, 414496, 437524, 460552, 483579, 506607, 529634,
    552662, 575689, 598717, 621744, 644772, 667799, 690827, 713855,
    736882, 759910, 782937, 805965, 828992, 852020, 875047, 898075,
    921103, 944130, 967158, 990185, 1013213, 1036240, 1059268, 1082295,
    1105323, 1128350, 1151378, 1174406, 1197433, 1220461, 1243488, 1266516,
    1289543, 1312571, 1335598, 1358626, 1381654, 1404681, 1427709, 1450736,
    1473764, 1496791, 1519819, 1542846, 1565874, 1588902, 1611929, 1634957,
    1657984, 1681012, 1704039, 1727067, 1750094, 1773122, 1796149, 1819177,
    1842205, 1865232, 1888260, 1911287, 1934315, 1957342, 1980370, 2003397,
    2026425, 2049453, 2072480, 2095508, 2118535, 2141563, 2164590, 2187618,
    2210645, 2233673, 2256700, 2279728, 2302756, 2325783, 2348811, 2371838,
    2394866, 2417893, 2440921, 2463948, 2486976, 2510003, 2533031, 2556059,
    2579086, 2602114, 2625141, 2648169, 2671196, 2694224, 2717251, 2740279,
    2763307, 2786334, 2809362, 2832389, 2855417, 2878444, 2901472, 2924499,
    2947527, 2970555, 2993582, 3016610, 3039637, 3062665, 3085692, 3108720,
    3131747, 3154775, 3177803, 3200830, 3223858, 3246885, 3269913, 3292940,
    3315968, 3338995, 3362023, 3385051, 3408078, 3431106, 3454133, 3477161,
    3500188, 3523216, 3546243, 3569271, 3592298, 3615326, 3638354, 3661381,
    3684409, 3707436, 3730464, 3753491, 3776519, 3799546, 3822574, 3845602,
    3868629, 3891657, 3914684, 3937712, 3960739, 3983767, 4006794, 4029822,
    4052849, 4075877, 4098905, 4121932, 4144960, 4167987, 4191015, 4214042,
    4237070, 4260097, 4283125, 4306152, 4329180, 4352207, 4375235, 4398263,
    4421290, 4444318, 4467345, 4490373, 4513400, 4536428, 4559455, 4582483,
    4605511, 4628538, 4651566, 4674593, 4697621, 4720648, 4743676, 4766703,
    4789731, 4812758, 4835786, 4858814, 4881841, 4904869, 4927896, 4950924,
    4973951, 4996979, 5020006, 5043034, 5066062, 5089089, 5112117, 5135144,
    5158172, 5181199, 5204227, 5227254, 5250282, 5273309, 5296337, 5319365,
    5342392, 5365420, 5388447, 5411475, 5434502, 5457530, 5480557, 5503585,
    5526613, 5549640, 5572668, 5595695, 5618723, 5641750, 5664778, 5687805,
    5710833, 5733860, 5756888, 5779916, 5802943, 5825971, 5848998, 5872026,
];

/// Threshold with which fire ignites a neighbour of the given flammability.
pub open spec fn fire_threshold(f: u8) -> u32 {
    FIRE_IGNITE@[f as int]
}

/// Threshold with which lava ignites a neighbour (`chance(flammable / 255 * 0.2)`).
pub open spec fn lava_threshold(f: u8) -> u32 {
    ((f as int * 16777216 + 1274) / 1275) as u32
}

fn lava_ignite(f: u8) -> (t: u32)
    ensures
        t == lava_threshold(f),
{
    (((f as u64) * 16777216 + 1274) / 1275) as u32
}

pub open spec fn with_rng(s: SimState, r: u64) -> SimState {
    SimState { rng: r, ..s }
}

impl Frame {
    /// One powder move: straight down, else diagonally down (random side first).
    pub open spec fn powder_st(&self, mats: Materials, s: SimState, x: int, y: int, density: u16) -> (SimState, bool) {
        if PixelWorld::can_enter_spec(mats, s, x, y + 1, Kind::Powder, density, false) {
            (self.swap_st(s, x, y, x, y + 1), true)
        } else {
            let (r1, c) = crate::rng::chance_next(s.rng, HALF_CHANCE);
            let s1 = with_rng(s, r1);
            let d: int = if c { 1 } else { -1 };
            if PixelWorld::can_enter_spec(mats, s1, x + d, y + 1, Kind::Powder, density, false) {
                (self.swap_st(s1, x, y, x + d, y + 1), true)
            } else if PixelWorld::can_enter_spec(mats, s1, x - d, y + 1, Kind::Powder, density, false) {
                (self.swap_st(s1, x, y, x - d, y + 1), true)
            } else {
                (s1, false)
            }
        }
    }

    /// Where a liquid slides: up to `k` more steps in `dir`, stopping before a blocked
    /// cell or right after reaching a cell it could fall from.
    pub open spec fn disperse(mats: Materials, s: SimState, nx: int, y: int, dir: int, density: u16, k: int) -> int
        decreases k,
    {
        if k <= 0 {
            nx
        } else if !PixelWorld::can_enter_spec(mats, s, nx + dir, y, Kind::Liquid, density, false) {
            nx
        } else if PixelWorld::can_enter_spec(mats, s, nx + dir, y + 1, Kind::Liquid, density, false) {
            nx + dir
        } else {
            Self::disperse(mats, s, nx + dir, y, dir, density, k - 1)
        }
    }

    /// One liquid move: down, diagonally down, else (unless it settles by chance) slide
    /// sideways in its remembered direction, turning when blocked.
    pub open spec fn liquid_st(&self, mats: Materials, s: SimState, x: int, y: int, p: Pixel, density: u16, dispersal: u8) -> (SimState, bool) {
        if PixelWorld::can_enter_spec(mats, s, x, y + 1, Kind::Liquid, density, false) {
            (self.swap_st(s, x, y, x, y + 1), true)
        } else {
            let (r1, c) = crate::rng::chance_next(s.rng, HALF_CHANCE);
            let s1 = with_rng(s, r1);
            let d: int = if c { 1 } else { -1 };
            if PixelWorld::can_enter_spec(mats, s1, x + d, y + 1, Kind::Liquid, density, false) {
                (self.swap_st(s1, x, y, x + d, y + 1), true)
            } else if PixelWorld::can_enter_spec(mats, s1, x - d, y + 1, Kind::Liquid, density, false) {
                (self.swap_st(s1, x, y, x - d, y + 1), true)
            } else {
                let (r2, settle) = crate::rng::chance_next(s1.rng, SETTLE_CHANCE);
                let s2 = with_rng(s1, r2);
                if settle {
                    (s2, false)
                } else {
                    let d0 = dir_of(p);
                    let ok0 = PixelWorld::can_enter_spec(mats, s2, x + d0, y, Kind::Liquid, density, false);
                    let dir = if ok0 { d0 } else { -d0 };
                    if !ok0 && !PixelWorld::can_enter_spec(mats, s2, x + dir, y, Kind::Liquid, density, false) {
                        (s2, false)
                    } else {
                        let steps: int = if dispersal > 1 { dispersal as int } else { 1 };
                        let nx = Self::disperse(mats, s2, x, y, dir, density, steps);
                        if nx != x {
                            (self.move_st(s2, x, y, nx, y, with_dir_spec(p, dir)), true)
                        } else {
                            (s2, false)
                        }
                    }
                }
            }
        }
    }

    /// What a gas pixel with no life left turns into (and the draws that decides it).
    pub open spec fn gas_death(mats: Materials, ids: SimIds, s: SimState, p: Pixel, fire: bool) -> (SimState, Pixel) {
        if fire {
            let (r, c) = crate::rng::chance_next(s.rng, SMOKE_CHANCE);
            if c {
                (with_rng(s, r), Pixel { mat: ids.smoke, shade: p.shade, life: mats.def_spec(ids.smoke).life, aux: 0 })
            } else {
                (with_rng(s, r), empty_px())
            }
        } else if p.mat == ids.steam {
            let (r, c) = crate::rng::chance_next(s.rng, CONDENSE_CHANCE);
            if c {
                (with_rng(s, r), Pixel { mat: ids.water, shade: p.shade, life: 0, aux: 0 })
            } else {
                (with_rng(s, r), empty_px())
            }
        } else {
            (s, empty_px())
        }
    }

    /// Gas drift after ageing: up, diagonally up, else sideways (random side).
    pub open spec fn gas_drift(&self, mats: Materials, s: SimState, x: int, y: int, p: Pixel) -> (SimState, bool) {
        if PixelWorld::can_enter_spec(mats, s, x, y - 1, Kind::Gas, 0, true) {
            (self.move_st(s, x, y, x, y - 1, p), true)
        } else {
            let (r1, c) = crate::rng::chance_next(s.rng, HALF_CHANCE);
            let s1 = with_rng(s, r1);
            let d: int = if c { 1 } else { -1 };
            if PixelWorld::can_enter_spec(mats, s1, x + d, y - 1, Kind::Gas, 0, true) {
                (self.move_st(s1, x, y, x + d, y - 1, p), true)
            } else if PixelWorld::can_enter_spec(mats, s1, x - d, y - 1, Kind::Gas, 0, true) {
                (self.move_st(s1, x, y, x - d, y - 1, p), true)
            } else if PixelWorld::can_enter_spec(mats, s1, x + d, y, Kind::Gas, 0, true) {
                (self.move_st(s1, x, y, x + d, y, p), true)
            } else {
                (s1, false)
            }
        }
    }

    /// One gas step: a mortal gas with no life left dies (fire may leave smoke, steam may
    /// condense; an emptied cell triggers the floater check), otherwise it ages by one
    /// and drifts.
    pub open spec fn gas_st(&self, mats: Materials, ids: SimIds, s: SimState, x: int, y: int, p: Pixel, def_life: u8, fire: bool) -> (SimState, bool) {
        if def_life > 0 && p.life == 0 {
            let (s1, next) = Self::gas_death(mats, ids, s, p, fire);
            let s2 = self.set_st(s1, x, y, next);
            if next.mat == 0 {
                (self.resolve_st(mats, s2, seq![(x as i32, y as i32)]), true)
            } else {
                (s2, true)
            }
        } else {
            let q = (s.px)(x, y);
            let s1 = if def_life > 0 {
                self.patch_st(s, x, y, Pixel { mat: q.mat, shade: q.shade, life: (q.life - 1) as u8, aux: q.aux })
            } else {
                s
            };
            self.gas_drift(mats, s1, x, y, p)
        }
    }

    /// Fire reacting with its neighbours from the `k`-th on: water quenches it into steam
    /// (and may vanish), flammable neighbours may ignite.
    pub open spec fn fire_from(&self, mats: Materials, ids: SimIds, s: SimState, x: int, y: int, k: int) -> SimState
        decreases 4 - k,
    {
        if k >= 4 || k < 0 {
            s
        } else {
            let nx = x + nb_dx(k);
            let ny = y + nb_dy(k);
            let n = (s.px)(nx, ny);
            if n.mat == 0 || n.mat == 255 {
                self.fire_from(mats, ids, s, x, y, k + 1)
            } else if n.mat == ids.water {
                let s1 = self.set_st(s, x, y, Pixel { mat: ids.steam, shade: n.shade, life: mats.def_spec(ids.steam).life, aux: 0 });
                let (r, c) = crate::rng::chance_next(s1.rng, QUENCH_CHANCE);
                if c {
                    self.set_st(with_rng(s1, r), nx, ny, empty_px())
                } else {
                    with_rng(s1, r)
                }
            } else {
                let nd = mats.def_spec(n.mat);
                if nd.flammable > 0 {
                    let (r, c) = crate::rng::chance_next(s.rng, fire_threshold(nd.flammable));
                    let s1 = with_rng(s, r);
                    let s2 = if c {
                        self.set_st(s1, nx, ny, Pixel { mat: ids.fire, shade: n.shade, life: if nd.burn_life > MIN_BURN { nd.burn_life } else { MIN_BURN }, aux: 0 })
                    } else {
                        s1
                    };
                    self.fire_from(mats, ids, s2, x, y, k + 1)
                } else {
                    self.fire_from(mats, ids, s, x, y, k + 1)
                }
            }
        }
    }

    /// Lava reacting with its neighbours from the `k`-th on: water hardens it into stone
    /// debris and turns to steam, flammable neighbours may ignite.
    pub open spec fn lava_from(&self, mats: Materials, ids: SimIds, s: SimState, x: int, y: int, k: int) -> SimState
        decreases 4 - k,
    {
        if k >= 4 || k < 0 {
            s
        } else {
            let nx = x + nb_dx(k);
            let ny = y + nb_dy(k);
            let n = (s.px)(nx, ny);
            if n.mat == 0 || n.mat == 255 {
                self.lava_from(mats, ids, s, x, y, k + 1)
            } else if n.mat == ids.water {
                let s1 = self.set_st(s, x, y, Pixel { mat: ids.stone_debris, shade: n.shade, life: 0, aux: 0 });
                self.set_st(s1, nx, ny, Pixel { mat: ids.steam, shade: n.shade, life: mats.def_spec(ids.steam).life, aux: 0 })
            } else {
                let nd = mats.def_spec(n.mat);
                if nd.flammable > 0 {
                    let (r, c) = crate::rng::chance_next(s.rng, lava_threshold(nd.flammable));
                    let s1 = with_rng(s, r);
                    let s2 = if c {
                        self.set_st(s1, nx, ny, Pixel { mat: ids.fire, shade: n.shade, life: if nd.burn_life > MIN_BURN { nd.burn_life } else { MIN_BURN }, aux: 0 })
                    } else {
                        s1
                    };
                    self.lava_from(mats, ids, s2, x, y, k + 1)
                } else {
                    self.lava_from(mats, ids, s, x, y, k + 1)
                }
            }
        }
    }

    /// Acid reacting with its neighbours from the `k`-th on: it may corrode a soluble static
    /// neighbour (which vanishes, with a floater check) and is used up into smoke.
    pub open spec fn acid_from(&self, mats: Materials, ids: SimIds, s: SimState, x: int, y: int, k: int) -> SimState
        decreases 4 - k,
    {
        if k >= 4 || k < 0 {
            s
        } else {
            let nx = x + nb_dx(k);
            let ny = y + nb_dy(k);
            let n = (s.px)(nx, ny);
            if n.mat == 0 || n.mat == 255 {
                self.acid_from(mats, ids, s, x, y, k + 1)
            } else {
                let nd = mats.def_spec(n.mat);
                if nd.kind == Kind::Static && !nd.acid_proof && nd.hp > 0 {
                    let (r, c) = crate::rng::chance_next(s.rng, CORRODE_CHANCE);
                    let s1 = with_rng(s, r);
                    if c {
                        let s2 = self.set_st(s1, nx, ny, empty_px());
                        let s3 = self.resolve_st(mats, s2, seq![(nx as i32, ny as i32)]);
                        self.set_st(s3, x, y, Pixel { mat: ids.smoke, shade: 128, life: mats.def_spec(ids.smoke).life, aux: 0 })
                    } else {
                        self.acid_from(mats, ids, s1, x, y, k + 1)
                    }
                } else {
                    self.acid_from(mats, ids, s, x, y, k + 1)
                }
            }
        }
    }

    /// The reaction of a reactive material at (x, y).
    pub open spec fn react_st(&self, mats: Materials, ids: SimIds, s: SimState, x: int, y: int, special: Option<Special>) -> SimState {
        match special {
            Some(Special::Fire) => self.fire_from(mats, ids, s, x, y, 0),
            Some(Special::Lava) => self.lava_from(mats, ids, s, x, y, 0),
            Some(Special::Acid) => self.acid_from(mats, ids, s, x, y, 0),
            None => s,
        }
    }
}

impl PixelWorld {
    fn step_powder(&mut self, x: i32, y: i32, density: u16, mats: &Materials) -> (moved: bool)
        requires
            old(self).wf(),
            mats.wf(),
            old(self).in_bounds(x as int, y as int),
        ensures
            final(self).wf(),
            final(self).same_frame(old(self)),
            (final(self).state(), moved) == old(self).frame().powder_st(*mats, old(self).state(), x as int, y as int, density),
    {
        if self.can_enter(mats, x, y + 1, Kind::Powder, density, false) {
            self.swap(x, y, x, y + 1);
            return true;
        }
        let d: i32 = if self.rng.chance_below(HALF_CHANCE) { 1 } else { -1 };
        if self.can_enter(mats, x + d, y + 1, Kind::Powder, density, false) {
            self.swap(x, y, x + d, y + 1);
            return true;
        }
        if self.can_enter(mats, x - d, y + 1, Kind::Powder, density, false) {
            self.swap(x, y, x - d, y + 1);
            return true;
        }
        false
    }

    fn step_liquid(&mut self, x: i32, y: i32, p: Pixel, density: u16, dispersal: u8, mats: &Materials) -> (moved: bool)
        requires
            old(self).wf(),
            mats.wf(),
            old(self).in_bounds(x as int, y as int),
        ensures
            final(self).wf(),
            final(self).same_frame(old(self)),
            (final(self).state(), moved) == old(self).frame().liquid_st(*mats, old(self).state(), x as int, y as int, p, density, dispersal),
    {
        if self.can_enter(mats, x, y + 1, Kind::Liquid, density, false) {
            self.swap(x, y, x, y + 1);
            return true;
        }
        let d: i32 = if self.rng.chance_below(HALF_CHANCE) { 1 } else { -1 };
        if self.can_enter(mats, x + d, y + 1, Kind::Liquid, density, false) {
            self.swap(x, y, x + d, y + 1);
            return true;
        }
        if self.can_enter(mats, x - d, y + 1, Kind::Liquid, density, false) {
            self.swap(x, y, x - d, y + 1);
            return true;
        }
        if self.rng.chance_below(SETTLE_CHANCE) {
            return false;
        }
        let ghost s2 = self.state();
        let mut dir = p.dir();
        if !self.can_enter(mats, x + dir, y, Kind::Liquid, density, false) {
            dir = -dir;
            if !self.can_enter(mats, x + dir, y, Kind::Liquid, density, false) {
                return false;
            }
        }
        let steps: u8 = if dispersal > 1 { dispersal } else { 1 };
        let mut nx = x;
        let mut i: u8 = 0;
        let mut done = false;
        while i < steps && !done
            invariant
                self.wf(),
                mats.wf(),
                self.state() == s2,
                old(self).in_bounds(x as int, y as int),
                self.in_bounds(nx as int, y as int),
                dir == 1 || dir == -1,
                i <= steps,
                Frame::disperse(*mats, s2, x as int, y as int, dir as int, density, steps as int) == (if done {
                    nx as int
                } else {
                    Frame::disperse(*mats, s2, nx as int, y as int, dir as int, density, (steps - i) as int)
                }),
            decreases steps - i,
        {
            let tx = nx + dir;
            if !self.can_enter(mats, tx, y, Kind::Liquid, density, false) {
                done = true;
            } else {
                nx = tx;
                if self.can_enter(mats, nx, y + 1, Kind::Liquid, density, false) {
                    done = true;
                }
            }
            i = i + 1;
        }
        if nx != x {
            self.move_to(x, y, nx, y, p.with_dir(dir));
            return true;
        }
        false
    }

    fn step_gas(&mut self, x: i32, y: i32, p: Pixel, def_life: u8, fire: bool, mats: &Materials) -> (moved: bool)
        requires
            old(self).wf(),
            mats.wf(),
            old(self).in_bounds(x as int, y as int),
            old(self).pixel(x as int, y as int) == p,
        ensures
            final(self).wf(),
            final(self).same_frame(old(self)),
            (final(self).state(), moved) == old(self).frame().gas_st(*mats, old(self).sim_ids(), old(self).state(), x as int, y as int, p, def_life, fire),
    {
        if def_life > 0 {
            if p.life == 0 {
                let next = if fire {
                    if self.rng.chance_below(SMOKE_CHANCE) {
                        Pixel { mat: self.ids.smoke, shade: p.shade, life: mats.def(self.ids.smoke).life, aux: 0 }
                    } else {
                        Pixel { mat: 0, shade: 0, life: 0, aux: 0 }
                    }
                } else if p.mat == self.ids.steam && self.rng.chance_below(CONDENSE_CHANCE) {
                    Pixel { mat: self.ids.water, shade: p.shade, life: 0, aux: 0 }
                } else {
                    Pixel { mat: 0, shade: 0, life: 0, aux: 0 }
                };
                self.set(x, y, next);
                if next.mat == EMPTY {
                    let seeds = [(x, y)];
                    proof {
                        assert(seeds@ =~= seq![(x, y)]);
                    }
                    self.resolve_floaters(mats, &seeds);
                }
                return true;
            }
            let q = self.get(x, y);
            self.patch(x, y, Pixel { mat: q.mat, shade: q.shade, life: q.life - 1, aux: q.aux });
        }
        if self.can_enter(mats, x, y - 1, Kind::Gas, 0, true) {
            self.move_to(x, y, x, y - 1, p);
            return true;
        }
        let d: i32 = if self.rng.chance_below(HALF_CHANCE) { 1 } else { -1 };
        if self.can_enter(mats, x + d, y - 1, Kind::Gas, 0, true) {
            self.move_to(x, y, x + d, y - 1, p);
            return true;
        }
        if self.can_enter(mats, x - d, y - 1, Kind::Gas, 0, true) {
            self.move_to(x, y, x - d, y - 1, p);
            return true;
        }
        if self.can_enter(mats, x + d, y, Kind::Gas, 0, true) {
            self.move_to(x, y, x + d, y, p);
            return true;
        }
        false
    }

    fn react_fire(&mut self, x: i32, y: i32, mats: &Materials)
        requires
            old(self).wf(),
            mats.wf(),
            old(self).in_bounds(x as int, y as int),
        ensures
            final(self).wf(),
            final(self).same_frame(old(self)),
            final(self).state() == old(self).frame().fire_from(*mats, old(self).sim_ids(), old(self).state(), x as int, y as int, 0),
    {
        let ghost f = self.frame();
        let ghost ids = self.ids;
        let ghost target = f.fire_from(*mats, ids, self.state(), x as int, y as int, 0);
        let mut d: usize = 0;
        while d < 4
            invariant
                self.wf(),
                mats.wf(),
                self.same_frame(old(self)),
                f == self.frame(),
                ids == self.sim_ids(),
                old(self).in_bounds(x as int, y as int),
                d <= 4,
                target == f.fire_from(*mats, ids, self.state(), x as int, y as int, d as int),
                target == old(self).frame().fire_from(*mats, old(self).sim_ids(), old(self).state(), x as int, y as int, 0),
            decreases 4 - d,
        {
            let ghost s_it = self.state();
            let (dx, dy) = nb_delta(d);
            let nx = x + dx;
            let ny = y + dy;
            let n = self.get(nx, ny);
            if n.mat == EMPTY || n.mat == OOB {
                d = d + 1;
                continue;
            }
            if n.mat == self.ids.water {
                let steam = self.ids.steam;
                self.set(x, y, Pixel { mat: steam, shade: n.shade, life: mats.def(steam).life, aux: 0 });
                if self.rng.chance_below(QUENCH_CHANCE) {
                    self.set(nx, ny, Pixel { mat: 0, shade: 0, life: 0, aux: 0 });
                }
                proof {
                    assert(f.fire_from(*mats, ids, s_it, x as int, y as int, d as int) == self.state());
                }
                return;
            }
            let nd = mats.def(n.mat);
            if nd.flammable > 0 && self.rng.chance_below(FIRE_IGNITE[nd.flammable as usize]) {
                let life = if nd.burn_life > MIN_BURN { nd.burn_life } else { MIN_BURN };
                let fire = self.ids.fire;
                self.set(nx, ny, Pixel { mat: fire, shade: n.shade, life, aux: 0 });
            }
            d = d + 1;
        }
    }

    fn react_lava(&mut self, x: i32, y: i32, mats: &Materials)
        requires
            old(self).wf(),
            mats.wf(),
            old(self).in_bounds(x as int, y as int),
        ensures
            final(self).wf(),
            final(self).same_frame(old(self)),
            final(self).state() == old(self).frame().lava_from(*mats, old(self).sim_ids(), old(self).state(), x as int, y as int, 0),
    {
        let ghost f = self.frame();
        let ghost ids = self.ids;
        let ghost target = f.lava_from(*mats, ids, self.state(), x as int, y as int, 0);
        let mut d: usize = 0;
        while d < 4
            invariant
                self.wf(),
                mats.wf(),
                self.same_frame(old(self)),
                f == self.frame(),
                ids == self.sim_ids(),
                old(self).in_bounds(x as int, y as int),
                d <= 4,
                target == f.lava_from(*mats, ids, self.state(), x as int, y as int, d as int),
                target == old(self).frame().lava_from(*mats, old(self).sim_ids(), old(self).state(), x as int, y as int, 0),
            decreases 4 - d,
        {
            let ghost s_it = self.state();
            let (dx, dy) = nb_delta(d);
            let nx = x + dx;
            let ny = y + dy;
            let n = self.get(nx, ny);
            if n.mat == EMPTY || n.mat == OOB {
                d = d + 1;
                continue;
            }
            if n.mat == self.ids.water {
                let debris = self.ids.stone_debris;
                let steam = self.ids.steam;
                self.set(x, y, Pixel { mat: debris, shade: n.shade, life: 0, aux: 0 });
                self.set(nx, ny, Pixel { mat: steam, shade: n.shade, life: mats.def(steam).life, aux: 0 });
                proof {
                    assert(f.lava_from(*mats, ids, s_it, x as int, y as int, d as int) == self.state());
                }
                return;
            }
            let nd = mats.def(n.mat);
            if nd.flammable > 0 && self.rng.chance_below(lava_ignite(nd.flammable)) {
                let life = if nd.burn_life > MIN_BURN { nd.burn_life } else { MIN_BURN };
                let fire = self.ids.fire;
                self.set(nx, ny, Pixel { mat: fire, shade: n.shade, life, aux: 0 });
            }
            d = d + 1;
        }
    }

    fn react_acid(&mut self, x: i32, y: i32, mats: &Materials)
        requires
            old(self).wf(),
            mats.wf(),
            old(self).in_bounds(x as int, y as int),
        ensures
            final(self).wf(),
            final(self).same_frame(old(self)),
            final(self).state() == old(self).frame().acid_from(*mats, old(self).sim_ids(), old(self).state(), x as int, y as int, 0),
    {
        let ghost f = self.frame();
        let ghost ids = self.ids;
        let ghost target = f.acid_from(*mats, ids, self.state(), x as int, y as int, 0);
        let mut d: usize = 0;
        while d < 4
            invariant
                self.wf(),
                mats.wf(),
                self.same_frame(old(self)),
                f == self.frame(),
                ids == self.sim_ids(),
                old(self).in_bounds(x as int, y as int),
                d <= 4,
                target == f.acid_from(*mats, ids, self.state(), x as int, y as int, d as int),
                target == old(self).frame().acid_from(*mats, old(self).sim_ids(), old(self).state(), x as int, y as int, 0),
            decreases 4 - d,
        {
            let ghost s_it = self.state();
            let (dx, dy) = nb_delta(d);
            let nx = x + dx;
            let ny = y + dy;
            let n = self.get(nx, ny);
            if n.mat == EMPTY || n.mat == OOB {
                d = d + 1;
                continue;
            }
            let nd = mats.def(n.mat);
            if nd.kind == Kind::Static && !nd.acid_proof && nd.hp > 0 && self.rng.chance_below(CORRODE_CHANCE) {
                self.set(nx, ny, Pixel { mat: 0, shade: 0, life: 0, aux: 0 });
                let seeds = [(nx, ny)];
                proof {
                    assert(seeds@ =~= seq![(nx, ny)]);
                }
                self.resolve_floaters(mats, &seeds);
                let smoke = self.ids.smoke;
                self.set(x, y, Pixel { mat: smoke, shade: 128, life: mats.def(smoke).life, aux: 0 });
                proof {
                    assert(f.acid_from(*mats, ids, s_it, x as int, y as int, d as int) == self.state());
                }
                return;
            }
            d = d + 1;
        }
    }

    /// Reaction rules: fire, lava, acid.
    fn react(&mut self, x: i32, y: i32, special: Option<Special>, mats: &Materials)
        requires
            old(self).wf(),
            mats.wf(),
            old(self).in_bounds(x as int, y as int),
        ensures
            final(self).wf(),
            final(self).same_frame(old(self)),
            final(self).state() == old(self).frame().react_st(*mats, old(self).sim_ids(), old(self).state(), x as int, y as int, special),
    {
        match special {
            Some(Special::Fire) => self.react_fire(x, y, mats),
            Some(Special::Lava) => self.react_lava(x, y, mats),
            Some(Special::Acid) => self.react_acid(x, y, mats),
            None => {},
        }
    }
}

impl Frame {
    /// One pixel of a step: skipped when empty or static; a settled pixel only reacts now
    /// and then (when reactive); otherwise it moves by its kind, settles when it neither
    /// moved nor reacts, and reactive materials then react. Answers the state and whether
    /// the pixel counted as active and as reactive.
    pub open spec fn px_step(&self, mats: Materials, ids: SimIds, tick: u64, s: SimState, x: int, y: int) -> (SimState, int, int) {
        let p = (s.px)(x, y);
        if p.mat == 0 || p.mat == 255 {
            (s, 0, 0)
        } else {
            let def = mats.def_spec(p.mat);
            if def.kind == Kind::Static {
                (s, 0, 0)
            } else {
                let has_special = def.special is Some || def.emissive > 0;
                if settled(p) {
                    if has_special {
                        let due = (vstd::wrapping::u64_specs::wrapping_add(tick, ((x as i32) ^ (y as i32)) as u64) & 7u64) == 0;
                        (if due { self.react_st(mats, ids, s, x, y, def.special) } else { s }, 0, 1)
                    } else {
                        (s, 0, 0)
                    }
                } else {
                    let (s1, moved) = if def.kind == Kind::Powder {
                        self.powder_st(mats, s, x, y, def.density)
                    } else if def.kind == Kind::Liquid {
                        self.liquid_st(mats, s, x, y, p, def.density, def.dispersal)
                    } else {
                        self.gas_st(mats, ids, s, x, y, p, def.life, def.special == Some(Special::Fire))
                    };
                    let s2 = if !moved && !has_special { self.settle_st(s1, x, y) } else { s1 };
                    let a: int = if moved { 1 } else { 0 };
                    if has_special {
                        (self.react_st(mats, ids, s2, x, y, def.special), a, 1)
                    } else {
                        (s2, a, 0)
                    }
                }
            }
        }
    }

    /// The `k`-th pixel a step visits in chunk `ci`: rows bottom-up, alternating the
    /// horizontal direction by row and tick parity.
    pub open spec fn scan_pos(&self, ci: int, k: int, tick: u64) -> (int, int) {
        let row = k / 128;
        let li = k % 128;
        let y = (ci / self.cols) * 128 + (127 - row);
        let lx = if (y + tick) % 2 == 0 { li } else { 127 - li };
        ((ci % self.cols) * 128 + lx, y)
    }

    /// The first `k` pixels of chunk `ci`, with the active and reactive counts.
    pub open spec fn chunk_run(&self, mats: Materials, ids: SimIds, tick: u64, s: SimState, ci: int, k: int) -> (SimState, int, int)
        decreases k,
    {
        if k <= 0 {
            (s, 0, 0)
        } else {
            let (s1, a, sp) = self.chunk_run(mats, ids, tick, s, ci, k - 1);
            let (x, y) = self.scan_pos(ci, k - 1, tick);
            let (s2, da, dsp) = self.px_step(mats, ids, tick, s1, x, y);
            (s2, a + da, sp + dsp)
        }
    }

    /// What finishing an awake chunk does: record its activity, and put it to sleep when
    /// nothing moved or reacted.
    pub open spec fn finish_chunk(s: SimState, ci: int, a: int, sp: int) -> SimState {
        let s2 = SimState { active: s.active.update(ci, a as u32), ..s };
        if a == 0 && sp == 0 { SimState { asleep: s2.asleep.update(ci, true), ..s2 } } else { s2 }
    }

    /// One chunk of a step: a sleeping chunk is only counted as asleep; an awake one runs
    /// all its pixels and is finished. Answers the state, the asleep count (0 or 1) and the
    /// active count it adds.
    pub open spec fn chunk_step(&self, mats: Materials, ids: SimIds, tick: u64, s: SimState, ci: int) -> (SimState, int, int) {
        if s.asleep[ci] {
            (s, 1, 0)
        } else {
            let (s1, a, sp) = self.chunk_run(mats, ids, tick, s, ci, 16384);
            (Self::finish_chunk(s1, ci, a, sp), 0, a + sp)
        }
    }

    /// The first `c` chunks of a step, in index order, with the asleep and active totals.
    pub open spec fn world_run(&self, mats: Materials, ids: SimIds, tick: u64, s: SimState, c: int) -> (SimState, int, int)
        decreases c,
    {
        if c <= 0 {
            (s, 0, 0)
        } else {
            let (s1, sl, tot) = self.world_run(mats, ids, tick, s, c - 1);
            let (s2, dsl, dtot) = self.chunk_step(mats, ids, tick, s1, c - 1);
            (s2, sl + dsl, tot + dtot)
        }
    }

    /// A whole step: the tick advances, every chunk runs in order, and the asleep and
    /// active counts of this step are recorded.
    pub open spec fn step_st(&self, mats: Materials, ids: SimIds, s: SimState) -> SimState {
        let (s1, sl, tot) = self.world_run(mats, ids, s.tick, SimState { tick: (s.tick + 1) as u64, ..s }, self.n_chunks());
        SimState { asleep_chunks: sl as u32, active_pixels: tot as u64, ..s1 }
    }

    /// The glow pixel (x, y) of state `s` gives off when a step visits it: a pixel
    /// that is not static and not settled gives off its material's glow, when it has any.
    pub open spec fn px_glow(&self, mats: Materials, s: SimState, x: int, y: int) -> Seq<(i32, i32, u8)> {
        let p = (s.px)(x, y);
        let def = mats.def_spec(p.mat);
        if p.mat == 0 || p.mat == 255 || def.kind == Kind::Static || settled(p) || def.emissive == 0 {
            Seq::empty()
        } else {
            seq![(x as i32, y as i32, def.emissive)]
        }
    }

    /// The glow given off by the first `k` pixels a step visits in chunk `ci`, in order.
    pub open spec fn chunk_glow(&self, mats: Materials, ids: SimIds, tick: u64, s: SimState, ci: int, k: int) -> Seq<(i32, i32, u8)>
        decreases k,
    {
        if k <= 0 {
            Seq::empty()
        } else {
            let s1 = self.chunk_run(mats, ids, tick, s, ci, k - 1).0;
            let (x, y) = self.scan_pos(ci, k - 1, tick);
            self.chunk_glow(mats, ids, tick, s, ci, k - 1) + self.px_glow(mats, s1, x, y)
        }
    }

    /// The glow given off by the first `c` chunks of a step, in order (a sleeping chunk gives none).
    pub open spec fn world_glow(&self, mats: Materials, ids: SimIds, tick: u64, s: SimState, c: int) -> Seq<(i32, i32, u8)>
        decreases c,
    {
        if c <= 0 {
            Seq::empty()
        } else {
            let s1 = self.world_run(mats, ids, tick, s, c - 1).0;
            self.world_glow(mats, ids, tick, s, c - 1) + if s1.asleep[c - 1] {
                Seq::empty()
            } else {
                self.chunk_glow(mats, ids, tick, s1, c - 1, 16384)
            }
        }
    }

    /// The glow a whole step gives off, in the order the pixels are visited.
    pub open spec fn step_glow(&self, mats: Materials, ids: SimIds, s: SimState) -> Seq<(i32, i32, u8)> {
        self.world_glow(mats, ids, s.tick, SimState { tick: (s.tick + 1) as u64, ..s }, self.n_chunks())
    }
}

/// A receiver that did not change, after no contributions.
proof fn lemma_glow_none<H: SimHooks>(h0: H, g: Seq<(i32, i32, u8)>)
    requires
        g.len() == 0,
    ensures
        forall|b: &H, c: Seq<(i32, i32, u8)>| #[trigger] h0.after_calls(b, c) ==> h0.after_calls(b, c + g),
{
    assert forall|b: &H, c: Seq<(i32, i32, u8)>| #[trigger] h0.after_calls(b, c) implies h0.after_calls(b, c + g) by {
        assert(c + g =~= c);
    }
}

/// A receiver after one contribution.
proof fn lemma_glow_one<H: SimHooks>(h0: H, h1: H, g: Seq<(i32, i32, u8)>)
    requires
        g.len() == 1,
        forall|b: &H, c: Seq<(i32, i32, u8)>| #[trigger] h0.after_calls(b, c) ==> h1.after_calls(b, c.push(g[0])),
    ensures
        forall|b: &H, c: Seq<(i32, i32, u8)>| #[trigger] h0.after_calls(b, c) ==> h1.after_calls(b, c + g),
{
    assert forall|b: &H, c: Seq<(i32, i32, u8)>| #[trigger] h0.after_calls(b, c) implies h1.after_calls(b, c + g) by {
        assert(c + g =~= c.push(g[0]));
    }
}

/// Contributions in two stretches add up.
proof fn lemma_glow_chain<H: SimHooks>(h0: H, h1: H, h2: H, g1: Seq<(i32, i32, u8)>, g2: Seq<(i32, i32, u8)>)
    requires
        forall|b: &H, c: Seq<(i32, i32, u8)>| #[trigger] h0.after_calls(b, c) ==> h1.after_calls(b, c + g1),
        forall|b: &H, c: Seq<(i32, i32, u8)>| #[trigger] h1.after_calls(b, c) ==> h2.after_calls(b, c + g2),
    ensures
        forall|b: &H, c: Seq<(i32, i32, u8)>| #[trigger] h0.after_calls(b, c) ==> h2.after_calls(b, c + (g1 + g2)),
{
    assert forall|b: &H, c: Seq<(i32, i32, u8)>| #[trigger] h0.after_calls(b, c) implies h2.after_calls(b, c + (g1 + g2)) by {
        assert(h1.after_calls(b, c + g1));
        assert(h2.after_calls(b, (c + g1) + g2));
        assert((c + g1) + g2 =~= c + (g1 + g2));
    }
}

impl PixelWorld {
    fn step_px<H: SimHooks>(&mut self, mats: &Materials, tick: u64, x: i32, y: i32, hooks: &mut H) -> (r: (u32, u32))
        requires
            old(self).wf(),
            mats.wf(),
            old(self).in_bounds(x as int, y as int),
        ensures
            final(self).wf(),
            final(self).same_frame(old(self)),
            r.0 <= 1,
            r.1 <= 1,
            (final(self).state(), r.0 as int, r.1 as int) == old(self).frame().px_step(*mats, old(self).sim_ids(), tick, old(self).state(), x as int, y as int),
            old(hooks).hooks_ok() ==> final(hooks).hooks_ok(),
            forall|b: &H, c: Seq<(i32, i32, u8)>| #[trigger] old(hooks).after_calls(b, c)
                ==> final(hooks).after_calls(b, c + old(self).frame().px_glow(*mats, old(self).state(), x as int, y as int)),
    {
        let ghost glow = self.frame().px_glow(*mats, self.state(), x as int, y as int);
        let p = self.get(x, y);
        if p.mat == EMPTY || p.mat == OOB {
            proof {
                lemma_glow_none(*hooks, glow);
            }
            return (0, 0);
        }
        let def = mats.def(p.mat);
        if def.kind == Kind::Static {
            proof {
                lemma_glow_none(*hooks, glow);
            }
            return (0, 0);
        }
        let has_special = def.special.is_some() || def.emissive > 0;
        if p.is_settled() {
            proof {
                lemma_glow_none(*hooks, glow);
            }
            if has_special {
                if tick.wrapping_add((x ^ y) as u64) & 7 == 0 {
                    self.react(x, y, def.special, mats);
                }
                return (0, 1);
            }
            return (0, 0);
        }
        let fire = match def.special {
            Some(Special::Fire) => true,
            _ => false,
        };
        let moved = match def.kind {
            Kind::Powder => self.step_powder(x, y, def.density, mats),
            Kind::Liquid => self.step_liquid(x, y, p, def.density, def.dispersal, mats),
            _ => self.step_gas(x, y, p, def.life, fire, mats),
        };
        let mut active: u32 = 0;
        if moved {
            active = 1;
        } else if !has_special {
            self.settle(x, y);
        }
        if has_special {
            self.react(x, y, def.special, mats);
            if def.emissive > 0 {
                let ghost h0 = *hooks;
                hooks.add_emissive(x, y, def.emissive);
                proof {
                    lemma_glow_one(h0, *hooks, glow);
                }
            } else {
                proof {
                    lemma_glow_none(*hooks, glow);
                }
            }
            return (active, 1);
        }
        proof {
            lemma_glow_none(*hooks, glow);
        }
        (active, 0)
    }

    fn finish_chunk(&mut self, ci: usize, active: u32, special: u32)
        requires
            old(self).wf(),
            ci < old(self).n_chunks(),
        ensures
            final(self).wf(),
            final(self).same_frame(old(self)),
            final(self).state() == Frame::finish_chunk(old(self).state(), ci as int, active as int, special as int),
    {
        self.active.set(ci, active);
        if active == 0 && special == 0 {
            self.asleep.set(ci, true);
        }
        proof {
            assert(self.state() =~= Frame::finish_chunk(old(self).state(), ci as int, active as int, special as int));
        }
    }

    /// Runs every pixel of awake chunk `ci` in scan order; answers the active and reactive counts.
    #[verifier::spinoff_prover]
    #[verifier::rlimit(100)]
    fn run_chunk<H: SimHooks>(&mut self, mats: &Materials, tick: u64, ci: usize, hooks: &mut H) -> (r: (u32, u32))
        requires
            old(self).wf(),
            mats.wf(),
            ci < old(self).n_chunks(),
        ensures
            final(self).wf(),
            final(self).same_frame(old(self)),
            r.0 <= 16384,
            r.1 <= 16384,
            (final(self).state(), r.0 as int, r.1 as int) == old(self).frame().chunk_run(*mats, old(self).sim_ids(), tick, old(self).state(), ci as int, 16384),
            old(hooks).hooks_ok() ==> final(hooks).hooks_ok(),
            forall|b: &H, c: Seq<(i32, i32, u8)>| #[trigger] old(hooks).after_calls(b, c)
                ==> final(hooks).after_calls(b, c + old(self).frame().chunk_glow(*mats, old(self).sim_ids(), tick, old(self).state(), ci as int, 16384)),
    {
        proof {
            self.lemma_wf_facts();
            self.lemma_chunk_split(ci as int);
        }
        let ghost f = self.frame();
        let ghost ids = self.ids;
        let ghost s_c = self.state();
        let cw = self.cw as usize;
        let cx = (ci % cw) as i32;
        let cy = (ci / cw) as i32;
        let x0 = cx * 128;
        let y0 = cy * 128;
        let mut active: u32 = 0;
        let mut special: u32 = 0;
        let mut row: usize = 0;
        proof {
            lemma_glow_none(*hooks, f.chunk_glow(*mats, ids, tick, s_c, ci as int, 0));
        }
        while row < 128
            invariant
                self.wf(),
                mats.wf(),
                self.same_frame(old(self)),
                f == old(self).frame(),
                ids == old(self).sim_ids(),
                s_c == old(self).state(),
                0 <= cx < self.cols(),
                0 <= cy < self.rows(),
                cx == ci as int % f.cols,
                cy == ci as int / f.cols,
                x0 == cx * 128,
                y0 == cy * 128,
                row <= 128,
                active <= row * 128,
                special <= row * 128,
                (self.state(), active as int, special as int) == f.chunk_run(*mats, ids, tick, s_c, ci as int, (row * 128) as int),
                old(hooks).hooks_ok() ==> hooks.hooks_ok(),
                forall|b: &H, c: Seq<(i32, i32, u8)>| #[trigger] old(hooks).after_calls(b, c)
                    ==> hooks.after_calls(b, c + f.chunk_glow(*mats, ids, tick, s_c, ci as int, (row * 128) as int)),
            decreases 128 - row,
        {
            let ly = (127 - row) as i32;
            let y = y0 + ly;
            let ltr = ((y as u64) % 2 + tick % 2) % 2 == 0;
            let mut li: usize = 0;
            while li < 128
                invariant
                    self.wf(),
                    mats.wf(),
                    self.same_frame(old(self)),
                    f == old(self).frame(),
                    ids == old(self).sim_ids(),
                    s_c == old(self).state(),
                    0 <= cx < self.cols(),
                    0 <= cy < self.rows(),
                    cx == ci as int % f.cols,
                    cy == ci as int / f.cols,
                    x0 == cx * 128,
                    y0 == cy * 128,
                    row < 128,
                    ly == 127 - row,
                    y == y0 + ly,
                    ltr == ((y + tick) % 2 == 0),
                    li <= 128,
                    active <= row * 128 + li,
                    special <= row * 128 + li,
                    (self.state(), active as int, special as int) == f.chunk_run(*mats, ids, tick, s_c, ci as int, (row * 128 + li) as int),
                    old(hooks).hooks_ok() ==> hooks.hooks_ok(),
                    forall|b: &H, c: Seq<(i32, i32, u8)>| #[trigger] old(hooks).after_calls(b, c)
                        ==> hooks.after_calls(b, c + f.chunk_glow(*mats, ids, tick, s_c, ci as int, (row * 128 + li) as int)),
                decreases 128 - li,
            {
                let lx = if ltr { li as i32 } else { 127 - li as i32 };
                let x = x0 + lx;
                proof {
                    let k = (row * 128 + li) as int;
                    assert(k / 128 == row && k % 128 == li) by {
                        vstd::arithmetic::div_mod::lemma_fundamental_div_mod_converse(k, 128, row as int, li as int);
                    }
                    assert(f.scan_pos(ci as int, k, tick) == (x as int, y as int));
                }
                let ghost h1 = *hooks;
                let ghost st1 = self.state();
                let (da, dsp) = self.step_px(mats, tick, x, y, hooks);
                proof {
                    let k = (row * 128 + li) as int;
                    lemma_glow_chain(*old(hooks), h1, *hooks, f.chunk_glow(*mats, ids, tick, s_c, ci as int, k), f.px_glow(*mats, st1, x as int, y as int));
                    assert(f.chunk_glow(*mats, ids, tick, s_c, ci as int, k + 1) == f.chunk_glow(*mats, ids, tick, s_c, ci as int, k) + f.px_glow(*mats, st1, x as int, y as int));
                }
                active = active + da;
                special = special + dsp;
                li = li + 1;
            }
            proof {
                let k = (row * 128 + 128) as int;
                assert(k == ((row + 1) * 128) as int);
                let g = f.chunk_glow(*mats, ids, tick, s_c, ci as int, k);
                assert(forall|b: &H, c: Seq<(i32, i32, u8)>| #[trigger] old(hooks).after_calls(b, c) ==> hooks.after_calls(b, c + g));
            }
            row = row + 1;
        }
        (active, special)
    }

    /// Simulates one frame.
    pub fn step<H: SimHooks>(&mut self, mats: &Materials, hooks: &mut H)
        requires
            old(self).wf(),
            mats.wf(),
            old(self).state().tick < u64::MAX,
        ensures
            final(self).wf(),
            final(self).same_frame(old(self)),
            final(self).state() == old(self).frame().step_st(*mats, old(self).sim_ids(), old(self).state()),
            old(hooks).hooks_ok() ==> final(hooks).hooks_ok(),
            forall|b: &H, c: Seq<(i32, i32, u8)>| #[trigger] old(hooks).after_calls(b, c)
                ==> final(hooks).after_calls(b, c + old(self).frame().step_glow(*mats, old(self).sim_ids(), old(self).state())),
    {
        proof {
            self.lemma_wf_facts();
            assert(self.n_chunks() * 16384 == self.width() * self.height()) by (nonlinear_arith)
                requires
                    self.width() == self.cols() * 128,
                    self.height() == self.rows() * 128,
            ;
        }
        let tick = self.tick;
        self.tick = tick + 1;
        let ghost f = self.frame();
        let ghost ids = self.ids;
        let ghost s_init = self.state();
        let n = self.asleep.len();
        let mut asleep_count: u32 = 0;
        let mut total: u64 = 0;
        let mut ci: usize = 0;
        proof {
            lemma_glow_none(*hooks, f.world_glow(*mats, ids, tick, s_init, 0));
        }
        while ci < n
            invariant
                self.wf(),
                mats.wf(),
                self.same_frame(old(self)),
                f == old(self).frame(),
                ids == old(self).sim_ids(),
                s_init == (SimState { tick: (old(self).state().tick + 1) as u64, ..old(self).state() }),
                tick == old(self).state().tick,
                n == self.n_chunks(),
                n <= i32::MAX,
                n * 16384 == self.width() * self.height(),
                self.width() * self.height() * 4 <= isize::MAX,
                ci <= n,
                asleep_count <= ci,
                total <= ci * 32768,
                (self.state(), asleep_count as int, total as int) == f.world_run(*mats, ids, tick, s_init, ci as int),
                old(hooks).hooks_ok() ==> hooks.hooks_ok(),
                forall|b: &H, c: Seq<(i32, i32, u8)>| #[trigger] old(hooks).after_calls(b, c)
                    ==> hooks.after_calls(b, c + f.world_glow(*mats, ids, tick, s_init, ci as int)),
            decreases n - ci,
        {
            let ghost h1 = *hooks;
            let ghost st1 = self.state();
            if self.asleep[ci] {
                proof {
                    lemma_glow_none(*hooks, Seq::<(i32, i32, u8)>::empty());
                    lemma_glow_chain(*old(hooks), h1, *hooks, f.world_glow(*mats, ids, tick, s_init, ci as int), Seq::<(i32, i32, u8)>::empty());
                    assert(f.world_glow(*mats, ids, tick, s_init, ci as int + 1) =~= f.world_glow(*mats, ids, tick, s_init, ci as int) + Seq::<(i32, i32, u8)>::empty());
                }
                asleep_count = asleep_count + 1;
                ci = ci + 1;
                continue;
            }
            let (active, special) = self.run_chunk(mats, tick, ci, hooks);
            proof {
                let g = f.chunk_glow(*mats, ids, tick, st1, ci as int, 16384);
                lemma_glow_chain(*old(hooks), h1, *hooks, f.world_glow(*mats, ids, tick, s_init, ci as int), g);
                assert(f.world_glow(*mats, ids, tick, s_init, ci as int + 1) == f.world_glow(*mats, ids, tick, s_init, ci as int) + g);
            }
            self.finish_chunk(ci, active, special);
            total = total + (active + special) as u64;
            ci = ci + 1;
        }
        self.asleep_chunks = asleep_count;
        self.active_pixels = total;
        proof {
            assert(self.state() =~= f.step_st(*mats, ids, old(self).state()));
        }
    }
}

/// Writing a pixel and reading it back gives what was written; every other pixel keeps
/// its material, shade and lifetime (a 4-neighbour may only lose its settled bit).
pub proof fn law_set_then_get(w: PixelWorld, s: SimState, x: int, y: int, p: Pixel, a: int, b: int)
    requires
        w.in_bounds(x, y),
    ensures
        (w.set_st(s, x, y, p).px)(x, y) == p,
        (a != x || b != y) ==> {
            let q = (w.set_st(s, x, y, p).px)(a, b);
            let o = (s.px)(a, b);
            &&& q.mat == o.mat
            &&& q.shade == o.shade
            &&& q.life == o.life
            &&& (q == o || q == unsettled(o))
        },
{
}

/// Moving never destroys a pixel: after a pixel moves into a cell, the cell's former
/// content (a displaced liquid, say) stands where the mover was, unless that
/// content was empty; the mover keeps its material, shade and lifetime.
pub proof fn law_move_keeps_both(w: PixelWorld, s: SimState, fx: int, fy: int, tx: int, ty: int, p: Pixel)
    requires
        w.in_bounds(fx, fy),
        w.in_bounds(tx, ty),
        fx != tx || fy != ty,
    ensures
        ({
            let t = (s.px)(tx, ty);
            let s2 = w.move_st(s, fx, fy, tx, ty, p);
            &&& (s2.px)(tx, ty) == unsettled(p)
            &&& t.mat != 0 ==> (s2.px)(fx, fy).mat == t.mat && (s2.px)(fx, fy).shade == t.shade
                && (s2.px)(fx, fy).life == t.life
            &&& t.mat == 0 ==> (s2.px)(fx, fy).mat == 0
        }),
{
    let t = (s.px)(tx, ty);
    let back = if t.mat == 0 { empty_px() } else { t };
    let s1 = w.set_st(s, fx, fy, back);
    law_set_then_get(w, s, fx, fy, back, tx, ty);
    law_set_then_get(w, s1, tx, ty, unsettled(p), fx, fy);
}

/// Mining damage accumulates: a blow that does not break a pixel leaves it with
/// its damage grown by the blow's power (up to `MAX_DAMAGE`), so blows keep adding
/// up until they reach the hardness.
pub proof fn law_mine_accumulates(w: PixelWorld, mats: Materials, s: SimState, x: int, y: int, power: u16)
    requires
        w.in_bounds(x, y),
        PixelWorld::mine_target(mats, (s.px)(x, y)),
        PixelWorld::damage_of((s.px)(x, y)) + power < mats.def_spec((s.px)(x, y).mat).hp,
    ensures
        ({
            let (s2, r) = w.mine_st(mats, s, x, y, power);
            let d = PixelWorld::damage_of((s.px)(x, y)) + power;
            &&& r is None
            &&& (s2.px)(x, y).mat == (s.px)(x, y).mat
            &&& PixelWorld::damage_of((s2.px)(x, y)) == (if d < MAX_DAMAGE { d } else { MAX_DAMAGE as int })
        }),
{
    let p = (s.px)(x, y);
    let d = PixelWorld::damage_of(p) + power;
    let c: int = if d < MAX_DAMAGE { d } else { MAX_DAMAGE as int };
    let a0 = p.aux;
    if c < 63 {
        let lo = c as u8;
        assert(((lo << 2u8) | (a0 & 3u8)) >> 2u8 == lo) by (bit_vector)
            requires
                lo < 63,
        ;
    } else {
        assert(((63u8 << 2u8) | (a0 & 3u8)) >> 2u8 == 63u8) by (bit_vector);
    }
}

/// Saving and loading are inverse on what a save keeps: importing the exported bytes
/// gives every pixel back its material and shade (lifetime and flags start over).
pub proof fn law_export_import(w: PixelWorld, s: SimState, x: int, y: int)
    requires
        w.wf(),
        w.in_bounds(x, y),
    ensures
        w.imported_px(w.mat_shade_bytes(s), x, y) == (Pixel { mat: (s.px)(x, y).mat, shade: (s.px)(x, y).shade, life: 0, aux: 0 }),
{
    w.lemma_wf_facts();
    let ww = w.width();
    let i = y * ww + x;
    lemma_index_in_range(ww, w.height(), x, y);
    assert((2 * i) / 2 == i && (2 * i) % 2 == 0 && (2 * i + 1) / 2 == i && (2 * i + 1) % 2 == 1) by (nonlinear_arith)
        requires
            i >= 0,
    ;
    vstd::arithmetic::div_mod::lemma_fundamental_div_mod_converse(i, ww, y, x);
}

/// Loading and saving are inverse the other way round too: once every pixel holds what
/// `import_mat_shade(data)` writes, exporting gives `data` back byte for byte.
pub proof fn law_import_export(w: PixelWorld, s: SimState, data: Seq<u8>)
    requires
        w.wf(),
        data.len() == w.width() * w.height() * 2,
        forall|x: int, y: int| w.in_bounds(x, y) ==> (s.px)(x, y) == w.imported_px(data, x, y),
    ensures
        w.mat_shade_bytes(s) == data,
{
    w.lemma_wf_facts();
    let ww = w.width();
    let hh = w.height();
    let out = w.mat_shade_bytes(s);
    assert forall|k: int| 0 <= k < data.len() implies out[k] == data[k] by {
        let i = k / 2;
        let x = i % ww;
        let y = i / ww;
        assert(0 <= i < ww * hh && (k == 2 * i || k == 2 * i + 1) && (k % 2 == 0 <==> k == 2 * i)) by (nonlinear_arith)
            requires
                0 <= k < ww * hh * 2,
                i == k / 2,
        ;
        assert(0 <= x < ww && 0 <= y < hh && y * ww + x == i) by (nonlinear_arith)
            requires
                0 <= i < ww * hh,
                ww > 0,
                x == i % ww,
                y == i / ww,
        ;
        assert(w.in_bounds(x, y));
    }
    assert(out.len() == data.len()) by (nonlinear_arith)
        requires
            out.len() == 2 * (ww * hh),
            data.len() == ww * hh * 2,
    ;
    assert(out =~= data);
}

/// The simulation is reproducible: two worlds of the same size and ids that agree on
/// every pixel inside and on their chunk flags, generator, tick and counters (as two worlds
/// that `new` made from the same seed, size and materials do) are in the same state, a
/// step takes them to the same state, and it hands their hooks the same glow.
pub proof fn law_step_reproducible(a: PixelWorld, b: PixelWorld, mats: Materials)
    requires
        a.wf(),
        b.wf(),
        a.frame() == b.frame(),
        a.sim_ids() == b.sim_ids(),
        forall|x: int, y: int| a.in_bounds(x, y) ==> a.pixel(x, y) == b.pixel(x, y),
        a.state().asleep == b.state().asleep,
        a.state().active == b.state().active,
        a.state().dirty == b.state().dirty,
        a.state().rng == b.state().rng,
        a.state().tick == b.state().tick,
        a.state().active_pixels == b.state().active_pixels,
        a.state().asleep_chunks == b.state().asleep_chunks,
    ensures
        a.state() == b.state(),
        a.frame().step_st(mats, a.sim_ids(), a.state()) == b.frame().step_st(mats, b.sim_ids(), b.state()),
        a.frame().step_glow(mats, a.sim_ids(), a.state()) == b.frame().step_glow(mats, b.sim_ids(), b.state()),
{
    assert forall|x: int, y: int| #[trigger] (a.state().px)(x, y) == (b.state().px)(x, y) by {
        a.lemma_read_rule(x, y);
        b.lemma_read_rule(x, y);
        if !a.in_bounds(x, y) {
            assert(a.pixel(x, y) == b.pixel(x, y));
        }
    }
    assert(a.state().px =~= b.state().px);
    assert(a.state() =~= b.state());
}

/// Taking the dirty chunks leaves none: a second take right after hands back nothing.
pub proof fn law_take_dirty_twice(w: PixelWorld, n: int)
    ensures
        w.dirty_list(Seq::new(n as nat, |i: int| false), n) == Seq::<(usize, Rect)>::empty(),
    decreases n,
{
    if n > 0 {
        let d = Seq::new(n as nat, |i: int| false);
        assert(w.frame().dirty_list(d, n) == w.frame().dirty_list(d, n - 1));
        lemma_dirty_prefix(w.frame(), d, Seq::new((n - 1) as nat, |i: int| false), n - 1);
        law_take_dirty_twice(w, n - 1);
    }
}

proof fn lemma_dirty_prefix(f: Frame, d: Seq<bool>, e: Seq<bool>, n: int)
    requires
        forall|i: int| 0 <= i < n ==> d[i] == e[i],
    ensures
        f.dirty_list(d, n) == f.dirty_list(e, n),
    decreases n,
{
    if n > 0 {
        lemma_dirty_prefix(f, d, e, n - 1);
    }
}

/// Spawning never overwrites: on an occupied pixel it changes nothing.
pub proof fn law_spawn_keeps_occupied(w: PixelWorld, mats: Materials, s: SimState, x: int, y: int, mat: u8)
    requires
        (s.px)(x, y).mat != 0,
    ensures
        w.spawn_st(mats, s, x, y, mat) == s,
{
}

/// Materials of hardness 0 (bedrock) cannot be mined, whatever the power.
pub proof fn law_unbreakable(w: PixelWorld, mats: Materials, s: SimState, x: int, y: int, power: u16)
    requires
        mats.def_spec((s.px)(x, y).mat).hp == 0,
    ensures
        w.mine_st(mats, s, x, y, power) == (s, None::<u8>),
{
}

} // verus!
