//! How the falling-sand step moves pixels: powders fall straight down or slide
//! diagonally, and powders and liquids that neither react nor glow are only ever moved,
//! so every material keeps its number of pixels.
use vstd::prelude::*;
use crate::materials::{Kind, Materials};
use crate::world::{Frame, PixelWorld, SimIds, SimState, Pixel, settled, unsettled, with_dir_spec, with_rng};

verus! {

/// Material `m` is one a step only moves: empty, the out-of-world marker, or a powder
/// or liquid that neither reacts nor glows.
pub open spec fn plain_mat(mats: Materials, m: u8) -> bool {
    m == 0 || m == 255 || {
        let d = mats.def_spec(m);
        &&& (d.kind == Kind::Powder || d.kind == Kind::Liquid)
        &&& d.special is None
        &&& d.emissive == 0
    }
}

/// 1 when pixel (x, y) holds material `m`, else 0.
pub open spec fn holds(px: spec_fn(int, int) -> Pixel, m: u8, x: int, y: int) -> int {
    if px(x, y).mat == m { 1 } else { 0 }
}

/// Two pixel maps hold the same materials everywhere but at (x0, y0).
pub open spec fn agree_except(p1: spec_fn(int, int) -> Pixel, p2: spec_fn(int, int) -> Pixel, x0: int, y0: int) -> bool {
    forall|x: int, y: int| #![trigger p1(x, y)] #![trigger p2(x, y)] (x != x0 || y != y0) ==> p1(x, y).mat == p2(x, y).mat
}

impl Frame {
    /// How many of the first `n` pixels of row `y` hold material `m`.
    pub open spec fn row_count(&self, px: spec_fn(int, int) -> Pixel, m: u8, y: int, n: int) -> int
        decreases n,
    {
        if n <= 0 {
            0
        } else {
            self.row_count(px, m, y, n - 1) + holds(px, m, n - 1, y)
        }
    }

    /// How many pixels of the first `k` rows hold material `m`.
    pub open spec fn rows_count(&self, px: spec_fn(int, int) -> Pixel, m: u8, k: int) -> int
        decreases k,
    {
        if k <= 0 {
            0
        } else {
            self.rows_count(px, m, k - 1) + self.row_count(px, m, k - 1, self.w)
        }
    }

    /// How many pixels of the world hold material `m`.
    pub open spec fn mat_count(&self, px: spec_fn(int, int) -> Pixel, m: u8) -> int {
        self.rows_count(px, m, self.h)
    }

    /// Every pixel inside holds a plain material, and the pixels outside read as the
    /// world's edge rules give them: the out-of-world marker beside and below, empty or
    /// the marker above.
    pub open spec fn plain_px(&self, mats: Materials, px: spec_fn(int, int) -> Pixel) -> bool {
        &&& forall|x: int, y: int| self.in_bounds(x, y) ==> plain_mat(mats, #[trigger] px(x, y).mat)
        &&& forall|x: int, y: int| !self.in_bounds(x, y) ==> {
            let m = #[trigger] px(x, y).mat;
            &&& (y >= 0 ==> m == 255)
            &&& (m == 0 || m == 255)
        }
    }
}

proof fn lemma_row_count(f: Frame, p1: spec_fn(int, int) -> Pixel, p2: spec_fn(int, int) -> Pixel, m: u8, y: int, n: int, x0: int, y0: int)
    requires
        agree_except(p1, p2, x0, y0),
    ensures
        f.row_count(p2, m, y, n) == f.row_count(p1, m, y, n) + (if y == y0 && 0 <= x0 < n {
            holds(p2, m, x0, y0) - holds(p1, m, x0, y0)
        } else {
            0
        }),
    decreases n,
{
    if n > 0 {
        lemma_row_count(f, p1, p2, m, y, n - 1, x0, y0);
        assert(p1(n - 1, y).mat == p2(n - 1, y).mat || (n - 1 == x0 && y == y0));
    }
}

proof fn lemma_rows_count(f: Frame, p1: spec_fn(int, int) -> Pixel, p2: spec_fn(int, int) -> Pixel, m: u8, k: int, x0: int, y0: int)
    requires
        agree_except(p1, p2, x0, y0),
    ensures
        f.rows_count(p2, m, k) == f.rows_count(p1, m, k) + (if 0 <= y0 < k && 0 <= x0 < f.w {
            holds(p2, m, x0, y0) - holds(p1, m, x0, y0)
        } else {
            0
        }),
    decreases k,
{
    if k > 0 {
        lemma_rows_count(f, p1, p2, m, k - 1, x0, y0);
        lemma_row_count(f, p1, p2, m, k - 1, f.w, x0, y0);
    }
}

/// Changing one pixel changes the count of `m` by what that pixel held and now holds.
proof fn lemma_count_except(f: Frame, p1: spec_fn(int, int) -> Pixel, p2: spec_fn(int, int) -> Pixel, m: u8, x0: int, y0: int)
    requires
        agree_except(p1, p2, x0, y0),
    ensures
        f.mat_count(p2, m) == f.mat_count(p1, m) + (if f.in_bounds(x0, y0) {
            holds(p2, m, x0, y0) - holds(p1, m, x0, y0)
        } else {
            0
        }),
{
    lemma_rows_count(f, p1, p2, m, f.h, x0, y0);
}

/// Plain pixel maps stay plain when one pixel inside changes to a plain material.
proof fn lemma_plain_except(f: Frame, mats: Materials, p1: spec_fn(int, int) -> Pixel, p2: spec_fn(int, int) -> Pixel, x0: int, y0: int)
    requires
        f.plain_px(mats, p1),
        agree_except(p1, p2, x0, y0),
        f.in_bounds(x0, y0),
        plain_mat(mats, p2(x0, y0).mat),
    ensures
        f.plain_px(mats, p2),
{
    assert forall|x: int, y: int| f.in_bounds(x, y) implies plain_mat(mats, #[trigger] p2(x, y).mat) by {
        if x != x0 || y != y0 {
            assert(p1(x, y).mat == p2(x, y).mat);
        }
    }
    assert forall|x: int, y: int| !f.in_bounds(x, y) implies {
        let m = #[trigger] p2(x, y).mat;
        &&& (y >= 0 ==> m == 255)
        &&& (m == 0 || m == 255)
    } by {
        assert(p1(x, y).mat == p2(x, y).mat);
    }
}

/// What `set_st` does to the materials: only the written pixel changes, to the one written.
proof fn lemma_set_mats(f: Frame, s: SimState, x: int, y: int, p: Pixel)
    requires
        f.in_bounds(x, y),
    ensures
        agree_except(s.px, f.set_st(s, x, y, p).px, x, y),
        (f.set_st(s, x, y, p).px)(x, y).mat == p.mat,
{
    let s2 = f.set_st(s, x, y, p);
    assert forall|a: int, b: int| (a != x || b != y) implies #[trigger] (s.px)(a, b).mat == (s2.px)(a, b).mat by {}
}

/// What `patch_st` does to the materials: only the patched pixel changes.
proof fn lemma_patch_mats(f: Frame, s: SimState, x: int, y: int, p: Pixel)
    requires
        f.in_bounds(x, y),
    ensures
        agree_except(s.px, f.patch_st(s, x, y, p).px, x, y),
        (f.patch_st(s, x, y, p).px)(x, y).mat == p.mat,
{
    let s2 = f.patch_st(s, x, y, p);
    assert forall|a: int, b: int| (a != x || b != y) implies #[trigger] (s.px)(a, b).mat == (s2.px)(a, b).mat by {}
}

/// A pixel that may be entered at or below the row of a pixel inside lies inside.
proof fn lemma_enter_inside(f: Frame, mats: Materials, s: SimState, x: int, y: int, kind: Kind, density: u16)
    requires
        f.plain_px(mats, s.px),
        y >= 0,
        PixelWorld::can_enter_spec(mats, s, x, y, kind, density, false),
    ensures
        f.in_bounds(x, y),
{
    if !f.in_bounds(x, y) {
        assert((s.px)(x, y).mat == 255);
    }
}

/// Exchanging two distinct pixels inside keeps every count and keeps the map plain.
proof fn lemma_swap_conserves(f: Frame, mats: Materials, s: SimState, ax: int, ay: int, bx: int, by: int, m: u8)
    requires
        f.plain_px(mats, s.px),
        f.in_bounds(ax, ay),
        f.in_bounds(bx, by),
        ax != bx || ay != by,
    ensures
        f.plain_px(mats, f.swap_st(s, ax, ay, bx, by).px),
        f.mat_count(f.swap_st(s, ax, ay, bx, by).px, m) == f.mat_count(s.px, m),
{
    let a = (s.px)(ax, ay);
    let b = (s.px)(bx, by);
    let s1 = f.set_st(s, ax, ay, b);
    lemma_set_mats(f, s, ax, ay, b);
    lemma_count_except(f, s.px, s1.px, m, ax, ay);
    lemma_plain_except(f, mats, s.px, s1.px, ax, ay);
    let s2 = f.set_st(s1, bx, by, unsettled(a));
    lemma_set_mats(f, s1, bx, by, unsettled(a));
    lemma_count_except(f, s1.px, s2.px, m, bx, by);
    assert((s1.px)(bx, by).mat == b.mat);
    lemma_plain_except(f, mats, s1.px, s2.px, bx, by);
}

/// Moving a pixel to a distinct pixel inside, with what it displaces taking its place,
/// keeps every count and keeps the map plain.
proof fn lemma_move_conserves(f: Frame, mats: Materials, s: SimState, fx: int, fy: int, tx: int, ty: int, p: Pixel, m: u8)
    requires
        f.plain_px(mats, s.px),
        f.in_bounds(fx, fy),
        f.in_bounds(tx, ty),
        fx != tx || fy != ty,
        p.mat == (s.px)(fx, fy).mat,
    ensures
        f.plain_px(mats, f.move_st(s, fx, fy, tx, ty, p).px),
        f.mat_count(f.move_st(s, fx, fy, tx, ty, p).px, m) == f.mat_count(s.px, m),
{
    let t = (s.px)(tx, ty);
    let back = if t.mat == 0 { crate::world::empty_px() } else { t };
    let s1 = f.set_st(s, fx, fy, back);
    lemma_set_mats(f, s, fx, fy, back);
    lemma_count_except(f, s.px, s1.px, m, fx, fy);
    lemma_plain_except(f, mats, s.px, s1.px, fx, fy);
    let s2 = f.set_st(s1, tx, ty, unsettled(p));
    lemma_set_mats(f, s1, tx, ty, unsettled(p));
    lemma_count_except(f, s1.px, s2.px, m, tx, ty);
    assert((s1.px)(tx, ty).mat == t.mat);
    lemma_plain_except(f, mats, s1.px, s2.px, tx, ty);
}

/// A powder move keeps every count and keeps the map plain; without a move only the
/// generator changed.
proof fn lemma_powder_conserves(f: Frame, mats: Materials, s: SimState, x: int, y: int, density: u16, m: u8)
    requires
        f.plain_px(mats, s.px),
        f.in_bounds(x, y),
    ensures
        f.plain_px(mats, f.powder_st(mats, s, x, y, density).0.px),
        f.mat_count(f.powder_st(mats, s, x, y, density).0.px, m) == f.mat_count(s.px, m),
        !f.powder_st(mats, s, x, y, density).1 ==> f.powder_st(mats, s, x, y, density).0.px == s.px,
{
    if PixelWorld::can_enter_spec(mats, s, x, y + 1, Kind::Powder, density, false) {
        lemma_enter_inside(f, mats, s, x, y + 1, Kind::Powder, density);
        lemma_swap_conserves(f, mats, s, x, y, x, y + 1, m);
    } else {
        let (r1, c) = crate::rng::chance_next(s.rng, crate::world::HALF_CHANCE);
        let s1 = with_rng(s, r1);
        let d: int = if c { 1 } else { -1 };
        if PixelWorld::can_enter_spec(mats, s1, x + d, y + 1, Kind::Powder, density, false) {
            lemma_enter_inside(f, mats, s1, x + d, y + 1, Kind::Powder, density);
            lemma_swap_conserves(f, mats, s1, x, y, x + d, y + 1, m);
        } else if PixelWorld::can_enter_spec(mats, s1, x - d, y + 1, Kind::Powder, density, false) {
            lemma_enter_inside(f, mats, s1, x - d, y + 1, Kind::Powder, density);
            lemma_swap_conserves(f, mats, s1, x, y, x - d, y + 1, m);
        }
    }
}

/// Where a liquid slides to is where it started or a pixel it may enter.
proof fn lemma_disperse(mats: Materials, s: SimState, nx: int, y: int, dir: int, density: u16, k: int)
    ensures
        Frame::disperse(mats, s, nx, y, dir, density, k) == nx
            || PixelWorld::can_enter_spec(mats, s, Frame::disperse(mats, s, nx, y, dir, density, k), y, Kind::Liquid, density, false),
    decreases k,
{
    if k > 0 && PixelWorld::can_enter_spec(mats, s, nx + dir, y, Kind::Liquid, density, false)
        && !PixelWorld::can_enter_spec(mats, s, nx + dir, y + 1, Kind::Liquid, density, false) {
        lemma_disperse(mats, s, nx + dir, y, dir, density, k - 1);
    }
}

/// A liquid move keeps every count and keeps the map plain; without a move only the
/// generator changed.
proof fn lemma_liquid_conserves(f: Frame, mats: Materials, s: SimState, x: int, y: int, p: Pixel, density: u16, dispersal: u8, m: u8)
    requires
        f.plain_px(mats, s.px),
        f.in_bounds(x, y),
        p.mat == (s.px)(x, y).mat,
    ensures
        f.plain_px(mats, f.liquid_st(mats, s, x, y, p, density, dispersal).0.px),
        f.mat_count(f.liquid_st(mats, s, x, y, p, density, dispersal).0.px, m) == f.mat_count(s.px, m),
        !f.liquid_st(mats, s, x, y, p, density, dispersal).1 ==> f.liquid_st(mats, s, x, y, p, density, dispersal).0.px == s.px,
{
    if PixelWorld::can_enter_spec(mats, s, x, y + 1, Kind::Liquid, density, false) {
        lemma_enter_inside(f, mats, s, x, y + 1, Kind::Liquid, density);
        lemma_swap_conserves(f, mats, s, x, y, x, y + 1, m);
    } else {
        let (r1, c) = crate::rng::chance_next(s.rng, crate::world::HALF_CHANCE);
        let s1 = with_rng(s, r1);
        let d: int = if c { 1 } else { -1 };
        if PixelWorld::can_enter_spec(mats, s1, x + d, y + 1, Kind::Liquid, density, false) {
            lemma_enter_inside(f, mats, s1, x + d, y + 1, Kind::Liquid, density);
            lemma_swap_conserves(f, mats, s1, x, y, x + d, y + 1, m);
        } else if PixelWorld::can_enter_spec(mats, s1, x - d, y + 1, Kind::Liquid, density, false) {
            lemma_enter_inside(f, mats, s1, x - d, y + 1, Kind::Liquid, density);
            lemma_swap_conserves(f, mats, s1, x, y, x - d, y + 1, m);
        } else {
            let (r2, settle) = crate::rng::chance_next(s1.rng, crate::world::SETTLE_CHANCE);
            let s2 = with_rng(s1, r2);
            if !settle {
                let d0 = crate::world::dir_of(p);
                let ok0 = PixelWorld::can_enter_spec(mats, s2, x + d0, y, Kind::Liquid, density, false);
                let dir = if ok0 { d0 } else { -d0 };
                if ok0 || PixelWorld::can_enter_spec(mats, s2, x + dir, y, Kind::Liquid, density, false) {
                    let steps: int = if dispersal > 1 { dispersal as int } else { 1 };
                    let nx = Frame::disperse(mats, s2, x, y, dir, density, steps);
                    if nx != x {
                        lemma_disperse(mats, s2, x, y, dir, density, steps);
                        lemma_enter_inside(f, mats, s2, nx, y, Kind::Liquid, density);
                        lemma_move_conserves(f, mats, s2, x, y, nx, y, with_dir_spec(p, dir), m);
                    }
                }
            }
        }
    }
}

/// One pixel of a step over a plain map keeps every count and keeps the map plain.
proof fn lemma_px_step_conserves(f: Frame, mats: Materials, ids: SimIds, tick: u64, s: SimState, x: int, y: int, m: u8)
    requires
        f.plain_px(mats, s.px),
    ensures
        f.plain_px(mats, f.px_step(mats, ids, tick, s, x, y).0.px),
        f.mat_count(f.px_step(mats, ids, tick, s, x, y).0.px, m) == f.mat_count(s.px, m),
{
    let p = (s.px)(x, y);
    if p.mat != 0 && p.mat != 255 {
        assert(f.in_bounds(x, y));
        assert(plain_mat(mats, p.mat));
        let def = mats.def_spec(p.mat);
        if !settled(p) {
            let (s1, moved) = if def.kind == Kind::Powder {
                lemma_powder_conserves(f, mats, s, x, y, def.density, m);
                f.powder_st(mats, s, x, y, def.density)
            } else {
                lemma_liquid_conserves(f, mats, s, x, y, p, def.density, def.dispersal, m);
                f.liquid_st(mats, s, x, y, p, def.density, def.dispersal)
            };
            if !moved {
                let q = (s1.px)(x, y);
                let np = Pixel { mat: q.mat, shade: q.shade, life: q.life, aux: q.aux | 1u8 };
                lemma_patch_mats(f, s1, x, y, np);
                lemma_count_except(f, s1.px, f.settle_st(s1, x, y).px, m, x, y);
                lemma_plain_except(f, mats, s1.px, f.settle_st(s1, x, y).px, x, y);
            }
        }
    }
}

/// The first `k` pixels of a chunk over a plain map keep every count and the map plain.
proof fn lemma_chunk_run_conserves(f: Frame, mats: Materials, ids: SimIds, tick: u64, s: SimState, ci: int, k: int, m: u8)
    requires
        f.plain_px(mats, s.px),
    ensures
        f.plain_px(mats, f.chunk_run(mats, ids, tick, s, ci, k).0.px),
        f.mat_count(f.chunk_run(mats, ids, tick, s, ci, k).0.px, m) == f.mat_count(s.px, m),
    decreases k,
{
    if k > 0 {
        lemma_chunk_run_conserves(f, mats, ids, tick, s, ci, k - 1, m);
        let s1 = f.chunk_run(mats, ids, tick, s, ci, k - 1).0;
        let (x, y) = f.scan_pos(ci, k - 1, tick);
        lemma_px_step_conserves(f, mats, ids, tick, s1, x, y, m);
    }
}

/// The first `c` chunks of a step over a plain map keep every count and the map plain.
proof fn lemma_world_run_conserves(f: Frame, mats: Materials, ids: SimIds, tick: u64, s: SimState, c: int, m: u8)
    requires
        f.plain_px(mats, s.px),
    ensures
        f.plain_px(mats, f.world_run(mats, ids, tick, s, c).0.px),
        f.mat_count(f.world_run(mats, ids, tick, s, c).0.px, m) == f.mat_count(s.px, m),
    decreases c,
{
    if c > 0 {
        lemma_world_run_conserves(f, mats, ids, tick, s, c - 1, m);
        let s1 = f.world_run(mats, ids, tick, s, c - 1).0;
        if !s1.asleep[c - 1] {
            lemma_chunk_run_conserves(f, mats, ids, tick, s1, c - 1, 16384, m);
        }
    }
}

/// Pixels are only moved by a step, never made or lost, when every material in the
/// world is a powder or liquid that neither reacts nor glows: each material then covers
/// as many pixels after a step as before (a heavier one trades places with a lighter
/// liquid, a liquid slides into an empty pixel and leaves one behind).
pub proof fn law_step_conserves(w: PixelWorld, mats: Materials, m: u8)
    requires
        w.wf(),
        forall|x: int, y: int| w.in_bounds(x, y) ==> plain_mat(mats, #[trigger] w.pixel(x, y).mat),
    ensures
        w.frame().mat_count(w.frame().step_st(mats, w.sim_ids(), w.state()).px, m) == w.frame().mat_count(w.state().px, m),
{
    let f = w.frame();
    let s = w.state();
    assert forall|x: int, y: int| !f.in_bounds(x, y) implies {
        let mm = #[trigger] (s.px)(x, y).mat;
        &&& (y >= 0 ==> mm == 255)
        &&& (mm == 0 || mm == 255)
    } by {
        w.lemma_read_rule(x, y);
    }
    assert forall|x: int, y: int| f.in_bounds(x, y) implies plain_mat(mats, #[trigger] (s.px)(x, y).mat) by {
        assert(w.in_bounds(x, y));
        assert(plain_mat(mats, w.pixel(x, y).mat));
    }
    let s0 = SimState { tick: (s.tick + 1) as u64, ..s };
    lemma_world_run_conserves(f, mats, w.sim_ids(), s.tick, s0, f.n_chunks(), m);
}


/// What exchanging two distinct pixels inside does to their materials.
proof fn lemma_swap_mats(f: Frame, s: SimState, ax: int, ay: int, bx: int, by: int)
    requires
        f.in_bounds(ax, ay),
        f.in_bounds(bx, by),
        ax != bx || ay != by,
    ensures
        (f.swap_st(s, ax, ay, bx, by).px)(ax, ay).mat == (s.px)(bx, by).mat,
        (f.swap_st(s, ax, ay, bx, by).px)(bx, by).mat == (s.px)(ax, ay).mat,
{
    let a = (s.px)(ax, ay);
    let b = (s.px)(bx, by);
    let s1 = f.set_st(s, ax, ay, b);
    lemma_set_mats(f, s, ax, ay, b);
    lemma_set_mats(f, s1, bx, by, unsettled(a));
    assert((f.set_st(s1, bx, by, unsettled(a)).px)(ax, ay).mat == (s1.px)(ax, ay).mat);
}

/// A pixel of the world a powder may enter at or below row 0 lies inside.
proof fn lemma_world_enter_inside(w: PixelWorld, mats: Materials, x: int, y: int, density: u16)
    requires
        w.wf(),
        y >= 0,
        PixelWorld::can_enter_spec(mats, w.state(), x, y, Kind::Powder, density, false),
    ensures
        w.in_bounds(x, y),
{
    w.lemma_read_rule(x, y);
}

/// Powders fall, else slide: a powder pixel moves straight down when it may enter the
/// pixel below; otherwise it moves into one of the two pixels diagonally below that it may
/// enter, and trades places with what was there; it stays put (only the generator
/// advancing) exactly when all three pixels below are blocked.
pub proof fn law_powder_falls_or_slides(w: PixelWorld, mats: Materials, x: int, y: int, density: u16)
    requires
        w.wf(),
        w.in_bounds(x, y),
    ensures
        ({
            let s = w.state();
            let r = w.frame().powder_st(mats, s, x, y, density);
            let down = PixelWorld::can_enter_spec(mats, s, x, y + 1, Kind::Powder, density, false);
            let left = PixelWorld::can_enter_spec(mats, s, x - 1, y + 1, Kind::Powder, density, false);
            let right = PixelWorld::can_enter_spec(mats, s, x + 1, y + 1, Kind::Powder, density, false);
            &&& r.1 == (down || left || right)
            &&& down ==> (r.0.px)(x, y + 1).mat == (s.px)(x, y).mat && (r.0.px)(x, y).mat == (s.px)(x, y + 1).mat
            &&& !down && (left || right) ==> {
                ||| left && (r.0.px)(x - 1, y + 1).mat == (s.px)(x, y).mat && (r.0.px)(x, y).mat == (s.px)(x - 1, y + 1).mat
                ||| right && (r.0.px)(x + 1, y + 1).mat == (s.px)(x, y).mat && (r.0.px)(x, y).mat == (s.px)(x + 1, y + 1).mat
            }
            &&& !r.1 ==> r.0.px == s.px
        }),
{
    let f = w.frame();
    let s = w.state();
    if PixelWorld::can_enter_spec(mats, s, x, y + 1, Kind::Powder, density, false) {
        lemma_world_enter_inside(w, mats, x, y + 1, density);
        lemma_swap_mats(f, s, x, y, x, y + 1);
    } else {
        let (r1, c) = crate::rng::chance_next(s.rng, crate::world::HALF_CHANCE);
        let s1 = with_rng(s, r1);
        let d: int = if c { 1 } else { -1 };
        if PixelWorld::can_enter_spec(mats, s1, x + d, y + 1, Kind::Powder, density, false) {
            lemma_world_enter_inside(w, mats, x + d, y + 1, density);
            lemma_swap_mats(f, s1, x, y, x + d, y + 1);
        } else if PixelWorld::can_enter_spec(mats, s1, x - d, y + 1, Kind::Powder, density, false) {
            lemma_world_enter_inside(w, mats, x - d, y + 1, density);
            lemma_swap_mats(f, s1, x, y, x - d, y + 1);
        }
    }
}


/// The same in a step: a powder pixel that is not settled and neither reacts nor glows
/// falls straight down when it may, else slides into a pixel diagonally below that it
/// may enter, trading places with what was there; it stays where it is only when all
/// three pixels below are blocked.
pub proof fn law_step_moves_powder(w: PixelWorld, mats: Materials, ids: SimIds, tick: u64, x: int, y: int)
    requires
        w.wf(),
        w.in_bounds(x, y),
        !settled(w.pixel(x, y)),
        w.pixel(x, y).mat != 0,
        w.pixel(x, y).mat != 255,
        mats.def_spec(w.pixel(x, y).mat).kind == Kind::Powder,
        mats.def_spec(w.pixel(x, y).mat).special is None,
        mats.def_spec(w.pixel(x, y).mat).emissive == 0,
    ensures
        ({
            let s = w.state();
            let dn = mats.def_spec(w.pixel(x, y).mat).density;
            let r = w.frame().px_step(mats, ids, tick, s, x, y).0;
            let down = PixelWorld::can_enter_spec(mats, s, x, y + 1, Kind::Powder, dn, false);
            let left = PixelWorld::can_enter_spec(mats, s, x - 1, y + 1, Kind::Powder, dn, false);
            let right = PixelWorld::can_enter_spec(mats, s, x + 1, y + 1, Kind::Powder, dn, false);
            &&& down ==> (r.px)(x, y + 1).mat == (s.px)(x, y).mat && (r.px)(x, y).mat == (s.px)(x, y + 1).mat
            &&& !down && (left || right) ==> {
                ||| left && (r.px)(x - 1, y + 1).mat == (s.px)(x, y).mat && (r.px)(x, y).mat == (s.px)(x - 1, y + 1).mat
                ||| right && (r.px)(x + 1, y + 1).mat == (s.px)(x, y).mat && (r.px)(x, y).mat == (s.px)(x + 1, y + 1).mat
            }
            &&& !(down || left || right) ==> (r.px)(x, y).mat == (s.px)(x, y).mat
        }),
{
    let dn = mats.def_spec(w.pixel(x, y).mat).density;
    law_powder_falls_or_slides(w, mats, x, y, dn);
    let f = w.frame();
    let s = w.state();
    let (s1, moved) = f.powder_st(mats, s, x, y, dn);
    if !moved {
        let q = (s1.px)(x, y);
        lemma_patch_mats(f, s1, x, y, Pixel { mat: q.mat, shade: q.shade, life: q.life, aux: q.aux | 1u8 });
    }
}

} // verus!
