//! Light: a sky channel and a block-light channel on a grid of 4x4-pixel
//! cells, spread by a bucketed, brightest-first flood over the 8-neighbourhood.
use vstd::prelude::*;
use crate::materials::{Kind, Materials};
use crate::world::{PixelWorld, Rect, SimHooks};

verus! {

/// Pixels per light cell, in each direction.
pub const LIGHT_CELL: i32 = 4;

/// Brightness lost per straight step through air, and through a solid cell.
pub const COST_AIR: u8 = 7;
pub const COST_SOLID: u8 = 24;
/// Brightness lost per diagonal step through air, and through a solid cell.
pub const COST_DIAG: u8 = 10;
pub const COST_SOLID_DIAG: u8 = 34;
/// Cells added around a region before it is recomputed (more than 255 / 7).
pub const REGION_MARGIN: i32 = 40;
/// Regions recomputed per call of `relight_regions`.
pub const LIGHT_QUOTA: usize = 3;
/// Pending regions kept at most; older ones are dropped.
pub const MAX_PENDING: usize = 9;
/// Cells around moving lights that a glow update recomputes.
pub const GLOW_REACH: i32 = 26;

/// Brightness `v` after a step that costs `c` (never below zero).
pub open spec fn dim(v: int, c: int) -> int {
    if v > c {
        v - c
    } else {
        0
    }
}

/// Column offset of neighbour direction `k` (left, right, up, down, then the diagonals).
pub open spec fn dir_dx(k: int) -> int {
    if k == 0 || k == 4 || k == 6 {
        -1
    } else if k == 1 || k == 5 || k == 7 {
        1
    } else {
        0
    }
}

/// Row offset of neighbour direction `k`.
pub open spec fn dir_dy(k: int) -> int {
    if k == 2 || k == 4 || k == 5 {
        -1
    } else if k == 3 || k == 6 || k == 7 {
        1
    } else {
        0
    }
}

/// A light grid seen by a flood: `cw` columns and `ch` rows stored row-major,
/// the opacity of each cell, and the box of cells the flood may change.
pub struct Grid {
    pub cw: int,
    pub ch: int,
    pub op: spec_fn(int, int) -> bool,
    pub b: (int, int, int, int),
}

impl Grid {
    pub open spec fn in_box(self, x: int, y: int) -> bool {
        self.b.0 <= x <= self.b.2 && self.b.1 <= y <= self.b.3
    }

    pub open spec fn col(self, i: int) -> int {
        i % self.cw
    }

    pub open spec fn row(self, i: int) -> int {
        i / self.cw
    }

    pub open spec fn idx(self, x: int, y: int) -> int {
        y * self.cw + x
    }

    /// The grid is well formed and the box lies inside it.
    pub open spec fn valid(self) -> bool {
        &&& self.cw >= 1
        &&& self.ch >= 1
        &&& self.cw * self.ch <= i32::MAX
        &&& 0 <= self.b.0
        &&& 0 <= self.b.1
        &&& self.b.2 < self.cw
        &&& self.b.3 < self.ch
    }

    /// Brightness lost entering cell (x, y), straight or diagonally.
    pub open spec fn cost(self, x: int, y: int, diag: bool) -> int {
        if (self.op)(x, y) {
            if diag {
                COST_SOLID_DIAG as int
            } else {
                COST_SOLID as int
            }
        } else {
            if diag {
                COST_DIAG as int
            } else {
                COST_AIR as int
            }
        }
    }

    /// What brightness `v` at cell `i` sends to its neighbour in direction `k` is present in `m`.
    pub open spec fn lit_dir(self, m: Seq<u8>, i: int, v: int, k: int) -> bool {
        let nx = self.col(i) + dir_dx(k);
        let ny = self.row(i) + dir_dy(k);
        self.in_box(nx, ny) ==> m[self.idx(nx, ny)] >= dim(v, self.cost(nx, ny, k >= 4))
    }

    /// Every in-box neighbour of cell `i` is at least as bright as brightness `v` there sends it.
    pub open spec fn lit(self, m: Seq<u8>, i: int, v: int) -> bool {
        &&& self.lit_dir(m, i, v, 0)
        &&& self.lit_dir(m, i, v, 1)
        &&& self.lit_dir(m, i, v, 2)
        &&& self.lit_dir(m, i, v, 3)
        &&& self.lit_dir(m, i, v, 4)
        &&& self.lit_dir(m, i, v, 5)
        &&& self.lit_dir(m, i, v, 6)
        &&& self.lit_dir(m, i, v, 7)
    }

    /// Cells `i` and `n` touch, and `m[n]` is exactly what brightness `v` at `i` sends to `n`.
    pub open spec fn feeds(self, m: Seq<u8>, i: int, v: int, n: int) -> bool {
        let dx = self.col(n) - self.col(i);
        let dy = self.row(n) - self.row(i);
        &&& -1 <= dx <= 1
        &&& -1 <= dy <= 1
        &&& !(dx == 0 && dy == 0)
        &&& m[n] == dim(v, self.cost(self.col(n), self.row(n), dx != 0 && dy != 0))
    }

    /// `m` is the flood of `old` from `seeds` (cell index, brightness): only cells in the
    /// box change, none gets darker; every seed and every brightened cell lights its
    /// neighbours; and every brightened cell holds exactly what a seed or a brightened
    /// neighbour sends it.
    pub open spec fn filled(self, old: Seq<u8>, m: Seq<u8>, seeds: Set<(int, int)>) -> bool {
        &&& m.len() == old.len()
        &&& forall|i: int| 0 <= i < m.len() ==> #[trigger] m[i] >= old[i]
        &&& forall|i: int|
            0 <= i < m.len() && !self.in_box(self.col(i), self.row(i)) ==> #[trigger] m[i] == old[i]
        &&& forall|p: (int, int)| #[trigger] seeds.contains(p) ==> self.lit(m, p.0, p.1)
        &&& forall|i: int|
            0 <= i < m.len() && #[trigger] m[i] > old[i] ==> self.lit(m, i, m[i] as int)
        &&& forall|n: int|
            0 <= n < m.len() && #[trigger] m[n] > old[n] ==> {
                ||| exists|p: (int, int)| #[trigger] seeds.contains(p) && self.feeds(m, p.0, p.1, n)
                ||| exists|i: int| 0 <= i < m.len() && m[i] > old[i] && #[trigger] self.feeds(m, i, m[i] as int, n)
            }
    }
}

/// The seeds of a queue, as (cell index, brightness) pairs.
pub open spec fn seed_set(q: Seq<(u32, u8)>) -> Set<(int, int)> {
    Set::new(|p: (int, int)| exists|t: int| 0 <= t < q.len() && q[t].0 as int == p.0 && q[t].1 as int == p.1)
}

/// Light cell (cx, cy) blocks light: the pixel at its centre is solid and static.
pub open spec fn cell_opaque(pixels: PixelWorld, mats: Materials, cx: int, cy: int) -> bool {
    let d = mats.def_spec(pixels.pixel(cx * 4 + 2, cy * 4 + 2).mat);
    d.kind == Kind::Static && d.solid
}

proof fn lemma_idx(g: Grid, x: int, y: int)
    requires
        g.cw >= 1,
        0 <= x < g.cw,
        0 <= y < g.ch,
    ensures
        0 <= g.idx(x, y) < g.cw * g.ch,
        g.col(g.idx(x, y)) == x,
        g.row(g.idx(x, y)) == y,
{
    assert(0 <= y * g.cw + x < g.cw * g.ch) by (nonlinear_arith)
        requires
            0 <= x < g.cw,
            0 <= y < g.ch,
    ;
    vstd::arithmetic::div_mod::lemma_fundamental_div_mod_converse(y * g.cw + x, g.cw, y, x);
}

proof fn lemma_cell(g: Grid, i: int)
    requires
        g.cw >= 1,
        0 <= i < g.cw * g.ch,
    ensures
        0 <= g.col(i) < g.cw,
        0 <= g.row(i) < g.ch,
        g.idx(g.col(i), g.row(i)) == i,
{
    let q = i / g.cw;
    let r = i % g.cw;
    vstd::arithmetic::div_mod::lemma_fundamental_div_mod(i, g.cw);
    assert(0 <= r < g.cw);
    assert(q * g.cw + r == i) by (nonlinear_arith)
        requires
            i == g.cw * q + r,
    ;
    assert(0 <= q < g.ch) by (nonlinear_arith)
        requires
            q * g.cw + r == i,
            0 <= r < g.cw,
            0 <= i < g.cw * g.ch,
            g.cw >= 1,
    ;
}

proof fn lemma_lit_dir_grow(g: Grid, m: Seq<u8>, m2: Seq<u8>, i: int, v: int, k: int)
    requires
        m2.len() == m.len(),
        forall|j: int| 0 <= j < m.len() ==> #[trigger] m2[j] >= m[j],
        g.valid(),
        m.len() == g.cw * g.ch,
        g.lit_dir(m, i, v, k),
        0 <= g.col(i) < g.cw,
        0 <= g.row(i) < g.ch,
    ensures
        g.lit_dir(m2, i, v, k),
{
    let nx = g.col(i) + dir_dx(k);
    let ny = g.row(i) + dir_dy(k);
    if g.in_box(nx, ny) {
        lemma_idx(g, nx, ny);
    }
}

proof fn lemma_lit_grow(g: Grid, m: Seq<u8>, m2: Seq<u8>, i: int, v: int)
    requires
        m2.len() == m.len(),
        forall|j: int| 0 <= j < m.len() ==> #[trigger] m2[j] >= m[j],
        g.valid(),
        m.len() == g.cw * g.ch,
        0 <= i < m.len(),
        g.lit(m, i, v),
    ensures
        g.lit(m2, i, v),
{
    lemma_cell(g, i);
    lemma_lit_dir_grow(g, m, m2, i, v, 0);
    lemma_lit_dir_grow(g, m, m2, i, v, 1);
    lemma_lit_dir_grow(g, m, m2, i, v, 2);
    lemma_lit_dir_grow(g, m, m2, i, v, 3);
    lemma_lit_dir_grow(g, m, m2, i, v, 4);
    lemma_lit_dir_grow(g, m, m2, i, v, 5);
    lemma_lit_dir_grow(g, m, m2, i, v, 6);
    lemma_lit_dir_grow(g, m, m2, i, v, 7);
}

/// Cells `i` and `n` of the grid are 8-neighbours: `n` lies in some direction `k` from `i`.
proof fn lemma_dir_of(g: Grid, i: int, n: int) -> (k: int)
    requires
        g.cw >= 1,
        0 <= i < g.cw * g.ch,
        0 <= n < g.cw * g.ch,
        -1 <= g.col(n) - g.col(i) <= 1,
        -1 <= g.row(n) - g.row(i) <= 1,
        !(g.col(n) == g.col(i) && g.row(n) == g.row(i)),
    ensures
        0 <= k < 8,
        g.col(i) + dir_dx(k) == g.col(n),
        g.row(i) + dir_dy(k) == g.row(n),
        (k >= 4) == (g.col(n) != g.col(i) && g.row(n) != g.row(i)),
        g.idx(g.col(n), g.row(n)) == n,
{
    lemma_cell(g, i);
    lemma_cell(g, n);
    let dx = g.col(n) - g.col(i);
    let dy = g.row(n) - g.row(i);
    if dy == 0 {
        if dx == -1 { 0 } else { 1 }
    } else if dx == 0 {
        if dy == -1 { 2 } else { 3 }
    } else if dy == -1 {
        if dx == -1 { 4 } else { 5 }
    } else {
        if dx == -1 { 6 } else { 7 }
    }
}

/// Whether light cell (cx, cy) blocks light.
fn is_opaque(pixels: &PixelWorld, mats: &Materials, cx: i32, cy: i32) -> (r: bool)
    requires
        pixels.wf(),
        mats.wf(),
        0 <= cx,
        0 <= cy,
        cx * 4 + 2 <= i32::MAX,
        cy * 4 + 2 <= i32::MAX,
    ensures
        r == cell_opaque(*pixels, *mats, cx as int, cy as int),
{
    let p = pixels.get(cx * LIGHT_CELL + LIGHT_CELL / 2, cy * LIGHT_CELL + LIGHT_CELL / 2);
    let d = mats.def(p.mat);
    d.kind == Kind::Static && d.solid
}

/// Column and row offsets of neighbour direction `k`.
fn neigh(k: usize) -> (r: (i32, i32))
    requires
        k < 8,
    ensures
        r.0 == dir_dx(k as int),
        r.1 == dir_dy(k as int),
{
    if k == 0 {
        (-1, 0)
    } else if k == 1 {
        (1, 0)
    } else if k == 2 {
        (0, -1)
    } else if k == 3 {
        (0, 1)
    } else if k == 4 {
        (-1, -1)
    } else if k == 5 {
        (1, -1)
    } else if k == 6 {
        (-1, 1)
    } else {
        (1, 1)
    }
}

/// A flood over `g` is well set up: grid, box, opacity and buffers agree.
pub open spec fn flood_ready(g: Grid, cw: i32, b: (i32, i32, i32, i32), pixels: PixelWorld, mats: Materials) -> bool {
    &&& g.valid()
    &&& g.cw == cw as int
    &&& g.b == (b.0 as int, b.1 as int, b.2 as int, b.3 as int)
    &&& g.op == (|x: int, y: int| cell_opaque(pixels, mats, x, y))
    &&& g.cw * 4 + 2 <= i32::MAX
    &&& g.ch * 4 + 2 <= i32::MAX
    &&& pixels.wf()
    &&& mats.wf()
}

/// Sends brightness `lv` of cell `e` to its neighbour in direction `k`; answers the cell it
/// brightened, if any (which then also joins the bucket of its new brightness).
fn relax(
    map: &mut Vec<u8>,
    bk: &mut Vec<Vec<u32>>,
    e: u32,
    lv: u8,
    k: usize,
    cw: i32,
    b: (i32, i32, i32, i32),
    pixels: &PixelWorld,
    mats: &Materials,
    Ghost(g): Ghost<Grid>,
) -> (r: Option<usize>)
    requires
        flood_ready(g, cw, b, *pixels, *mats),
        old(map)@.len() == g.cw * g.ch,
        old(bk)@.len() == 256,
        (e as int) < g.cw * g.ch,
        1 <= lv,
        k < 8,
    ensures
        final(map)@.len() == old(map)@.len(),
        final(bk)@.len() == 256,
        g.lit_dir(final(map)@, e as int, lv as int, k as int),
        r is None ==> final(map)@ == old(map)@ && final(bk)@ == old(bk)@,
        r matches Some(ni) ==> {
            let nv = final(map)@[ni as int];
            &&& ni < old(map)@.len()
            &&& g.in_box(g.col(ni as int), g.row(ni as int))
            &&& old(map)@[ni as int] < nv < lv
            &&& final(map)@ == old(map)@.update(ni as int, nv)
            &&& g.feeds(final(map)@, e as int, lv as int, ni as int)
            &&& forall|k2: int|
                0 <= k2 < 256 ==> #[trigger] final(bk)@[k2]@ == if k2 == nv as int {
                    old(bk)@[k2]@.push(ni as u32)
                } else {
                    old(bk)@[k2]@
                }
        },
{
    proof {
        lemma_cell(g, e as int);
    }
    let x = (e as i32) % cw;
    let y = (e as i32) / cw;
    let d = neigh(k);
    let nx = x + d.0;
    let ny = y + d.1;
    if nx < b.0 || ny < b.1 || nx > b.2 || ny > b.3 {
        return None;
    }
    proof {
        lemma_idx(g, nx as int, ny as int);
    }
    let ni = (ny * cw + nx) as usize;
    let solid = is_opaque(pixels, mats, nx, ny);
    let c: u8 = if k < 4 {
        if solid { COST_SOLID } else { COST_AIR }
    } else {
        if solid { COST_SOLID_DIAG } else { COST_DIAG }
    };
    let nv: u8 = if lv > c { lv - c } else { 0 };
    assert(nv as int == dim(lv as int, g.cost(nx as int, ny as int, k >= 4)));
    if nv > map[ni] {
        let ghost m0 = map@;
        let ghost b0 = bk@;
        map.set(ni, nv);
        let mut cell: Vec<u32> = Vec::new();
        std::mem::swap(&mut cell, &mut bk[nv as usize]);
        cell.push(ni as u32);
        bk.set(nv as usize, cell);
        proof {
            assert(map@ == m0.update(ni as int, nv));
            assert forall|k2: int| 0 <= k2 < 256 implies #[trigger] bk@[k2]@ == if k2 == nv as int {
                b0[k2]@.push(ni as u32)
            } else {
                b0[k2]@
            } by {}
        }
        Some(ni)
    } else {
        None
    }
}

/// Queue entry `e` stands in the bucket of brightness `k` for a reason: it is a seed of
/// that brightness, or a brightened cell at least that bright.
spec fn entry_ok(old: Seq<u8>, m: Seq<u8>, q: Seq<(u32, u8)>, e: int, k: int) -> bool {
    &&& 0 <= e < m.len()
    &&& (exists|t: int| 0 <= t < q.len() && #[trigger] q[t] == (e as u32, k as u8) && 0 <= k < 256)
        || (m[e] > old[e] && m[e] >= k)
}

spec fn frame_ok(g: Grid, old: Seq<u8>, m: Seq<u8>) -> bool {
    &&& m.len() == old.len()
    &&& forall|i: int| 0 <= i < m.len() ==> #[trigger] m[i] >= old[i]
    &&& forall|i: int| 0 <= i < m.len() && !g.in_box(g.col(i), g.row(i)) ==> #[trigger] m[i] == old[i]
}

spec fn buckets_sound(old: Seq<u8>, m: Seq<u8>, q: Seq<(u32, u8)>, bk: Seq<Vec<u32>>) -> bool {
    &&& bk.len() == 256
    &&& forall|k: int, j: int|
        0 <= k < 256 && 0 <= j < bk[k]@.len() ==> entry_ok(old, m, q, #[trigger] bk[k]@[j] as int, k)
}

/// Every seed and every brightened cell of brightness 1..=lv waits in its bucket.
spec fn buckets_hold(old: Seq<u8>, m: Seq<u8>, q: Seq<(u32, u8)>, bk: Seq<Vec<u32>>, lv: int) -> bool {
    &&& forall|t: int| 0 <= t < q.len() && 1 <= q[t].1 <= lv ==> bk[q[t].1 as int]@.contains(#[trigger] q[t].0)
    &&& forall|i: int|
        0 <= i < m.len() && m[i] > old[i] && m[i] <= lv ==> #[trigger] bk[m[i] as int]@.contains(i as u32)
}

/// Seeds and brightened cells brighter than `lv` have lit their neighbours.
spec fn closed_above(g: Grid, old: Seq<u8>, m: Seq<u8>, q: Seq<(u32, u8)>, lv: int) -> bool {
    &&& forall|t: int| 0 <= t < q.len() && q[t].1 > lv ==> g.lit(m, (#[trigger] q[t]).0 as int, q[t].1 as int)
    &&& forall|i: int| 0 <= i < m.len() && #[trigger] m[i] > old[i] && m[i] > lv ==> g.lit(m, i, m[i] as int)
}

/// Every brightened cell was fed by a seed, or by a brightened cell at most as bright as it is now.
spec fn justified(g: Grid, old: Seq<u8>, m: Seq<u8>, q: Seq<(u32, u8)>) -> bool {
    forall|n: int|
        0 <= n < m.len() && #[trigger] m[n] > old[n] ==> {
            ||| exists|t: int| 0 <= t < q.len() && #[trigger] g.feeds(m, q[t].0 as int, q[t].1 as int, n)
            ||| exists|i: int, v: int| 0 <= i < m.len() && m[i] > old[i] && v <= m[i] && #[trigger] g.feeds(m, i, v, n)
        }
}

/// State of the flood while the bucket of brightness `lv` is worked off from `cur`.
spec fn level_inv(
    g: Grid,
    old: Seq<u8>,
    m: Seq<u8>,
    q: Seq<(u32, u8)>,
    bk: Seq<Vec<u32>>,
    cur: Seq<u32>,
    lv: int,
) -> bool {
    &&& g.valid()
    &&& old.len() == g.cw * g.ch
    &&& 1 <= lv <= 255
    &&& forall|t: int| 0 <= t < q.len() ==> (#[trigger] q[t]).0 < old.len()
    &&& frame_ok(g, old, m)
    &&& buckets_sound(old, m, q, bk)
    &&& buckets_hold(old, m, q, bk, lv - 1)
    &&& forall|j: int| 0 <= j < cur.len() ==> entry_ok(old, m, q, #[trigger] cur[j] as int, lv)
    &&& forall|t: int| 0 <= t < q.len() && q[t].1 == lv ==> cur.contains(#[trigger] q[t].0)
    &&& forall|i: int| 0 <= i < m.len() && m[i] > old[i] && m[i] == lv ==> #[trigger] cur.contains(i as u32)
    &&& closed_above(g, old, m, q, lv)
    &&& justified(g, old, m, q)
}

/// A write by `relax` keeps the level state, and what was lit stays lit.
proof fn lemma_write_keeps(
    g: Grid,
    old: Seq<u8>,
    m: Seq<u8>,
    m2: Seq<u8>,
    q: Seq<(u32, u8)>,
    bk: Seq<Vec<u32>>,
    bk2: Seq<Vec<u32>>,
    cur: Seq<u32>,
    lv: int,
    e: int,
    ni: int,
)
    requires
        level_inv(g, old, m, q, bk, cur, lv),
        entry_ok(old, m, q, e, lv),
        0 <= ni < m.len(),
        g.in_box(g.col(ni), g.row(ni)),
        m[ni] < m2[ni] < lv,
        m2 == m.update(ni, m2[ni]),
        g.feeds(m2, e, lv, ni),
        bk2.len() == 256,
        forall|k2: int|
            0 <= k2 < 256 ==> #[trigger] bk2[k2]@ == if k2 == m2[ni] as int {
                bk[k2]@.push(ni as u32)
            } else {
                bk[k2]@
            },
    ensures
        level_inv(g, old, m2, q, bk2, cur, lv),
        forall|j: int| 0 <= j < m.len() ==> #[trigger] m2[j] >= m[j],
{
    let nv = m2[ni];
    assert forall|j: int| 0 <= j < m.len() implies #[trigger] m2[j] >= m[j] by {}
    assert forall|k: int, j: int| 0 <= k < 256 && 0 <= j < bk2[k]@.len() implies entry_ok(
        old,
        m2,
        q,
        #[trigger] bk2[k]@[j] as int,
        k,
    ) by {
        if k == nv as int && j == bk[k]@.len() {
        } else {
            assert(bk2[k]@[j] == bk[k]@[j]);
            assert(entry_ok(old, m, q, bk[k]@[j] as int, k));
        }
    }
    assert forall|t: int| 0 <= t < q.len() && 1 <= q[t].1 <= lv - 1 implies bk2[q[t].1 as int]@.contains(
        #[trigger] q[t].0,
    ) by {
        let kk = q[t].1 as int;
        assert(bk[kk]@.contains(q[t].0));
        if kk == nv as int {
            let w = choose|w: int| 0 <= w < bk[kk]@.len() && bk[kk]@[w] == q[t].0;
            assert(bk2[kk]@[w] == q[t].0);
        }
    }
    assert forall|i: int| 0 <= i < m2.len() && m2[i] > old[i] && m2[i] <= lv - 1 implies #[trigger] bk2[m2[i] as int]@.contains(
        i as u32,
    ) by {
        if i == ni {
            assert(bk2[nv as int]@[bk[nv as int]@.len() as int] == ni as u32);
        } else {
            let kk = m[i] as int;
            assert(bk[kk]@.contains(i as u32));
            if kk == nv as int {
                let w = choose|w: int| 0 <= w < bk[kk]@.len() && bk[kk]@[w] == i as u32;
                assert(bk2[kk]@[w] == i as u32);
            }
        }
    }
    assert forall|j: int| 0 <= j < cur.len() implies entry_ok(old, m2, q, #[trigger] cur[j] as int, lv) by {
        assert(entry_ok(old, m, q, cur[j] as int, lv));
    }
    assert forall|i: int| 0 <= i < m2.len() && m2[i] > old[i] && m2[i] == lv implies #[trigger] cur.contains(
        i as u32,
    ) by {
        assert(m[i] == m2[i]);
    }
    assert forall|t: int| 0 <= t < q.len() && q[t].1 > lv implies g.lit(m2, (#[trigger] q[t]).0 as int, q[t].1 as int) by {
        lemma_lit_grow(g, m, m2, q[t].0 as int, q[t].1 as int);
    }
    assert forall|i: int| 0 <= i < m2.len() && #[trigger] m2[i] > old[i] && m2[i] > lv implies g.lit(m2, i, m2[i] as int) by {
        assert(m[i] == m2[i]);
        lemma_lit_grow(g, m, m2, i, m[i] as int);
    }
    assert forall|n: int| 0 <= n < m2.len() && #[trigger] m2[n] > old[n] implies {
        ||| exists|t: int| 0 <= t < q.len() && #[trigger] g.feeds(m2, q[t].0 as int, q[t].1 as int, n)
        ||| exists|i: int, v: int| 0 <= i < m2.len() && m2[i] > old[i] && v <= m2[i] && #[trigger] g.feeds(m2, i, v, n)
    } by {
        if n == ni {
            if exists|t: int| 0 <= t < q.len() && #[trigger] q[t] == (e as u32, lv as u8) && 0 <= lv < 256 {
                let t = choose|t: int| 0 <= t < q.len() && #[trigger] q[t] == (e as u32, lv as u8) && 0 <= lv < 256;
                assert(g.feeds(m2, q[t].0 as int, q[t].1 as int, n));
            } else {
                assert(e != ni);
                assert(g.feeds(m2, e, lv, n));
            }
        } else {
            assert(m2[n] == m[n]);
            if exists|t: int| 0 <= t < q.len() && #[trigger] g.feeds(m, q[t].0 as int, q[t].1 as int, n) {
                let t = choose|t: int| 0 <= t < q.len() && #[trigger] g.feeds(m, q[t].0 as int, q[t].1 as int, n);
                assert(g.feeds(m2, q[t].0 as int, q[t].1 as int, n));
            } else {
                let (i, v) = choose|i: int, v: int| 0 <= i < m.len() && m[i] > old[i] && v <= m[i] && #[trigger] g.feeds(m, i, v, n);
                assert(g.feeds(m2, i, v, n));
            }
        }
    }
}

/// Some seed before position `t` of the queue is (e, k).
spec fn exists_seed(q: Seq<(u32, u8)>, t: int, e: u32, k: int) -> bool {
    exists|t2: int| 0 <= t2 < t && #[trigger] q[t2] == (e, k as u8)
}

/// State of the flood between levels: everything brighter than `lv` is done.
spec fn top_inv(g: Grid, old: Seq<u8>, m: Seq<u8>, q: Seq<(u32, u8)>, bk: Seq<Vec<u32>>, lv: int) -> bool {
    &&& g.valid()
    &&& old.len() == g.cw * g.ch
    &&& 0 <= lv <= 255
    &&& forall|t: int| 0 <= t < q.len() ==> (#[trigger] q[t]).0 < old.len()
    &&& frame_ok(g, old, m)
    &&& buckets_sound(old, m, q, bk)
    &&& buckets_hold(old, m, q, bk, lv)
    &&& closed_above(g, old, m, q, lv)
    &&& justified(g, old, m, q)
}

proof fn lemma_level_start(
    g: Grid,
    old: Seq<u8>,
    m: Seq<u8>,
    q: Seq<(u32, u8)>,
    bk: Seq<Vec<u32>>,
    bk2: Seq<Vec<u32>>,
    cur: Seq<u32>,
    lv: int,
)
    requires
        top_inv(g, old, m, q, bk, lv),
        1 <= lv,
        cur == bk[lv]@,
        bk2.len() == 256,
        bk2[lv]@.len() == 0,
        forall|k: int| 0 <= k < 256 && k != lv ==> #[trigger] bk2[k] == bk[k],
    ensures
        level_inv(g, old, m, q, bk2, cur, lv),
{
    assert forall|k: int, j: int| 0 <= k < 256 && 0 <= j < bk2[k]@.len() implies entry_ok(
        old,
        m,
        q,
        #[trigger] bk2[k]@[j] as int,
        k,
    ) by {
        assert(bk2[k] == bk[k]);
        assert(entry_ok(old, m, q, bk[k]@[j] as int, k));
    }
    assert forall|t: int| 0 <= t < q.len() && 1 <= q[t].1 <= lv - 1 implies bk2[q[t].1 as int]@.contains(
        #[trigger] q[t].0,
    ) by {
        assert(bk2[q[t].1 as int] == bk[q[t].1 as int]);
    }
    assert forall|i: int| 0 <= i < m.len() && m[i] > old[i] && m[i] <= lv - 1 implies #[trigger] bk2[m[i] as int]@.contains(
        i as u32,
    ) by {
        assert(bk2[m[i] as int] == bk[m[i] as int]);
    }
    assert forall|j: int| 0 <= j < cur.len() implies entry_ok(old, m, q, #[trigger] cur[j] as int, lv) by {
        assert(entry_ok(old, m, q, bk[lv]@[j] as int, lv));
    }
}

proof fn lemma_level_done(
    g: Grid,
    old: Seq<u8>,
    m: Seq<u8>,
    q: Seq<(u32, u8)>,
    bk: Seq<Vec<u32>>,
    cur: Seq<u32>,
    lv: int,
)
    requires
        level_inv(g, old, m, q, bk, cur, lv),
        forall|j: int| 0 <= j < cur.len() ==> g.lit(m, #[trigger] cur[j] as int, lv),
    ensures
        top_inv(g, old, m, q, bk, lv - 1),
{
    assert forall|t: int| 0 <= t < q.len() && q[t].1 > lv - 1 implies g.lit(m, (#[trigger] q[t]).0 as int, q[t].1 as int) by {
        if q[t].1 == lv {
            assert(cur.contains(q[t].0));
            let j = choose|j: int| 0 <= j < cur.len() && cur[j] == q[t].0;
            assert(g.lit(m, cur[j] as int, lv));
        }
    }
    assert forall|i: int| 0 <= i < m.len() && #[trigger] m[i] > old[i] && m[i] > lv - 1 implies g.lit(m, i, m[i] as int) by {
        if m[i] == lv {
            assert(cur.contains(i as u32));
            let j = choose|j: int| 0 <= j < cur.len() && cur[j] == i as u32;
            assert(g.lit(m, cur[j] as int, lv));
        }
    }
}

proof fn lemma_lit_zero(g: Grid, m: Seq<u8>, i: int)
    requires
        g.valid(),
        m.len() == g.cw * g.ch,
        0 <= i < m.len(),
    ensures
        g.lit(m, i, 0),
{
    assert forall|k: int| 0 <= k < 8 implies #[trigger] g.lit_dir(m, i, 0, k) by {
        let nx = g.col(i) + dir_dx(k);
        let ny = g.row(i) + dir_dy(k);
        if g.in_box(nx, ny) {
            lemma_idx(g, nx, ny);
        }
    }
    assert(g.lit_dir(m, i, 0, 0));
    assert(g.lit_dir(m, i, 0, 1));
    assert(g.lit_dir(m, i, 0, 2));
    assert(g.lit_dir(m, i, 0, 3));
    assert(g.lit_dir(m, i, 0, 4));
    assert(g.lit_dir(m, i, 0, 5));
    assert(g.lit_dir(m, i, 0, 6));
    assert(g.lit_dir(m, i, 0, 7));
}

proof fn lemma_flood_done(g: Grid, old: Seq<u8>, m: Seq<u8>, q: Seq<(u32, u8)>, bk: Seq<Vec<u32>>)
    requires
        top_inv(g, old, m, q, bk, 0),
    ensures
        g.filled(old, m, seed_set(q)),
{
    assert forall|p: (int, int)| #[trigger] seed_set(q).contains(p) implies g.lit(m, p.0, p.1) by {
        let t = choose|t: int| 0 <= t < q.len() && q[t].0 as int == p.0 && q[t].1 as int == p.1;
        if q[t].1 == 0 {
            lemma_lit_zero(g, m, p.0);
        } else {
            assert(g.lit(m, q[t].0 as int, q[t].1 as int));
        }
    }
    assert forall|n: int| 0 <= n < m.len() && #[trigger] m[n] > old[n] implies {
        ||| exists|p: (int, int)| #[trigger] seed_set(q).contains(p) && g.feeds(m, p.0, p.1, n)
        ||| exists|i: int| 0 <= i < m.len() && m[i] > old[i] && #[trigger] g.feeds(m, i, m[i] as int, n)
    } by {
        if exists|t: int| 0 <= t < q.len() && #[trigger] g.feeds(m, q[t].0 as int, q[t].1 as int, n) {
            let t = choose|t: int| 0 <= t < q.len() && #[trigger] g.feeds(m, q[t].0 as int, q[t].1 as int, n);
            let p = (q[t].0 as int, q[t].1 as int);
            assert(seed_set(q).contains(p));
        } else {
            let (i, v) = choose|i: int, v: int| 0 <= i < m.len() && m[i] > old[i] && v <= m[i] && #[trigger] g.feeds(m, i, v, n);
            assert(g.lit(m, i, m[i] as int));
            lemma_cell(g, n);
            assert(g.in_box(g.col(n), g.row(n)));
            let k = lemma_dir_of(g, i, n);
            assert(g.lit_dir(m, i, m[i] as int, k)) by {
                assert(g.lit_dir(m, i, m[i] as int, 0));
                assert(g.lit_dir(m, i, m[i] as int, 1));
                assert(g.lit_dir(m, i, m[i] as int, 2));
                assert(g.lit_dir(m, i, m[i] as int, 3));
                assert(g.lit_dir(m, i, m[i] as int, 4));
                assert(g.lit_dir(m, i, m[i] as int, 5));
                assert(g.lit_dir(m, i, m[i] as int, 6));
                assert(g.lit_dir(m, i, m[i] as int, 7));
            }
            assert(g.feeds(m, i, m[i] as int, n));
        }
    }
}

/// Light propagation: every seed (cell index, brightness) spreads over the
/// 8-neighbourhood inside box `b`, losing a straight or diagonal step cost that is
/// higher through solid cells; cells are handled brightest first, bucket by bucket,
/// and a cell only changes when it gets brighter.
fn bfs_fill(
    map: &mut Vec<u8>,
    seeds: &Vec<(u32, u8)>,
    cw: i32,
    b: (i32, i32, i32, i32),
    pixels: &PixelWorld,
    mats: &Materials,
    Ghost(g): Ghost<Grid>,
)
    requires
        flood_ready(g, cw, b, *pixels, *mats),
        old(map)@.len() == g.cw * g.ch,
        forall|t: int| 0 <= t < seeds@.len() ==> (#[trigger] seeds@[t]).0 < old(map)@.len(),
    ensures
        g.filled(old(map)@, final(map)@, seed_set(seeds@)),
{
    let ghost old_m = map@;
    let ghost q = seeds@;
    let mut bk: Vec<Vec<u32>> = Vec::new();
    let mut k: usize = 0;
    while k < 256
        invariant
            k <= 256,
            bk@.len() == k,
            forall|j: int| 0 <= j < k ==> (#[trigger] bk@[j])@.len() == 0,
        decreases 256 - k,
    {
        bk.push(Vec::new());
        k = k + 1;
    }
    let mut t: usize = 0;
    while t < seeds.len()
        invariant
            t <= q.len(),
            q == seeds@,
            map@ == old_m,
            old_m.len() == g.cw * g.ch,
            forall|t2: int| 0 <= t2 < q.len() ==> (#[trigger] q[t2]).0 < old_m.len(),
            bk@.len() == 256,
            forall|kk: int, j: int|
                0 <= kk < 256 && 0 <= j < bk@[kk]@.len() ==> #[trigger] exists_seed(q, t as int, bk@[kk]@[j], kk),
            forall|t2: int| 0 <= t2 < t ==> bk@[q[t2].1 as int]@.contains(#[trigger] q[t2].0),
        decreases q.len() - t,
    {
        let (idx, v) = seeds[t];
        let ghost b0 = bk@;
        let mut cell: Vec<u32> = Vec::new();
        std::mem::swap(&mut cell, &mut bk[v as usize]);
        cell.push(idx);
        bk.set(v as usize, cell);
        proof {
            assert forall|kk: int| 0 <= kk < 256 && kk != v as int implies #[trigger] bk@[kk] == b0[kk] by {}
            assert(bk@[v as int]@ == b0[v as int]@.push(idx));
            assert forall|kk: int, j: int| 0 <= kk < 256 && 0 <= j < bk@[kk]@.len() implies #[trigger] exists_seed(q, t + 1, bk@[kk]@[j], kk) by {
                if kk == v as int && j == b0[kk]@.len() {
                    assert(q[t as int] == (bk@[kk]@[j], kk as u8));
                } else {
                    assert(bk@[kk]@[j] == b0[kk]@[j]);
                    assert(exists_seed(q, t as int, b0[kk]@[j], kk));
                    let t2 = choose|t2: int| 0 <= t2 < t && #[trigger] q[t2] == (b0[kk]@[j], kk as u8);
                    assert(q[t2] == (bk@[kk]@[j], kk as u8));
                }
            }
            assert forall|t2: int| 0 <= t2 < t + 1 implies bk@[q[t2].1 as int]@.contains(#[trigger] q[t2].0) by {
                if t2 < t {
                    let kk = q[t2].1 as int;
                    assert(b0[kk]@.contains(q[t2].0));
                    let w = choose|w: int| 0 <= w < b0[kk]@.len() && b0[kk]@[w] == q[t2].0;
                    assert(bk@[kk]@[w] == q[t2].0);
                } else {
                    assert(bk@[v as int]@[b0[v as int]@.len() as int] == idx);
                }
            }
        }
        t = t + 1;
    }
    proof {
        assert forall|kk: int, j: int| 0 <= kk < 256 && 0 <= j < bk@[kk]@.len() implies entry_ok(
            old_m,
            map@,
            q,
            #[trigger] bk@[kk]@[j] as int,
            kk,
        ) by {
            assert(exists_seed(q, t as int, bk@[kk]@[j], kk));
            let t2 = choose|t2: int| 0 <= t2 < t && #[trigger] q[t2] == (bk@[kk]@[j], kk as u8);
            assert(q[t2] == ((bk@[kk]@[j] as int) as u32, kk as u8));
        }
        assert(top_inv(g, old_m, map@, q, bk@, 255));
    }
    let mut lv: usize = 255;
    while lv >= 1
        invariant
            flood_ready(g, cw, b, *pixels, *mats),
            q == seeds@,
            lv <= 255,
            bk@.len() == 256,
            map@.len() == old_m.len(),
            top_inv(g, old_m, map@, q, bk@, lv as int),
        decreases lv,
    {
        let mut cur: Vec<u32> = Vec::new();
        let ghost b0 = bk@;
        std::mem::swap(&mut cur, &mut bk[lv]);
        proof {
            assert forall|kk: int| 0 <= kk < 256 && kk != lv as int implies #[trigger] bk@[kk] == b0[kk] by {}
            lemma_level_start(g, old_m, map@, q, b0, bk@, cur@, lv as int);
        }
        let mut j: usize = 0;
        while j < cur.len()
            invariant
                flood_ready(g, cw, b, *pixels, *mats),
                q == seeds@,
                1 <= lv <= 255,
                j <= cur@.len(),
                bk@.len() == 256,
                map@.len() == old_m.len(),
                level_inv(g, old_m, map@, q, bk@, cur@, lv as int),
                forall|j2: int| 0 <= j2 < j ==> g.lit(map@, #[trigger] cur@[j2] as int, lv as int),
            decreases cur@.len() - j,
        {
            let e = cur[j];
            proof {
                assert(entry_ok(old_m, map@, q, cur@[j as int] as int, lv as int));
            }
            let mut d: usize = 0;
            while d < 8
                invariant
                    flood_ready(g, cw, b, *pixels, *mats),
                    q == seeds@,
                    1 <= lv <= 255,
                    j < cur@.len(),
                    e == cur@[j as int],
                    d <= 8,
                    bk@.len() == 256,
                    map@.len() == old_m.len(),
                    level_inv(g, old_m, map@, q, bk@, cur@, lv as int),
                    entry_ok(old_m, map@, q, e as int, lv as int),
                    forall|j2: int| 0 <= j2 < j ==> g.lit(map@, #[trigger] cur@[j2] as int, lv as int),
                    forall|d2: int| 0 <= d2 < d ==> #[trigger] g.lit_dir(map@, e as int, lv as int, d2),
                decreases 8 - d,
            {
                let ghost m0 = map@;
                let ghost b0 = bk@;
                let r = relax(map, &mut bk, e, lv as u8, d, cw, b, pixels, mats, Ghost(g));
                proof {
                    match r {
                        Some(ni) => {
                            lemma_write_keeps(g, old_m, m0, map@, q, b0, bk@, cur@, lv as int, e as int, ni as int);
                            assert(entry_ok(old_m, map@, q, e as int, lv as int));
                            assert forall|j2: int| 0 <= j2 < j implies g.lit(map@, #[trigger] cur@[j2] as int, lv as int) by {
                                lemma_lit_grow(g, m0, map@, cur@[j2] as int, lv as int);
                            }
                            assert forall|d2: int| 0 <= d2 < d implies #[trigger] g.lit_dir(map@, e as int, lv as int, d2) by {
                                lemma_cell(g, e as int);
                                lemma_lit_dir_grow(g, m0, map@, e as int, lv as int, d2);
                            }
                        },
                        None => {},
                    }
                }
                d = d + 1;
            }
            proof {
                assert(g.lit_dir(map@, e as int, lv as int, 0));
                assert(g.lit_dir(map@, e as int, lv as int, 1));
                assert(g.lit_dir(map@, e as int, lv as int, 2));
                assert(g.lit_dir(map@, e as int, lv as int, 3));
                assert(g.lit_dir(map@, e as int, lv as int, 4));
                assert(g.lit_dir(map@, e as int, lv as int, 5));
                assert(g.lit_dir(map@, e as int, lv as int, 6));
                assert(g.lit_dir(map@, e as int, lv as int, 7));
            }
            j = j + 1;
        }
        proof {
            lemma_level_done(g, old_m, map@, q, bk@, cur@, lv as int);
        }
        lv = lv - 1;
    }
    proof {
        lemma_flood_done(g, old_m, map@, q, bk@);
    }
}

/// Light cell of pixel coordinate `v` (Rust's division, rounding toward zero).
pub open spec fn cell_of(v: int) -> int {
    if v >= 0 {
        v / 4
    } else {
        -((-v) / 4)
    }
}

/// Regions of light cells, by their closed corner coordinates (x0, y0, x1, y1).
pub type CellBox = (i32, i32, i32, i32);

/// Two regions lie closer than twice the margin (light from one can reach the other).
pub open spec fn boxes_near(e: CellBox, n: CellBox) -> bool {
    &&& n.0 <= e.2 + 80
    &&& e.0 <= n.2 + 80
    &&& n.1 <= e.3 + 80
    &&& e.1 <= n.3 + 80
}

/// The smallest region covering both.
pub open spec fn box_union(e: CellBox, n: CellBox) -> CellBox {
    (
        if e.0 <= n.0 { e.0 } else { n.0 },
        if e.1 <= n.1 { e.1 } else { n.1 },
        if e.2 >= n.2 { e.2 } else { n.2 },
        if e.3 >= n.3 { e.3 } else { n.3 },
    )
}

/// Corner coordinates of pending regions stay within what a pixel rectangle can give.
pub open spec fn box_small(e: CellBox) -> bool {
    &&& -0x2000_0000 <= e.0 <= 0x2000_0000
    &&& -0x2000_0000 <= e.1 <= 0x2000_0000
    &&& -0x2000_0000 <= e.2 <= 0x2000_0000
    &&& -0x2000_0000 <= e.3 <= 0x2000_0000
}

/// Glow contributions: no key occurs twice.
pub open spec fn keys_distinct(s: Seq<((i32, i32), u32)>) -> bool {
    forall|a: int, b: int| 0 <= a < b < s.len() ==> (#[trigger] s[a]).0 != (#[trigger] s[b]).0
}

/// Glow contributions after one frame: each value drops to three quarters and those
/// below 24 go, in order.
pub open spec fn decayed(s: Seq<((i32, i32), u32)>) -> Seq<((i32, i32), u32)>
    decreases s.len(),
{
    if s.len() == 0 {
        s
    } else {
        let r = decayed(s.drop_last());
        let v = (s.last().1 as int * 3 / 4) as u32;
        if v >= 24 {
            r.push((s.last().0, v))
        } else {
            r
        }
    }
}

/// Sky and block light on a grid of light cells, with what is pending recomputation.
pub struct LightMap {
    pub cw: i32,
    pub ch: i32,
    pub sky: Vec<u8>,
    pub block: Vec<u8>,
    /// Glow of burning and glowing pixels per key, added by the simulation and
    /// decaying every frame; no key occurs twice.
    pub emissive: Vec<((i32, i32), u32)>,
    /// Cell of the player's faint glow.
    pub player_glow: Option<(i32, i32)>,
    /// Moving lights (cell and brightness), written every frame.
    pub moving_lights: Vec<(i32, i32, u8)>,
    /// Pending regions, each recomputed on its own.
    pub dirty: Vec<CellBox>,
    /// The glow or the moving lights changed: the block channel needs a recompute.
    pub glow_dirty: bool,
    /// The player glow as last marked.
    pub last_glow: Option<(i32, i32)>,
    /// The moving lights as last marked.
    pub last_moving: Vec<(i32, i32, u8)>,
}

impl LightMap {
    pub closed spec fn wf(&self) -> bool {
        &&& self.cw >= 0
        &&& self.ch >= 0
        &&& self.cw * self.ch <= i32::MAX
        &&& self.sky@.len() == self.cw * self.ch
        &&& self.block@.len() == self.cw * self.ch
        &&& keys_distinct(self.emissive@)
        &&& forall|j: int| 0 <= j < self.dirty@.len() ==> box_small(#[trigger] self.dirty@[j])
    }

    /// The centre pixel of every cell has `i32` coordinates (`relight` reads the
    /// pixel there).
    pub open spec fn pixel_sized(&self) -> bool {
        self.cols() * 4 + 2 <= i32::MAX && self.rows() * 4 + 2 <= i32::MAX
    }

    pub open spec fn cols(&self) -> int {
        self.cw as int
    }

    pub open spec fn rows(&self) -> int {
        self.ch as int
    }

    pub open spec fn sky_view(&self) -> Seq<u8> {
        self.sky@
    }

    pub open spec fn block_view(&self) -> Seq<u8> {
        self.block@
    }

    pub open spec fn emissive_view(&self) -> Seq<((i32, i32), u32)> {
        self.emissive@
    }

    pub open spec fn glow_view(&self) -> Option<(i32, i32)> {
        self.player_glow
    }

    pub open spec fn moving_view(&self) -> Seq<(i32, i32, u8)> {
        self.moving_lights@
    }

    /// Pending regions, oldest first.
    pub open spec fn pending(&self) -> Seq<CellBox> {
        self.dirty@
    }

    /// Whether the glow or the moving lights changed since the last glow recompute.
    pub open spec fn glow_pending(&self) -> bool {
        self.glow_dirty
    }

    pub open spec fn last_glow_view(&self) -> Option<(i32, i32)> {
        self.last_glow
    }

    pub open spec fn last_moving_view(&self) -> Seq<(i32, i32, u8)> {
        self.last_moving@
    }

    /// A dark map of `cw` by `ch` cells with nothing pending.
    pub fn new(cw: i32, ch: i32) -> (lm: LightMap)
        requires
            cw >= 0,
            ch >= 0,
            cw * ch <= i32::MAX,
        ensures
            lm.wf(),
            lm.cols() == cw,
            lm.rows() == ch,
            lm.sky_view() == Seq::new((cw * ch) as nat, |i: int| 0u8),
            lm.block_view() == Seq::new((cw * ch) as nat, |i: int| 0u8),
            lm.emissive_view().len() == 0,
            lm.glow_view() is None,
            lm.moving_view().len() == 0,
            lm.pending().len() == 0,
            !lm.glow_pending(),
            lm.last_glow_view() is None,
            lm.last_moving_view().len() == 0,
    {
        proof {
            assert(cw * ch >= 0) by (nonlinear_arith)
                requires
                    cw >= 0,
                    ch >= 0,
            ;
        }
        let n = (cw * ch) as usize;
        let sky = vec![0u8; n];
        let block = vec![0u8; n];
        let lm = LightMap {
            cw,
            ch,
            sky,
            block,
            emissive: Vec::new(),
            player_glow: None,
            moving_lights: Vec::new(),
            dirty: Vec::new(),
            glow_dirty: false,
            last_glow: None,
            last_moving: Vec::new(),
        };
        proof {
            assert(lm.sky@ =~= Seq::new((cw * ch) as nat, |i: int| 0u8));
            assert(lm.block@ =~= Seq::new((cw * ch) as nat, |i: int| 0u8));
        }
        lm
    }

    /// Sky and block light interleaved, cell by cell, for a two-channel texture.
    pub fn build_rg(&self) -> (out: Vec<u8>)
        requires
            self.wf(),
        ensures
            out@.len() == 2 * self.cols() * self.rows(),
            forall|i: int|
                0 <= i < self.cols() * self.rows() ==> #[trigger] rg_at(out@, self.sky_view(), self.block_view(), i),
    {
        let n = (self.cw * self.ch) as usize;
        let mut out: Vec<u8> = Vec::with_capacity(n * 2);
        let mut i: usize = 0;
        while i < n
            invariant
                self.wf(),
                n == self.cw * self.ch,
                i <= n,
                out@.len() == 2 * i,
                forall|j: int| 0 <= j < i ==> out@[2 * j] == #[trigger] self.sky@[j] && out@[2 * j + 1] == self.block@[j],
            decreases n - i,
        {
            out.push(self.sky[i]);
            out.push(self.block[i]);
            i = i + 1;
        }
        proof {
            assert(2 * self.cw * self.ch == 2 * (self.cw * self.ch)) by (nonlinear_arith);
            assert forall|i: int| 0 <= i < self.cols() * self.rows() implies #[trigger] rg_at(out@, self.sky_view(), self.block_view(), i) by {
                assert(out@[2 * i] == self.sky@[i]);
            }
        }
        out
    }

    /// Sky and block light of the cells of `bounds` (closed corners), interleaved row by
    /// row, with the region's origin and size.
    pub fn build_rg_region(&self, bounds: (i32, i32, i32, i32)) -> (r: (u32, u32, u32, u32, Vec<u8>))
        requires
            self.wf(),
            0 <= bounds.0 <= bounds.2 < self.cols(),
            0 <= bounds.1 <= bounds.3 < self.rows(),
        ensures
            r.0 == bounds.0,
            r.1 == bounds.1,
            r.2 == bounds.2 - bounds.0 + 1,
            r.3 == bounds.3 - bounds.1 + 1,
            r.4@.len() == 2 * r.2 * r.3,
            forall|y: int, x: int|
                0 <= y < r.3 && 0 <= x < r.2 ==> #[trigger] rg_cell(
                    r.4@,
                    self.sky_view(),
                    self.block_view(),
                    r.2 as int,
                    self.cols(),
                    bounds.0 as int,
                    bounds.1 as int,
                    x,
                    y,
                ),
    {
        let (ex0, ey0, ex1, ey1) = bounds;
        let w = (ex1 - ex0 + 1) as usize;
        let h = (ey1 - ey0 + 1) as usize;
        proof {
            assert(w * h <= self.cw * self.ch) by (nonlinear_arith)
                requires
                    1 <= w <= self.cw,
                    1 <= h <= self.ch,
            ;
        }
        let mut out: Vec<u8> = Vec::with_capacity(w * h * 2);
        let mut cy = ey0;
        assert(2 * (cy - ey0) * w == 0) by (nonlinear_arith)
            requires
                cy == ey0,
        ;
        while cy <= ey1
            invariant
                self.wf(),
                0 <= ex0 <= ex1 < self.cw,
                0 <= ey0 <= cy <= ey1 + 1,
                ey1 < self.ch,
                w == ex1 - ex0 + 1,
                h == ey1 - ey0 + 1,
                out@.len() == 2 * (cy - ey0) * w,
                forall|y: int, x: int|
                    0 <= y < cy - ey0 && 0 <= x < w ==> #[trigger] rg_cell(
                        out@,
                        self.sky@,
                        self.block@,
                        w as int,
                        self.cw as int,
                        ex0 as int,
                        ey0 as int,
                        x,
                        y,
                    ),
            decreases ey1 + 1 - cy,
        {
            proof {
                lemma_index_fits(self.cw as int, self.ch as int, ex1 as int, cy as int);
            }
            let base = (cy * self.cw) as usize;
            let mut cx = ex0;
            assert(2 * (cy - ey0) * w == 2 * ((cy - ey0) * w + (cx - ex0))) by (nonlinear_arith)
                requires
                    cx == ex0,
            ;
            while cx <= ex1
                invariant
                    self.wf(),
                    0 <= ex0 <= cx <= ex1 + 1,
                    ex1 < self.cw,
                    0 <= ey0 <= cy <= ey1,
                    ey1 < self.ch,
                    base == cy * self.cw,
                    w == ex1 - ex0 + 1,
                    out@.len() == 2 * ((cy - ey0) * w + (cx - ex0)),
                    forall|y: int, x: int|
                        0 <= y < cy - ey0 && 0 <= x < w ==> #[trigger] rg_cell(
                            out@,
                            self.sky@,
                            self.block@,
                            w as int,
                            self.cw as int,
                            ex0 as int,
                            ey0 as int,
                            x,
                            y,
                        ),
                    forall|x: int|
                        0 <= x < cx - ex0 ==> #[trigger] rg_cell(
                            out@,
                            self.sky@,
                            self.block@,
                            w as int,
                            self.cw as int,
                            ex0 as int,
                            ey0 as int,
                            x,
                            cy - ey0,
                        ),
                decreases ex1 + 1 - cx,
            {
                proof {
                    lemma_index_fits(self.cw as int, self.ch as int, cx as int, cy as int);
                }
                let i = base + cx as usize;
                let ghost o0 = out@;
                out.push(self.sky[i]);
                out.push(self.block[i]);
                proof {
                    let o = (cy - ey0) * w + (cx - ex0);
                    assert forall|y: int, x: int| 0 <= y < cy - ey0 && 0 <= x < w implies #[trigger] rg_cell(
                        out@,
                        self.sky@,
                        self.block@,
                        w as int,
                        self.cw as int,
                        ex0 as int,
                        ey0 as int,
                        x,
                        y,
                    ) by {
                        assert(rg_cell(o0, self.sky@, self.block@, w as int, self.cw as int, ex0 as int, ey0 as int, x, y));
                        assert(y * w + x < (cy - ey0) * w) by (nonlinear_arith)
                            requires
                                0 <= y < cy - ey0,
                                0 <= x < w,
                        ;
                    }
                    assert forall|x: int| 0 <= x < cx + 1 - ex0 implies #[trigger] rg_cell(
                        out@,
                        self.sky@,
                        self.block@,
                        w as int,
                        self.cw as int,
                        ex0 as int,
                        ey0 as int,
                        x,
                        cy - ey0,
                    ) by {
                        if x < cx - ex0 {
                            assert(rg_cell(o0, self.sky@, self.block@, w as int, self.cw as int, ex0 as int, ey0 as int, x, cy - ey0));
                        }
                    }
                }
                cx = cx + 1;
            }
            proof {
                assert forall|y: int, x: int| 0 <= y < cy + 1 - ey0 && 0 <= x < w implies #[trigger] rg_cell(
                    out@,
                    self.sky@,
                    self.block@,
                    w as int,
                    self.cw as int,
                    ex0 as int,
                    ey0 as int,
                    x,
                    y,
                ) by {
                    if y == cy - ey0 {
                        assert(rg_cell(out@, self.sky@, self.block@, w as int, self.cw as int, ex0 as int, ey0 as int, x, cy - ey0));
                    }
                }
                assert(2 * ((cy - ey0) * w + w) == 2 * (cy + 1 - ey0) * w) by (nonlinear_arith);
            }
            cy = cy + 1;
        }
        proof {
            assert(2 * (cy - ey0) * w == 2 * w * h) by (nonlinear_arith)
                requires
                    cy - ey0 == h,
            ;
        }
        (ex0 as u32, ey0 as u32, w as u32, h as u32, out)
    }
}

/// Entry `i` of an interleaved buffer holds the sky and block light of cell `i`.
pub open spec fn rg_at(out: Seq<u8>, sky: Seq<u8>, block: Seq<u8>, i: int) -> bool {
    out[2 * i] == sky[i] && out[2 * i + 1] == block[i]
}

/// Output cell (x, y) of a region starting at (b0, b1), `w` wide, holds the sky and block
/// light of its source cell.
pub open spec fn rg_cell(out: Seq<u8>, sky: Seq<u8>, block: Seq<u8>, w: int, cols: int, b0: int, b1: int, x: int, y: int) -> bool {
    &&& out[2 * (y * w + x)] == sky[(b1 + y) * cols + b0 + x]
    &&& out[2 * (y * w + x) + 1] == block[(b1 + y) * cols + b0 + x]
}

proof fn lemma_index_fits(cw: int, ch: int, x: int, y: int)
    requires
        0 <= x < cw,
        0 <= y < ch,
        cw * ch <= i32::MAX,
    ensures
        0 <= y * cw,
        0 <= y * cw + x < cw * ch,
{
    assert(0 <= y * cw) by (nonlinear_arith)
        requires
            0 <= y,
            0 <= x < cw,
    ;
    assert(y * cw + x < cw * ch) by (nonlinear_arith)
        requires
            0 <= x < cw,
            0 <= y < ch,
    ;
}

/// The cells a pixel rectangle covers, as a region.
pub open spec fn rect_cells(r: Rect) -> CellBox {
    (
        cell_of(r.x as int) as i32,
        cell_of(r.y as int) as i32,
        cell_of(r.x + r.w - 1) as i32,
        cell_of(r.y + r.h - 1) as i32,
    )
}

/// The first pending region near `n`, if any.
pub open spec fn first_near(d: Seq<CellBox>, n: CellBox, e: int) -> bool {
    &&& 0 <= e < d.len()
    &&& boxes_near(d[e], n)
    &&& forall|j: int| 0 <= j < e ==> !boxes_near(#[trigger] d[j], n)
}

/// Key of the light cell of simulation pixel (x, y).
pub open spec fn glow_key(x: i32, y: i32) -> (i32, i32) {
    (cell_of(x as int) as i32, cell_of(y as int) as i32)
}

impl LightMap {
    /// Light values, grid and size are the same.
    pub open spec fn same_light(&self, o: &LightMap) -> bool {
        &&& self.cols() == o.cols()
        &&& self.rows() == o.rows()
        &&& self.sky_view() == o.sky_view()
        &&& self.block_view() == o.block_view()
    }

    /// Glow contributions, player glow and moving lights are the same.
    pub open spec fn same_sources(&self, o: &LightMap) -> bool {
        &&& self.emissive_view() == o.emissive_view()
        &&& self.glow_view() == o.glow_view()
        &&& self.moving_view() == o.moving_view()
    }

    /// What was last seen of the glow, and whether it changed, are the same.
    pub open spec fn same_glow_state(&self, o: &LightMap) -> bool {
        &&& self.glow_pending() == o.glow_pending()
        &&& self.last_glow_view() == o.last_glow_view()
        &&& self.last_moving_view() == o.last_moving_view()
    }

    /// Marks the cells under pixel rectangle `r` for recomputation: the first pending region
    /// closer than twice the margin grows to cover them; with none, they become a region of their own.
    pub fn mark_px_rect(&mut self, r: &Rect)
        requires
            old(self).wf(),
            i32::MIN < r.x + r.w <= i32::MAX,
            i32::MIN < r.y + r.h <= i32::MAX,
        ensures
            final(self).wf(),
            final(self).same_light(old(self)),
            final(self).same_sources(old(self)),
            final(self).same_glow_state(old(self)),
            (forall|j: int| 0 <= j < old(self).pending().len() ==> !boxes_near(#[trigger] old(self).pending()[j], rect_cells(*r)))
                ==> final(self).pending() == old(self).pending().push(rect_cells(*r)),
            forall|e: int| #[trigger] first_near(old(self).pending(), rect_cells(*r), e)
                ==> final(self).pending() == old(self).pending().update(e, box_union(old(self).pending()[e], rect_cells(*r))),
    {
        let x0 = r.x / LIGHT_CELL;
        let y0 = r.y / LIGHT_CELL;
        let x1 = (r.x + r.w - 1) / LIGHT_CELL;
        let y1 = (r.y + r.h - 1) / LIGHT_CELL;
        let nr: CellBox = (x0, y0, x1, y1);
        assert(nr == rect_cells(*r));
        let gap = REGION_MARGIN * 2;
        let mut i: usize = 0;
        while i < self.dirty.len()
            invariant
                self.wf(),
                *self == *old(self),
                nr == rect_cells(*r),
                box_small(nr),
                gap == 80,
                i <= self.dirty@.len(),
                forall|j: int| 0 <= j < i ==> !boxes_near(#[trigger] self.dirty@[j], nr),
            decreases self.dirty@.len() - i,
        {
            let e = self.dirty[i];
            assert(box_small(self.dirty@[i as int]));
            if nr.0 <= e.2 + gap && e.0 <= nr.2 + gap && nr.1 <= e.3 + gap && e.1 <= nr.3 + gap {
                let m: CellBox = (
                    if e.0 <= nr.0 { e.0 } else { nr.0 },
                    if e.1 <= nr.1 { e.1 } else { nr.1 },
                    if e.2 >= nr.2 { e.2 } else { nr.2 },
                    if e.3 >= nr.3 { e.3 } else { nr.3 },
                );
                let ghost d0 = self.dirty@;
                self.dirty.set(i, m);
                proof {
                    assert(first_near(d0, nr, i as int));
                    assert forall|e2: int| #[trigger] first_near(d0, nr, e2) implies e2 == i by {
                        if e2 < i {
                            assert(!boxes_near(d0[e2], nr));
                        } else if e2 > i {
                            assert(!boxes_near(d0[i as int], nr));
                        }
                    }
                    assert forall|j: int| 0 <= j < self.dirty@.len() implies box_small(#[trigger] self.dirty@[j]) by {
                        if j != i {
                            assert(self.dirty@[j] == d0[j]);
                        }
                    }
                }
                return;
            }
            i = i + 1;
        }
        self.dirty.push(nr);
        proof {
            assert forall|e2: int| #[trigger] first_near(old(self).pending(), nr, e2) implies false by {
                assert(!boxes_near(old(self).dirty@[e2], nr));
            }
            assert forall|j: int| 0 <= j < self.dirty@.len() implies box_small(#[trigger] self.dirty@[j]) by {
                if j < old(self).dirty@.len() {
                    assert(self.dirty@[j] == old(self).dirty@[j]);
                }
            }
        }
    }

    /// Notes a change of the player glow or the moving lights since the last one seen: the
    /// block channel then needs a glow recompute, and the current ones become the last seen.
    pub fn mark_glow(&mut self)
        requires
            old(self).wf(),
        ensures
            final(self).wf(),
            final(self).same_light(old(self)),
            final(self).same_sources(old(self)),
            final(self).pending() == old(self).pending(),
            (old(self).glow_view() != old(self).last_glow_view() || old(self).moving_view() != old(self).last_moving_view()) ==> {
                &&& final(self).glow_pending()
                &&& final(self).last_glow_view() == old(self).glow_view()
                &&& final(self).last_moving_view() == old(self).moving_view()
            },
            (old(self).glow_view() == old(self).last_glow_view() && old(self).moving_view() == old(self).last_moving_view())
                ==> final(self).same_glow_state(old(self)),
    {
        let glow_same = match (self.player_glow, self.last_glow) {
            (None, None) => true,
            (Some(a), Some(b)) => a.0 == b.0 && a.1 == b.1,
            _ => false,
        };
        let mut moving_same = self.moving_lights.len() == self.last_moving.len();
        let mut i: usize = 0;
        while moving_same && i < self.moving_lights.len()
            invariant
                *self == *old(self),
                moving_same ==> self.moving_lights@.len() == self.last_moving@.len(),
                i <= self.moving_lights@.len(),
                moving_same ==> forall|j: int| 0 <= j < i ==> #[trigger] self.moving_lights@[j] == self.last_moving@[j],
                !moving_same ==> self.moving_lights@ != self.last_moving@,
            decreases self.moving_lights@.len() - i,
        {
            let a = self.moving_lights[i];
            let b = self.last_moving[i];
            if a.0 != b.0 || a.1 != b.1 || a.2 != b.2 {
                moving_same = false;
                assert(self.moving_lights@[i as int] != self.last_moving@[i as int]);
            }
            i = i + 1;
        }
        if moving_same {
            assert(self.moving_lights@ =~= self.last_moving@);
        }
        if !glow_same || !moving_same {
            self.glow_dirty = true;
            self.last_glow = self.player_glow;
            let mut copy: Vec<(i32, i32, u8)> = Vec::new();
            let mut j: usize = 0;
            while j < self.moving_lights.len()
                invariant
                    j <= self.moving_lights@.len(),
                    self.moving_lights@ == old(self).moving_lights@,
                    copy@ == self.moving_lights@.take(j as int),
                decreases self.moving_lights@.len() - j,
            {
                copy.push(self.moving_lights[j]);
                j = j + 1;
                assert(copy@ =~= self.moving_lights@.take(j as int));
            }
            assert(copy@ =~= self.moving_lights@);
            self.last_moving = copy;
        }
    }

    /// Drops every glow contribution to three quarters and forgets those below 24.
    pub fn decay_emissive(&mut self)
        requires
            old(self).wf(),
        ensures
            final(self).wf(),
            final(self).same_light(old(self)),
            final(self).emissive_view() == decayed(old(self).emissive_view()),
            final(self).glow_view() == old(self).glow_view(),
            final(self).moving_view() == old(self).moving_view(),
            final(self).pending() == old(self).pending(),
            final(self).same_glow_state(old(self)),
    {
        let mut out: Vec<((i32, i32), u32)> = Vec::new();
        let ghost s = self.emissive@;
        let mut i: usize = 0;
        while i < self.emissive.len()
            invariant
                *self == *old(self),
                s == self.emissive@,
                keys_distinct(s),
                i <= s.len(),
                out@ == decayed(s.take(i as int)),
                keys_distinct(out@),
                forall|a: int| 0 <= a < out@.len() ==> exists|j: int| 0 <= j < i && (#[trigger] out@[a]).0 == s[j].0,
            decreases s.len() - i,
        {
            let (k, v) = self.emissive[i];
            let nv = ((v as u64) * 3 / 4) as u32;
            let ghost o0 = out@;
            if nv >= 24 {
                out.push((k, nv));
                proof {
                    assert forall|a: int, b: int| 0 <= a < b < out@.len() implies (#[trigger] out@[a]).0 != (#[trigger] out@[b]).0 by {
                        if b == out@.len() - 1 {
                            let j = choose|j: int| 0 <= j < i && (#[trigger] o0[a]).0 == s[j].0;
                            assert(s[j].0 != s[i as int].0);
                        }
                    }
                    assert forall|a: int| 0 <= a < out@.len() implies exists|j: int| 0 <= j < i + 1 && (#[trigger] out@[a]).0 == s[j].0 by {
                        if a == out@.len() - 1 {
                            assert(out@[a].0 == s[i as int].0);
                        } else {
                            let j = choose|j: int| 0 <= j < i && (#[trigger] o0[a]).0 == s[j].0;
                            assert(out@[a].0 == s[j].0);
                        }
                    }
                }
            }
            proof {
                assert(s.take(i + 1).drop_last() =~= s.take(i as int));
                assert(s.take(i + 1).last() == s[i as int]);
            }
            i = i + 1;
        }
        proof {
            assert(s.take(s.len() as int) =~= s);
        }
        self.emissive = out;
    }
}

/// Index of the first glow contribution for cell `k` at or after `i`, or -1.
pub open spec fn glow_index(e: Seq<((i32, i32), u32)>, k: (i32, i32), i: int) -> int
    decreases e.len() - i,
{
    if i < 0 || i >= e.len() {
        -1
    } else if e[i].0 == k {
        i
    } else {
        glow_index(e, k, i + 1)
    }
}

/// The glow contributions after adding `amount` at pixel (x, y): the entry of its
/// cell grows (saturating at the largest `u32`), or a new entry is appended.
pub open spec fn glow_added(e: Seq<((i32, i32), u32)>, x: i32, y: i32, amount: u8) -> Seq<((i32, i32), u32)> {
    let k = glow_key(x, y);
    let j = glow_index(e, k, 0);
    if j >= 0 {
        e.update(j, (k, if e[j].1 + amount <= u32::MAX { (e[j].1 + amount) as u32 } else { u32::MAX }))
    } else {
        e.push((k, amount as u32))
    }
}

/// The glow contributions after adding each of `calls` (pixel x, pixel y, amount) in order.
pub open spec fn glows_added(e: Seq<((i32, i32), u32)>, calls: Seq<(i32, i32, u8)>) -> Seq<((i32, i32), u32)>
    decreases calls.len(),
{
    if calls.len() == 0 {
        e
    } else {
        let l = calls.last();
        glow_added(glows_added(e, calls.drop_last()), l.0, l.1, l.2)
    }
}

impl SimHooks for LightMap {
    open spec fn hooks_ok(&self) -> bool {
        self.wf()
    }

    /// Everything but the glow contributions is as it was in `before`, and those are
    /// `before`'s with `calls` added.
    open spec fn after_calls(&self, before: &Self, calls: Seq<(i32, i32, u8)>) -> bool {
        &&& self.same_light(before)
        &&& self.glow_view() == before.glow_view()
        &&& self.moving_view() == before.moving_view()
        &&& self.pending() == before.pending()
        &&& self.same_glow_state(before)
        &&& self.emissive_view() == glows_added(before.emissive_view(), calls)
    }

    /// Adds glow `amount` to the contribution of the light cell of pixel (x, y)
    /// (saturating at the largest `u32`).
    fn add_emissive(&mut self, x: i32, y: i32, amount: u8)
        ensures
            final(self).emissive_view() == glow_added(old(self).emissive_view(), x, y, amount),
            old(self).wf() ==> final(self).wf(),
            final(self).same_light(old(self)),
            final(self).glow_view() == old(self).glow_view(),
            final(self).moving_view() == old(self).moving_view(),
            final(self).pending() == old(self).pending(),
            final(self).same_glow_state(old(self)),
    {
        let key = (x / LIGHT_CELL, y / LIGHT_CELL);
        assert(key == glow_key(x, y));
        let mut i: usize = 0;
        while i < self.emissive.len()
            invariant
                *self == *old(self),
                i <= self.emissive@.len(),
                key == glow_key(x, y),
                forall|j: int| 0 <= j < i ==> (#[trigger] self.emissive@[j]).0 != key,
                glow_index(self.emissive@, key, 0) == glow_index(self.emissive@, key, i as int),
            decreases self.emissive@.len() - i,
        {
            let (k, v) = self.emissive[i];
            if k.0 == key.0 && k.1 == key.1 {
                let nv = v.saturating_add(amount as u32);
                let ghost s0 = self.emissive@;
                self.emissive.set(i, (key, nv));
                proof {
                    assert(s0[i as int].0 == key);
                    assert(glow_index(s0, key, i as int) == i);
                    assert(self.emissive@ =~= glow_added(s0, x, y, amount));
                    if old(self).wf() {
                        assert forall|a: int, b: int| 0 <= a < b < self.emissive@.len() implies (#[trigger] self.emissive@[a]).0 != (#[trigger] self.emissive@[b]).0 by {
                            assert(s0[a].0 != s0[b].0);
                        }
                    }
                    assert forall|b: &LightMap, c: Seq<(i32, i32, u8)>| #[trigger] old(self).after_calls(b, c) implies self.after_calls(b, c.push((x, y, amount))) by {
                        assert(c.push((x, y, amount)).drop_last() =~= c);
                    }
                }
                return;
            }
            proof {
                assert(glow_index(self.emissive@, key, i as int) == glow_index(self.emissive@, key, i as int + 1));
            }
            i = i + 1;
        }
        let ghost s0 = self.emissive@;
        self.emissive.push((key, amount as u32));
        proof {
            assert(glow_index(s0, key, s0.len() as int) == -1);
            assert(self.emissive@ =~= glow_added(s0, x, y, amount));
            if old(self).wf() {
                assert forall|a: int, b: int| 0 <= a < b < self.emissive@.len() implies (#[trigger] self.emissive@[a]).0 != (#[trigger] self.emissive@[b]).0 by {
                    if b == self.emissive@.len() - 1 {
                        assert(old(self).emissive@[a].0 != key);
                    }
                }
            }
            assert forall|b: &LightMap, c: Seq<(i32, i32, u8)>| #[trigger] old(self).after_calls(b, c) implies self.after_calls(b, c.push((x, y, amount))) by {
                assert(c.push((x, y, amount)).drop_last() =~= c);
            }
        }
    }
}

/// Cell (x, y) lies in closed box `b`.
pub open spec fn in_cells(b: CellBox, x: int, y: int) -> bool {
    b.0 <= x <= b.2 && b.1 <= y <= b.3
}

/// Cell (x, y) lies on the outer ring of box `e`.
pub open spec fn on_ring(e: CellBox, x: int, y: int) -> bool {
    in_cells(e, x, y) && !(x > e.0 && x < e.2 && y > e.1 && y < e.3)
}

/// The light already on the ring of box `e` that can still spread: (cell, brightness)
/// for ring cells brighter than one air step.
pub open spec fn ring_seeds(cw: int, m: Seq<u8>, e: CellBox) -> Set<(int, int)> {
    Set::new(|p: (int, int)| 0 <= p.0 < m.len() && on_ring(e, p.0 % cw, p.0 / cw) && p.1 == m[p.0] as int && m[p.0] > COST_AIR)
}

/// The part of the ring seeds that a row-major scan meets before cell (cx, cy).
spec fn ring_before(cw: int, m: Seq<u8>, e: CellBox, cx: int, cy: int) -> Set<(int, int)> {
    Set::new(|p: (int, int)| ring_seeds(cw, m, e).contains(p) && (p.0 / cw < cy || (p.0 / cw == cy && p.0 % cw < cx)))
}

proof fn lemma_seed_set_push(q: Seq<(u32, u8)>, x: (u32, u8))
    ensures
        seed_set(q.push(x)) == seed_set(q).insert((x.0 as int, x.1 as int)),
{
    assert forall|p: (int, int)| seed_set(q.push(x)).contains(p) == seed_set(q).insert((x.0 as int, x.1 as int)).contains(p) by {
        if seed_set(q).contains(p) {
            let t = choose|t: int| 0 <= t < q.len() && q[t].0 as int == p.0 && q[t].1 as int == p.1;
            assert(q.push(x)[t] == q[t]);
        }
        if p == (x.0 as int, x.1 as int) {
            assert(q.push(x)[q.len() as int] == x);
        }
        if seed_set(q.push(x)).contains(p) {
            let t = choose|t: int| 0 <= t < q.len() + 1 && q.push(x)[t].0 as int == p.0 && q.push(x)[t].1 as int == p.1;
            if t < q.len() {
                assert(q[t] == q.push(x)[t]);
            }
        }
    }
    assert(seed_set(q.push(x)) =~= seed_set(q).insert((x.0 as int, x.1 as int)));
}

impl LightMap {
    /// Queues the light already on the ring of box `e` of `map` (brighter than one air step),
    /// so that it flows back into the box when the box is recomputed.
    fn seed_ring(&self, map: &Vec<u8>, e: CellBox, queue: &mut Vec<(u32, u8)>)
        requires
            self.wf(),
            map@.len() == self.cw * self.ch,
            0 <= e.0,
            0 <= e.1,
            e.2 < self.cw,
            e.3 < self.ch,
        ensures
            seed_set(final(queue)@) == seed_set(old(queue)@).union(ring_seeds(self.cw as int, map@, e)),
            forall|t: int| 0 <= t < old(queue)@.len() ==> final(queue)@[t] == old(queue)@[t],
            forall|t: int| old(queue)@.len() <= t < final(queue)@.len() ==> (#[trigger] final(queue)@[t]).0 < map@.len(),
            final(queue)@.len() >= old(queue)@.len(),
    {
        let ghost cw = self.cw as int;
        let ghost q0 = queue@;
        let ghost g = Grid { cw: self.cw as int, ch: self.ch as int, op: |x: int, y: int| false, b: (0, 0, 0, 0) };
        let mut cy = e.1;
        proof {
            assert(ring_before(cw, map@, e, e.0 as int, e.1 as int) =~= Set::empty());
            assert(seed_set(q0).union(Set::empty()) =~= seed_set(q0));
        }
        while cy <= e.3
            invariant
                self.wf(),
                map@.len() == self.cw * self.ch,
                cw == self.cw,
                g.cw == cw && g.ch == self.ch,
                0 <= e.0,
                e.2 < self.cw,
                0 <= e.1 <= cy,
                cy <= e.3 + 1 || cy == e.1,
                e.3 < self.ch,
                seed_set(queue@) == seed_set(q0).union(ring_before(cw, map@, e, e.0 as int, cy as int)),
                queue@.len() >= q0.len(),
                forall|t: int| 0 <= t < q0.len() ==> queue@[t] == q0[t],
                forall|t: int| q0.len() <= t < queue@.len() ==> (#[trigger] queue@[t]).0 < map@.len(),
            decreases e.3 + 1 - cy,
        {
            let mut cx = e.0;
            while cx <= e.2
                invariant
                    self.wf(),
                    map@.len() == self.cw * self.ch,
                    cw == self.cw,
                    g.cw == cw && g.ch == self.ch,
                    0 <= e.0 <= cx,
                    cx <= e.2 + 1 || cx == e.0,
                    e.2 < self.cw,
                    0 <= e.1 <= cy <= e.3,
                    e.3 < self.ch,
                    seed_set(queue@) == seed_set(q0).union(ring_before(cw, map@, e, cx as int, cy as int)),
                    queue@.len() >= q0.len(),
                    forall|t: int| 0 <= t < q0.len() ==> queue@[t] == q0[t],
                    forall|t: int| q0.len() <= t < queue@.len() ==> (#[trigger] queue@[t]).0 < map@.len(),
                decreases e.2 + 1 - cx,
            {
                proof {
                    lemma_idx(g, cx as int, cy as int);
                }
                let i = (cy * self.cw + cx) as usize;
                let ghost qb = queue@;
                let ring = !(cx > e.0 && cx < e.2 && cy > e.1 && cy < e.3);
                if ring && map[i] > COST_AIR {
                    queue.push((i as u32, map[i]));
                    proof {
                        lemma_seed_set_push(qb, (i as u32, map@[i as int]));
                    }
                }
                proof {
                    let nxt = ring_before(cw, map@, e, cx + 1, cy as int);
                    let cur = ring_before(cw, map@, e, cx as int, cy as int);
                    assert forall|p: (int, int)| nxt.contains(p) && !cur.contains(p) implies p == (i as int, map@[i as int] as int) by {
                        lemma_cell(g, p.0);
                    }
                    if ring && map@[i as int] > COST_AIR {
                        assert(nxt =~= cur.insert((i as int, map@[i as int] as int)));
                        assert(seed_set(queue@) =~= seed_set(q0).union(nxt));
                    } else {
                        assert(nxt =~= cur);
                    }
                }
                cx = cx + 1;
            }
            proof {
                assert(ring_before(cw, map@, e, cx as int, cy as int) =~= ring_before(cw, map@, e, e.0 as int, cy + 1)) by {
                    assert forall|p: (int, int)| ring_before(cw, map@, e, e.0 as int, cy + 1).contains(p) implies ring_before(cw, map@, e, cx as int, cy as int).contains(p) by {
                        lemma_cell(g, p.0);
                    }
                    assert forall|p: (int, int)| ring_before(cw, map@, e, cx as int, cy as int).contains(p) implies ring_before(cw, map@, e, e.0 as int, cy + 1).contains(p) by {
                        lemma_cell(g, p.0);
                    }
                }
            }
            cy = cy + 1;
        }
        proof {
            assert(ring_before(cw, map@, e, e.0 as int, cy as int) =~= ring_seeds(cw, map@, e)) by {
                assert forall|p: (int, int)| ring_seeds(cw, map@, e).contains(p) implies ring_before(cw, map@, e, e.0 as int, cy as int).contains(p) by {
                    lemma_cell(g, p.0);
                }
            }
        }
    }
}

/// Brightness a glow contribution gives its cell: its low byte, but at least 160.
pub open spec fn glow_level(v: u32) -> int {
    let b = v as int % 256;
    if b < 160 {
        160
    } else {
        b
    }
}

/// A block-light source sits at cell (cx, cy) with brightness `v`: a torch (at pixel
/// coordinates, 255), a glow contribution (at the cell its key names), the player
/// glow (72) or a moving light.
pub open spec fn source_at(
    torches: Seq<(i32, i32)>,
    em: Seq<((i32, i32), u32)>,
    glow: Option<(i32, i32)>,
    moving: Seq<(i32, i32, u8)>,
    cx: int,
    cy: int,
    v: int,
) -> bool {
    ||| exists|t: int|
        0 <= t < torches.len() && cell_of((#[trigger] torches[t]).0 as int) == cx && cell_of(torches[t].1 as int) == cy && v == 255
    ||| exists|e: int|
        0 <= e < em.len() && (#[trigger] em[e]).0.0 == cx && em[e].0.1 == cy && v == glow_level(em[e].1)
    ||| (glow matches Some(gp) && gp.0 == cx && gp.1 == cy && v == 72)
    ||| exists|l: int| 0 <= l < moving.len() && (#[trigger] moving[l]).0 == cx && moving[l].1 == cy && v == moving[l].2
}

/// Seeding state: inside box `ib`, every cell of `m` holds the brightest of its value in
/// `before` and the sources `src` put on it; outside nothing changed. The queue kept its
/// first entries and gained, for every brightened cell, that cell with its new value,
/// and nothing that is not a brightening inside the box.
pub open spec fn seed_inv(
    cw: int,
    ib: CellBox,
    src: spec_fn(int, int, int) -> bool,
    before: Seq<u8>,
    m: Seq<u8>,
    q0: Seq<(u32, u8)>,
    q: Seq<(u32, u8)>,
) -> bool {
    &&& m.len() == before.len()
    &&& forall|i: int| 0 <= i < m.len() && !in_cells(ib, i % cw, i / cw) ==> #[trigger] m[i] == before[i]
    &&& forall|i: int|
        0 <= i < m.len() && in_cells(ib, i % cw, i / cw) ==> {
            &&& #[trigger] m[i] >= before[i]
            &&& forall|v: int| #[trigger] src(i % cw, i / cw, v) ==> v <= m[i]
            &&& (m[i] == before[i] || src(i % cw, i / cw, m[i] as int))
        }
    &&& q.len() >= q0.len()
    &&& forall|t: int| 0 <= t < q0.len() ==> #[trigger] q[t] == q0[t]
    &&& forall|t: int|
        q0.len() <= t < q.len() ==> {
            let i = (#[trigger] q[t]).0 as int;
            &&& i < m.len()
            &&& in_cells(ib, i % cw, i / cw)
            &&& before[i] < q[t].1 <= m[i]
        }
    &&& forall|i: int|
        0 <= i < m.len() && in_cells(ib, i % cw, i / cw) && #[trigger] m[i] > before[i] ==> exists|t: int|
            q0.len() <= t < q.len() && #[trigger] q[t] == (i as u32, m[i])
}

/// Closed-interval membership.
fn cx_ok(v: i32, lo: i32, hi: i32) -> (r: bool)
    ensures
        r == (lo <= v <= hi),
{
    v >= lo && v <= hi
}

/// Offers brightness `v` to cell (cx, cy): inside box `ib` a darker cell takes it and is queued.
fn offer(
    block: &mut Vec<u8>,
    queue: &mut Vec<(u32, u8)>,
    cw: i32,
    ch: i32,
    ib: CellBox,
    cx: i32,
    cy: i32,
    v: u8,
    Ghost(src): Ghost<spec_fn(int, int, int) -> bool>,
    Ghost(before): Ghost<Seq<u8>>,
    Ghost(q0): Ghost<Seq<(u32, u8)>>,
)
    requires
        cw >= 1,
        ch >= 1,
        cw * ch <= i32::MAX,
        0 <= ib.0,
        0 <= ib.1,
        ib.2 < cw,
        ib.3 < ch,
        old(block)@.len() == cw * ch,
        seed_inv(cw as int, ib, src, before, old(block)@, q0, old(queue)@),
    ensures
        seed_inv(
            cw as int,
            ib,
            |x: int, y: int, w: int| src(x, y, w) || (x == cx && y == cy && w == v),
            before,
            final(block)@,
            q0,
            final(queue)@,
        ),
{
    let ghost g = Grid { cw: cw as int, ch: ch as int, op: |x: int, y: int| false, b: (0, 0, 0, 0) };
    let ghost src2 = |x: int, y: int, w: int| src(x, y, w) || (x == cx && y == cy && w == v);
    let ghost m0 = block@;
    let ghost qa = queue@;
    if !cx_ok(cx, ib.0, ib.2) || !cx_ok(cy, ib.1, ib.3) {
        proof {
            assert forall|i: int| 0 <= i < m0.len() && in_cells(ib, i % (cw as int), i / (cw as int)) implies {
                &&& #[trigger] m0[i] >= before[i]
                &&& forall|w: int| #[trigger] src2(i % (cw as int), i / (cw as int), w) ==> w <= m0[i]
                &&& (m0[i] == before[i] || src2(i % (cw as int), i / (cw as int), m0[i] as int))
            } by {
                assert forall|w: int| #[trigger] src2(i % (cw as int), i / (cw as int), w) implies w <= m0[i] by {
                    assert(src(i % (cw as int), i / (cw as int), w));
                }
            }
        }
        return;
    }
    proof {
        lemma_idx(g, cx as int, cy as int);
    }
    let i = (cy * cw + cx) as usize;
    if block[i] < v {
        block.set(i, v);
        queue.push((i as u32, v));
        proof {
            let m1 = block@;
            let q1 = queue@;
            assert forall|j: int| 0 <= j < m1.len() && in_cells(ib, j % (cw as int), j / (cw as int)) implies {
                &&& #[trigger] m1[j] >= before[j]
                &&& forall|w: int| #[trigger] src2(j % (cw as int), j / (cw as int), w) ==> w <= m1[j]
                &&& (m1[j] == before[j] || src2(j % (cw as int), j / (cw as int), m1[j] as int))
            } by {
                if j == i {
                    assert forall|w: int| #[trigger] src2(j % (cw as int), j / (cw as int), w) implies w <= m1[j] by {
                        if src(j % (cw as int), j / (cw as int), w) {
                            assert(w <= m0[j]);
                        }
                    }
                } else {
                    lemma_cell(g, j);
                    assert(m1[j] == m0[j]);
                    assert forall|w: int| #[trigger] src2(j % (cw as int), j / (cw as int), w) implies w <= m1[j] by {
                        assert(src(j % (cw as int), j / (cw as int), w));
                    }
                    if m0[j] != before[j] {
                        assert(src(j % (cw as int), j / (cw as int), m0[j] as int));
                    }
                }
            }
            assert forall|t: int| q0.len() <= t < q1.len() implies {
                let k = (#[trigger] q1[t]).0 as int;
                &&& k < m1.len()
                &&& in_cells(ib, k % (cw as int), k / (cw as int))
                &&& before[k] < q1[t].1 <= m1[k]
            } by {
                if t < qa.len() {
                    assert(q1[t] == qa[t]);
                }
            }
            assert forall|j: int| 0 <= j < m1.len() && in_cells(ib, j % (cw as int), j / (cw as int)) && #[trigger] m1[j] > before[j] implies exists|t: int|
                q0.len() <= t < q1.len() && #[trigger] q1[t] == (j as u32, m1[j]) by {
                if j == i {
                    assert(q1[qa.len() as int] == (j as u32, m1[j]));
                } else {
                    assert(m1[j] == m0[j]);
                    let t = choose|t: int| q0.len() <= t < qa.len() && #[trigger] qa[t] == (j as u32, m0[j]);
                    assert(q1[t] == qa[t]);
                }
            }
            assert forall|t: int| 0 <= t < q0.len() implies #[trigger] q1[t] == q0[t] by {
                assert(q1[t] == qa[t]);
            }
        }
    } else {
        proof {
            assert forall|j: int| 0 <= j < m0.len() && in_cells(ib, j % (cw as int), j / (cw as int)) implies {
                &&& #[trigger] m0[j] >= before[j]
                &&& forall|w: int| #[trigger] src2(j % (cw as int), j / (cw as int), w) ==> w <= m0[j]
                &&& (m0[j] == before[j] || src2(j % (cw as int), j / (cw as int), m0[j] as int))
            } by {
                assert forall|w: int| #[trigger] src2(j % (cw as int), j / (cw as int), w) implies w <= m0[j] by {
                    if !src(j % (cw as int), j / (cw as int), w) {
                        lemma_cell(g, j);
                        assert(j == i);
                    }
                }
            }
        }
    }
}

/// The block-light sources as a relation of cell and brightness.
pub open spec fn sources(
    torches: Seq<(i32, i32)>,
    em: Seq<((i32, i32), u32)>,
    glow: Option<(i32, i32)>,
    moving: Seq<(i32, i32, u8)>,
) -> spec_fn(int, int, int) -> bool {
    |x: int, y: int, w: int| source_at(torches, em, glow, moving, x, y, w)
}

proof fn lemma_torch_step(
    tor: Seq<(i32, i32)>,
    t: int,
    em: Seq<((i32, i32), u32)>,
    glow: Option<(i32, i32)>,
    moving: Seq<(i32, i32, u8)>,
)
    requires
        0 <= t < tor.len(),
    ensures
        (|x: int, y: int, w: int| sources(tor.take(t), em, glow, moving)(x, y, w) || (x == cell_of(tor[t].0 as int) && y
            == cell_of(tor[t].1 as int) && w == 255)) =~= sources(tor.take(t + 1), em, glow, moving),
{
    assert forall|x: int, y: int, w: int| #[trigger] source_at(tor.take(t + 1), em, glow, moving, x, y, w) == (source_at(tor.take(t), em, glow, moving, x, y, w)
        || (x == cell_of(tor[t].0 as int) && y == cell_of(tor[t].1 as int) && w == 255)) by {
        let a = tor.take(t);
        let b = tor.take(t + 1);
        if exists|k: int| 0 <= k < b.len() && cell_of((#[trigger] b[k]).0 as int) == x && cell_of(b[k].1 as int) == y && w == 255 {
            let k = choose|k: int| 0 <= k < b.len() && cell_of((#[trigger] b[k]).0 as int) == x && cell_of(b[k].1 as int) == y && w == 255;
            if k < t {
                assert(a[k] == b[k]);
            }
        }
        if exists|k: int| 0 <= k < a.len() && cell_of((#[trigger] a[k]).0 as int) == x && cell_of(a[k].1 as int) == y && w == 255 {
            let k = choose|k: int| 0 <= k < a.len() && cell_of((#[trigger] a[k]).0 as int) == x && cell_of(a[k].1 as int) == y && w == 255;
            assert(a[k] == b[k]);
        }
        if x == cell_of(tor[t].0 as int) && y == cell_of(tor[t].1 as int) && w == 255 {
            assert(b[t] == tor[t]);
        }
    }
}

proof fn lemma_glow_step(
    tor: Seq<(i32, i32)>,
    em: Seq<((i32, i32), u32)>,
    e: int,
    glow: Option<(i32, i32)>,
    moving: Seq<(i32, i32, u8)>,
)
    requires
        0 <= e < em.len(),
    ensures
        (|x: int, y: int, w: int| sources(tor, em.take(e), glow, moving)(x, y, w) || (x == em[e].0.0 && y
            == em[e].0.1 && w == glow_level(em[e].1))) =~= sources(tor, em.take(e + 1), glow, moving),
{
    assert forall|x: int, y: int, w: int| #[trigger] source_at(tor, em.take(e + 1), glow, moving, x, y, w) == (source_at(tor, em.take(e), glow, moving, x, y, w)
        || (x == em[e].0.0 && y == em[e].0.1 && w == glow_level(em[e].1))) by {
        let a = em.take(e);
        let b = em.take(e + 1);
        if exists|k: int| 0 <= k < b.len() && (#[trigger] b[k]).0.0 == x && b[k].0.1 == y && w == glow_level(b[k].1) {
            let k = choose|k: int| 0 <= k < b.len() && (#[trigger] b[k]).0.0 == x && b[k].0.1 == y && w == glow_level(b[k].1);
            if k < e {
                assert(a[k] == b[k]);
            }
        }
        if exists|k: int| 0 <= k < a.len() && (#[trigger] a[k]).0.0 == x && a[k].0.1 == y && w == glow_level(a[k].1) {
            let k = choose|k: int| 0 <= k < a.len() && (#[trigger] a[k]).0.0 == x && a[k].0.1 == y && w == glow_level(a[k].1);
            assert(a[k] == b[k]);
        }
        if x == em[e].0.0 && y == em[e].0.1 && w == glow_level(em[e].1) {
            assert(b[e] == em[e]);
        }
    }
}

proof fn lemma_moving_step(
    tor: Seq<(i32, i32)>,
    em: Seq<((i32, i32), u32)>,
    glow: Option<(i32, i32)>,
    moving: Seq<(i32, i32, u8)>,
    l: int,
)
    requires
        0 <= l < moving.len(),
    ensures
        (|x: int, y: int, w: int| sources(tor, em, glow, moving.take(l))(x, y, w) || (x == moving[l].0 && y == moving[l].1 && w
            == moving[l].2)) =~= sources(tor, em, glow, moving.take(l + 1)),
{
    assert forall|x: int, y: int, w: int| #[trigger] source_at(tor, em, glow, moving.take(l + 1), x, y, w) == (source_at(tor, em, glow, moving.take(l), x, y, w)
        || (x == moving[l].0 && y == moving[l].1 && w == moving[l].2)) by {
        let a = moving.take(l);
        let b = moving.take(l + 1);
        if exists|k: int| 0 <= k < b.len() && (#[trigger] b[k]).0 == x && b[k].1 == y && w == b[k].2 {
            let k = choose|k: int| 0 <= k < b.len() && (#[trigger] b[k]).0 == x && b[k].1 == y && w == b[k].2;
            if k < l {
                assert(a[k] == b[k]);
            }
        }
        if exists|k: int| 0 <= k < a.len() && (#[trigger] a[k]).0 == x && a[k].1 == y && w == a[k].2 {
            let k = choose|k: int| 0 <= k < a.len() && (#[trigger] a[k]).0 == x && a[k].1 == y && w == a[k].2;
            assert(a[k] == b[k]);
        }
        if x == moving[l].0 && y == moving[l].1 && w == moving[l].2 {
            assert(b[l] == moving[l]);
        }
    }
}

impl LightMap {
    /// Puts the block-light sources inside box `ib` on the block channel (a cell keeps the
    /// brightest of what it had and what lands on it) and queues every cell that brightened.
    fn seed_block(&mut self, torches: &[(i32, i32)], ib: CellBox, queue: &mut Vec<(u32, u8)>)
        requires
            old(self).wf(),
            old(self).cw >= 1,
            old(self).ch >= 1,
            0 <= ib.0,
            0 <= ib.1,
            ib.2 < old(self).cw,
            ib.3 < old(self).ch,
        ensures
            final(self).wf(),
            final(self).sky_view() == old(self).sky_view(),
            final(self).cols() == old(self).cols(),
            final(self).rows() == old(self).rows(),
            final(self).same_sources(old(self)),
            final(self).pending() == old(self).pending(),
            final(self).same_glow_state(old(self)),
            seed_inv(
                old(self).cw as int,
                ib,
                sources(torches@, old(self).emissive@, old(self).player_glow, old(self).moving_lights@),
                old(self).block@,
                final(self).block@,
                old(queue)@,
                final(queue)@,
            ),
    {
        let ghost before = self.block@;
        let ghost q0 = queue@;
        let ghost tor = torches@;
        let ghost em = self.emissive@;
        let ghost mv = self.moving_lights@;
        let cw = self.cw;
        let ch = self.ch;
        proof {
            assert(sources(tor.take(0), em.take(0), None, mv.take(0)) =~= |x: int, y: int, w: int| false);
            assert(seed_inv(cw as int, ib, sources(tor.take(0), em.take(0), None, mv.take(0)), before, self.block@, q0, queue@));
        }
        let mut t: usize = 0;
        while t < torches.len()
            invariant
                self.wf(),
                *self == *old(self) || (self.sky == old(self).sky && self.cw == cw && self.ch == ch && self.emissive == old(self).emissive
                    && self.player_glow == old(self).player_glow && self.moving_lights == old(self).moving_lights && self.dirty
                    == old(self).dirty && self.glow_dirty == old(self).glow_dirty && self.last_glow == old(self).last_glow
                    && self.last_moving == old(self).last_moving),
                cw == old(self).cw,
                cw >= 1,
                ch >= 1,
                ch == old(self).ch,
                0 <= ib.0,
                0 <= ib.1,
                ib.2 < cw,
                ib.3 < ch,
                tor == torches@,
                em == self.emissive@,
                mv == self.moving_lights@,
                t <= tor.len(),
                seed_inv(cw as int, ib, sources(tor.take(t as int), em.take(0), None, mv.take(0)), before, self.block@, q0, queue@),
            decreases tor.len() - t,
        {
            let (tx, ty) = torches[t];
            offer(&mut self.block, queue, cw, ch, ib, tx / LIGHT_CELL, ty / LIGHT_CELL, 255, Ghost(sources(tor.take(t as int), em.take(0), None, mv.take(0))), Ghost(before), Ghost(q0));
            proof {
                lemma_torch_step(tor, t as int, em.take(0), None, mv.take(0));
            }
            t = t + 1;
        }
        proof {
            assert(tor.take(tor.len() as int) =~= tor);
        }
        let mut e: usize = 0;
        while e < self.emissive.len()
            invariant
                self.wf(),
                self.sky == old(self).sky && self.cw == cw && self.ch == ch && self.emissive == old(self).emissive
                    && self.player_glow == old(self).player_glow && self.moving_lights == old(self).moving_lights && self.dirty
                    == old(self).dirty && self.glow_dirty == old(self).glow_dirty && self.last_glow == old(self).last_glow
                    && self.last_moving == old(self).last_moving,
                cw == old(self).cw,
                cw >= 1,
                ch >= 1,
                ch == old(self).ch,
                0 <= ib.0,
                0 <= ib.1,
                ib.2 < cw,
                ib.3 < ch,
                em == self.emissive@,
                mv == self.moving_lights@,
                e <= em.len(),
                seed_inv(cw as int, ib, sources(tor, em.take(e as int), None, mv.take(0)), before, self.block@, q0, queue@),
            decreases em.len() - e,
        {
            let (k, v) = self.emissive[e];
            let b = (v % 256) as u8;
            let lvl: u8 = if b < 160 { 160 } else { b };
            let ghost src0 = sources(tor, em.take(e as int), None, mv.take(0));
            let kx = k.0;
            let ky = k.1;
            offer(&mut self.block, queue, cw, ch, ib, kx, ky, lvl, Ghost(src0), Ghost(before), Ghost(q0));
            proof {
                lemma_glow_step(tor, em, e as int, None, mv.take(0));
                assert(kx == em[e as int].0.0 && ky == em[e as int].0.1 && v == em[e as int].1);
                assert(lvl as int == glow_level(em[e as int].1));
                assert((|x: int, y: int, w: int| src0(x, y, w) || (x == kx && y == ky && w == lvl))
                    =~= sources(tor, em.take(e as int + 1), None, mv.take(0)));
            }
            e = e + 1;
        }
        proof {
            assert(em.take(em.len() as int) =~= em);
        }
        match self.player_glow {
            Some((gx, gy)) => {
                let ghost src = sources(tor, em, None, mv.take(0));
                offer(&mut self.block, queue, cw, ch, ib, gx, gy, 72, Ghost(src), Ghost(before), Ghost(q0));
                proof {
                    assert((|x: int, y: int, w: int| src(x, y, w) || (x == gx && y == gy && w == 72)) =~= sources(tor, em, self.player_glow, mv.take(0)));
                }
            },
            None => {
                assert(sources(tor, em, None, mv.take(0)) =~= sources(tor, em, self.player_glow, mv.take(0)));
            },
        }
        let mut l: usize = 0;
        while l < self.moving_lights.len()
            invariant
                self.wf(),
                self.sky == old(self).sky && self.cw == cw && self.ch == ch && self.emissive == old(self).emissive
                    && self.player_glow == old(self).player_glow && self.moving_lights == old(self).moving_lights && self.dirty
                    == old(self).dirty && self.glow_dirty == old(self).glow_dirty && self.last_glow == old(self).last_glow
                    && self.last_moving == old(self).last_moving,
                cw == old(self).cw,
                cw >= 1,
                ch >= 1,
                ch == old(self).ch,
                0 <= ib.0,
                0 <= ib.1,
                ib.2 < cw,
                ib.3 < ch,
                mv == self.moving_lights@,
                l <= mv.len(),
                seed_inv(cw as int, ib, sources(tor, em, self.player_glow, mv.take(l as int)), before, self.block@, q0, queue@),
            decreases mv.len() - l,
        {
            let (lx, ly, lv) = self.moving_lights[l];
            offer(&mut self.block, queue, cw, ch, ib, lx, ly, lv, Ghost(sources(tor, em, self.player_glow, mv.take(l as int))), Ghost(before), Ghost(q0));
            proof {
                let src = sources(tor, em, self.player_glow, mv.take(l as int));
                lemma_moving_step(tor, em, self.player_glow, mv, l as int);
                assert((|x: int, y: int, w: int| src(x, y, w) || (x == lx && y == ly && w == lv)) =~= sources(tor, em, self.player_glow, mv.take(l + 1)));
            }
            l = l + 1;
        }
        proof {
            assert(mv.take(mv.len() as int) =~= mv);
        }
    }
}

/// Column `cx` is open to the sky from the top row down to row `cy`.
pub open spec fn exposed(op: spec_fn(int, int) -> bool, cx: int, cy: int) -> bool {
    forall|y: int| 0 <= y <= cy ==> !#[trigger] op(cx, y)
}

/// Sky seeds of box `ib`: its cells open to the sky, at full brightness.
pub open spec fn sky_seeds(g: Grid, ib: CellBox) -> Set<(int, int)> {
    Set::new(|p: (int, int)| 0 <= p.0 < g.cw * g.ch && in_cells(ib, g.col(p.0), g.row(p.0)) && exposed(g.op, g.col(p.0), g.row(p.0)) && p.1 == 255)
}

/// The sky with the cells of box `ib` reset: full brightness where open to the sky, dark elsewhere.
pub open spec fn sky_reset(g: Grid, sky: Seq<u8>, ib: CellBox) -> Seq<u8> {
    Seq::new(sky.len(), |i: int| if in_cells(ib, g.col(i), g.row(i)) {
        if exposed(g.op, g.col(i), g.row(i)) { 255u8 } else { 0u8 }
    } else {
        sky[i]
    })
}

/// `m` with the cells of box `ib` dark.
pub open spec fn cleared(g: Grid, m: Seq<u8>, ib: CellBox) -> Seq<u8> {
    Seq::new(m.len(), |i: int| if in_cells(ib, g.col(i), g.row(i)) { 0u8 } else { m[i] })
}

/// Block light `after` is `before` with the sources `src` put on the cells of box `ib`:
/// each such cell holds the brightest of its old value and what lands on it.
pub open spec fn block_seeded(cw: int, ib: CellBox, src: spec_fn(int, int, int) -> bool, before: Seq<u8>, after: Seq<u8>) -> bool {
    &&& after.len() == before.len()
    &&& forall|i: int| 0 <= i < after.len() && !in_cells(ib, i % cw, i / cw) ==> #[trigger] after[i] == before[i]
    &&& forall|i: int|
        0 <= i < after.len() && in_cells(ib, i % cw, i / cw) ==> {
            &&& #[trigger] after[i] >= before[i]
            &&& forall|v: int| #[trigger] src(i % cw, i / cw, v) ==> v <= after[i]
            &&& (after[i] == before[i] || src(i % cw, i / cw, after[i] as int))
        }
}

/// The cells of box `ib` that seeding brightened, with their new brightness.
pub open spec fn brightened(cw: int, ib: CellBox, before: Seq<u8>, after: Seq<u8>) -> Set<(int, int)> {
    Set::new(|p: (int, int)| 0 <= p.0 < after.len() && in_cells(ib, p.0 % cw, p.0 / cw) && after[p.0] > before[p.0] && p.1 == after[p.0] as int)
}

/// Seeds that are outdone by a kept seed of the same cell change nothing a flood does.
proof fn lemma_filled_dominated(g: Grid, old: Seq<u8>, m: Seq<u8>, s: Set<(int, int)>, t: Set<(int, int)>)
    requires
        g.valid(),
        old.len() == g.cw * g.ch,
        g.filled(old, m, s),
        t.subset_of(s),
        forall|p: (int, int)| #[trigger] s.contains(p) ==> 0 <= p.0 < old.len(),
        forall|p: (int, int)| #[trigger] s.contains(p) && !t.contains(p) ==> exists|p2: (int, int)| #[trigger] t.contains(p2) && p2.0 == p.0 && p2.1 >= p.1,
    ensures
        g.filled(old, m, t),
{
    assert forall|n: int| 0 <= n < m.len() && #[trigger] m[n] > old[n] implies {
        ||| exists|p: (int, int)| #[trigger] t.contains(p) && g.feeds(m, p.0, p.1, n)
        ||| exists|i: int| 0 <= i < m.len() && m[i] > old[i] && #[trigger] g.feeds(m, i, m[i] as int, n)
    } by {
        if exists|p: (int, int)| #[trigger] s.contains(p) && g.feeds(m, p.0, p.1, n) {
            let p = choose|p: (int, int)| #[trigger] s.contains(p) && g.feeds(m, p.0, p.1, n);
            if !t.contains(p) {
                let p2 = choose|p2: (int, int)| #[trigger] t.contains(p2) && p2.0 == p.0 && p2.1 >= p.1;
                assert(g.lit(m, p2.0, p2.1));
                lemma_cell(g, n);
                let k = lemma_dir_of(g, p.0, n);
                assert(g.lit_dir(m, p2.0, p2.1, k)) by {
                    assert(g.lit_dir(m, p2.0, p2.1, 0));
                    assert(g.lit_dir(m, p2.0, p2.1, 1));
                    assert(g.lit_dir(m, p2.0, p2.1, 2));
                    assert(g.lit_dir(m, p2.0, p2.1, 3));
                    assert(g.lit_dir(m, p2.0, p2.1, 4));
                    assert(g.lit_dir(m, p2.0, p2.1, 5));
                    assert(g.lit_dir(m, p2.0, p2.1, 6));
                    assert(g.lit_dir(m, p2.0, p2.1, 7));
                }
                assert(g.feeds(m, p2.0, p2.1, n));
            }
        }
    }
}

/// A seeding followed by a flood, seen through its canonical seeds.
proof fn lemma_seeded_flood(
    g: Grid,
    ib: CellBox,
    src: spec_fn(int, int, int) -> bool,
    before: Seq<u8>,
    after: Seq<u8>,
    q0: Seq<(u32, u8)>,
    q: Seq<(u32, u8)>,
    extra: Set<(int, int)>,
    m: Seq<u8>,
)
    requires
        g.valid(),
        before.len() == g.cw * g.ch,
        q0.len() == 0,
        seed_inv(g.cw, ib, src, before, after, q0, q),
        g.filled(after, m, seed_set(q).union(extra)),
        forall|p: (int, int)| #[trigger] extra.contains(p) ==> 0 <= p.0 < before.len(),
    ensures
        block_seeded(g.cw, ib, src, before, after),
        g.filled(after, m, brightened(g.cw, ib, before, after).union(extra)),
{
    let s = seed_set(q).union(extra);
    let t = brightened(g.cw, ib, before, after).union(extra);
    assert forall|p: (int, int)| #[trigger] t.contains(p) implies s.contains(p) by {
        if brightened(g.cw, ib, before, after).contains(p) {
            let k = choose|k: int| q0.len() <= k < q.len() && #[trigger] q[k] == (p.0 as u32, after[p.0]);
            assert(seed_set(q).contains(p));
        }
    }
    assert forall|p: (int, int)| #[trigger] s.contains(p) implies 0 <= p.0 < before.len() by {
        if seed_set(q).contains(p) {
            let k = choose|k: int| 0 <= k < q.len() && q[k].0 as int == p.0 && q[k].1 as int == p.1;
            assert(q0.len() <= k);
        }
    }
    assert forall|p: (int, int)| #[trigger] s.contains(p) && !t.contains(p) implies exists|p2: (int, int)| #[trigger] t.contains(p2) && p2.0 == p.0 && p2.1 >= p.1 by {
        let k = choose|k: int| 0 <= k < q.len() && q[k].0 as int == p.0 && q[k].1 as int == p.1;
        assert(q0.len() <= k);
        let i = q[k].0 as int;
        assert(before[i] < q[k].1 <= after[i]);
        let p2 = (i, after[i] as int);
        assert(brightened(g.cw, ib, before, after).contains(p2));
        assert(t.contains(p2));
    }
    assert(t.subset_of(s));
    lemma_filled_dominated(g, after, m, s, t);
}

/// The light grid of a map of `cols` by `rows` cells over a pixel world, for box `b`.
pub open spec fn grid_of(cols: int, rows: int, pixels: PixelWorld, mats: Materials, b: CellBox) -> Grid {
    Grid { cw: cols, ch: rows, op: |x: int, y: int| cell_opaque(pixels, mats, x, y), b: (b.0 as int, b.1 as int, b.2 as int, b.3 as int) }
}

/// Sky seeds of box `ib` met by a column scan before column `cx`, and in column `cx` above row `cy`.
spec fn sky_before(g: Grid, ib: CellBox, cx: int, cy: int) -> Set<(int, int)> {
    Set::new(|p: (int, int)| sky_seeds(g, ib).contains(p) && (g.col(p.0) < cx || (g.col(p.0) == cx && g.row(p.0) < cy)))
}

/// Opens the cells of box `ib` that see the sky: scanning each column down from the top
/// row until the first blocking cell, it sets them to full brightness and queues them.
fn scan_sky(
    sky: &mut Vec<u8>,
    queue: &mut Vec<(u32, u8)>,
    cw: i32,
    ib: CellBox,
    pixels: &PixelWorld,
    mats: &Materials,
    Ghost(g): Ghost<Grid>,
)
    requires
        flood_ready(g, cw, ib, *pixels, *mats),
        ib.0 <= ib.2,
        ib.1 <= ib.3,
        old(sky)@.len() == g.cw * g.ch,
        forall|i: int| 0 <= i < old(sky)@.len() && in_cells(ib, g.col(i), g.row(i)) ==> #[trigger] old(sky)@[i] == 0,
    ensures
        final(sky)@ == sky_reset(g, old(sky)@, ib),
        seed_set(final(queue)@) == seed_set(old(queue)@).union(sky_seeds(g, ib)),
        forall|t: int| 0 <= t < old(queue)@.len() ==> final(queue)@[t] == old(queue)@[t],
        forall|t: int| old(queue)@.len() <= t < final(queue)@.len() ==> (#[trigger] final(queue)@[t]).0 < old(sky)@.len(),
        final(queue)@.len() >= old(queue)@.len(),
{
    let ghost s0 = sky@;
    let ghost q0 = queue@;
    let ghost n = s0.len();
    let mut cx = ib.0;
    proof {
        assert(sky_before(g, ib, cx as int, 0) =~= Set::empty()) by {
            assert forall|p: (int, int)| #[trigger] sky_before(g, ib, cx as int, 0).contains(p) implies false by {
                lemma_cell(g, p.0);
            }
        }
        assert(seed_set(q0).union(Set::empty()) =~= seed_set(q0));
    }
    while cx <= ib.2
        invariant
            flood_ready(g, cw, ib, *pixels, *mats),
            ib.0 <= cx <= ib.2 + 1,
            ib.1 <= ib.3,
            n == g.cw * g.ch,
            sky@.len() == n,
            forall|i: int| 0 <= i < n ==> #[trigger] sky@[i] == if in_cells(ib, g.col(i), g.row(i)) && g.col(i) < cx && exposed(g.op, g.col(i), g.row(i)) {
                255u8
            } else {
                s0[i]
            },
            seed_set(queue@) == seed_set(q0).union(sky_before(g, ib, cx as int, 0)),
            forall|t: int| 0 <= t < q0.len() ==> queue@[t] == q0[t],
            forall|t: int| q0.len() <= t < queue@.len() ==> (#[trigger] queue@[t]).0 < n,
            queue@.len() >= q0.len(),
        decreases ib.2 + 1 - cx,
    {
        let mut cy: i32 = 0;
        let mut blocked = false;
        while !blocked && cy <= ib.3
            invariant
                flood_ready(g, cw, ib, *pixels, *mats),
                ib.0 <= cx <= ib.2,
                ib.1 <= ib.3,
                0 <= cy <= ib.3 + 1,
                blocked ==> cy <= ib.3 && (g.op)(cx as int, cy as int),
                forall|y: int| 0 <= y < cy ==> !#[trigger] (g.op)(cx as int, y),
                n == g.cw * g.ch,
                sky@.len() == n,
                forall|i: int| 0 <= i < n ==> #[trigger] sky@[i] == if in_cells(ib, g.col(i), g.row(i)) && (g.col(i) < cx || (g.col(i) == cx
                    && g.row(i) < cy)) && exposed(g.op, g.col(i), g.row(i)) {
                    255u8
                } else {
                    s0[i]
                },
                seed_set(queue@) == seed_set(q0).union(sky_before(g, ib, cx as int, cy as int)),
                forall|t: int| 0 <= t < q0.len() ==> queue@[t] == q0[t],
                forall|t: int| q0.len() <= t < queue@.len() ==> (#[trigger] queue@[t]).0 < n,
                queue@.len() >= q0.len(),
            decreases ib.3 + 1 - cy + if blocked { 0int } else { 1int },
        {
            proof {
                lemma_idx(g, cx as int, cy as int);
            }
            if is_opaque(pixels, mats, cx, cy) {
                blocked = true;
            } else {
                let ghost sb = sky@;
                let ghost qb = queue@;
                let i = (cy * cw + cx) as usize;
                proof {
                    assert(exposed(g.op, cx as int, cy as int));
                }
                if cy >= ib.1 {
                    sky.set(i, 255);
                    queue.push((i as u32, 255));
                    proof {
                        lemma_seed_set_push(qb, (i as u32, 255u8));
                    }
                }
                proof {
                    let nxt = sky_before(g, ib, cx as int, cy + 1);
                    let cur = sky_before(g, ib, cx as int, cy as int);
                    assert forall|p: (int, int)| nxt.contains(p) && !cur.contains(p) implies p == (i as int, 255int) by {
                        lemma_cell(g, p.0);
                    }
                    if cy >= ib.1 {
                        assert(sky_seeds(g, ib).contains((i as int, 255int)));
                        assert(nxt =~= cur.insert((i as int, 255int)));
                        assert(seed_set(queue@) =~= seed_set(q0).union(nxt));
                    } else {
                        assert(nxt =~= cur);
                    }
                    assert forall|j: int| 0 <= j < n implies #[trigger] sky@[j] == if in_cells(ib, g.col(j), g.row(j)) && (g.col(j) < cx || (g.col(j)
                        == cx && g.row(j) < cy + 1)) && exposed(g.op, g.col(j), g.row(j)) {
                        255u8
                    } else {
                        s0[j]
                    } by {
                        lemma_cell(g, j);
                        if j != i {
                            assert(sky@[j] == sb[j]);
                        }
                    }
                }
                cy = cy + 1;
            }
        }
        proof {
            assert forall|y: int| ib.1 <= y <= ib.3 implies exposed(g.op, cx as int, y) == (y < cy) by {
                if y >= cy {
                    assert((g.op)(cx as int, cy as int));
                }
            }
            assert forall|i: int| 0 <= i < n implies #[trigger] sky@[i] == if in_cells(ib, g.col(i), g.row(i)) && g.col(i) < cx + 1 && exposed(g.op, g.col(i), g.row(i)) {
                255u8
            } else {
                s0[i]
            } by {
                lemma_cell(g, i);
            }
            assert(sky_before(g, ib, cx as int, cy as int) =~= sky_before(g, ib, cx + 1, 0)) by {
                assert forall|p: (int, int)| #[trigger] sky_before(g, ib, cx + 1, 0).contains(p) implies sky_before(g, ib, cx as int, cy as int).contains(p) by {
                    lemma_cell(g, p.0);
                }
                assert forall|p: (int, int)| #[trigger] sky_before(g, ib, cx as int, cy as int).contains(p) implies sky_before(g, ib, cx + 1, 0).contains(p) by {
                    lemma_cell(g, p.0);
                }
            }
        }
        cx = cx + 1;
    }
    proof {
        assert(sky@ =~= sky_reset(g, s0, ib)) by {
            assert forall|i: int| 0 <= i < n implies sky@[i] == sky_reset(g, s0, ib)[i] by {
                lemma_cell(g, i);
            }
        }
        assert(sky_before(g, ib, cx as int, 0) =~= sky_seeds(g, ib)) by {
            assert forall|p: (int, int)| #[trigger] sky_seeds(g, ib).contains(p) implies sky_before(g, ib, cx as int, 0).contains(p) by {
                lemma_cell(g, p.0);
            }
        }
    }
}

/// Darkens the cells of box `ib`.
fn clear_cells(map: &mut Vec<u8>, cw: i32, ib: CellBox, Ghost(g): Ghost<Grid>)
    requires
        g.valid(),
        g.cw == cw,
        0 <= ib.0,
        0 <= ib.1,
        ib.2 < g.cw,
        ib.3 < g.ch,
        old(map)@.len() == g.cw * g.ch,
    ensures
        final(map)@ == cleared(g, old(map)@, ib),
{
    let ghost m0 = map@;
    let ghost n = m0.len();
    proof {
        assert(g.ch <= g.cw * g.ch) by (nonlinear_arith)
            requires
                g.cw >= 1,
                g.ch >= 1,
        ;
    }
    let mut cy = ib.1;
    while cy <= ib.3
        invariant
            g.valid(),
            g.cw == cw,
            0 <= ib.0,
            ib.2 < g.cw,
            0 <= ib.1,
            ib.3 < g.ch,
            ib.1 <= cy,
            cy <= ib.3 + 1 || cy == ib.1,
            g.ch <= i32::MAX,
            n == g.cw * g.ch,
            map@.len() == n,
            forall|i: int| 0 <= i < n ==> #[trigger] map@[i] == if in_cells(ib, g.col(i), g.row(i)) && g.row(i) < cy { 0u8 } else { m0[i] },
        decreases ib.3 + 1 - cy,
    {
        let mut cx = ib.0;
        while cx <= ib.2
            invariant
                g.valid(),
                g.cw == cw,
                0 <= ib.0 <= cx,
                cx <= ib.2 + 1 || cx == ib.0,
                ib.2 < g.cw,
                0 <= ib.1 <= cy <= ib.3,
                ib.3 < g.ch,
                n == g.cw * g.ch,
                map@.len() == n,
                forall|i: int| 0 <= i < n ==> #[trigger] map@[i] == if in_cells(ib, g.col(i), g.row(i)) && (g.row(i) < cy || (g.row(i) == cy
                    && g.col(i) < cx)) {
                    0u8
                } else {
                    m0[i]
                },
            decreases ib.2 + 1 - cx,
        {
            proof {
                lemma_idx(g, cx as int, cy as int);
            }
            let i = (cy * cw + cx) as usize;
            let ghost mb = map@;
            map.set(i, 0);
            proof {
                assert forall|j: int| 0 <= j < n implies #[trigger] map@[j] == if in_cells(ib, g.col(j), g.row(j)) && (g.row(j) < cy || (g.row(j)
                    == cy && g.col(j) < cx + 1)) {
                    0u8
                } else {
                    m0[j]
                } by {
                    lemma_cell(g, j);
                    if j != i {
                        assert(map@[j] == mb[j]);
                    }
                }
            }
            cx = cx + 1;
        }
        proof {
            assert forall|j: int| 0 <= j < n implies #[trigger] map@[j] == if in_cells(ib, g.col(j), g.row(j)) && g.row(j) < cy + 1 { 0u8 } else { m0[j] } by {
                lemma_cell(g, j);
            }
        }
        cy = cy + 1;
    }
    proof {
        assert(map@ =~= cleared(g, m0, ib)) by {
            assert forall|i: int| 0 <= i < n implies map@[i] == cleared(g, m0, ib)[i] by {
                lemma_cell(g, i);
            }
        }
    }
}

/// Clamps `v` into 0..=hi (hi not negative).
pub open spec fn clamp_cell(v: int, hi: int) -> int {
    if v < 0 {
        0
    } else if v > hi {
        hi
    } else {
        v
    }
}

/// The part of region `r` inside a grid of `cw` by `ch` cells.
pub open spec fn region_inner(r: CellBox, cw: int, ch: int) -> CellBox {
    (clamp_cell(r.0 as int, cw - 1) as i32, clamp_cell(r.1 as int, ch - 1) as i32, clamp_cell(r.2 as int, cw - 1) as i32, clamp_cell(r.3 as int, ch - 1) as i32)
}

/// Region `r` keeps cells once clamped to the grid.
pub open spec fn region_live(r: CellBox, cw: int, ch: int) -> bool {
    let ib = region_inner(r, cw, ch);
    ib.0 <= ib.2 && ib.1 <= ib.3
}

/// Box `ib` widened by the margin, within the grid.
pub open spec fn region_outer(ib: CellBox, cw: int, ch: int) -> CellBox {
    (
        if ib.0 - REGION_MARGIN < 0 { 0i32 } else { (ib.0 - REGION_MARGIN) as i32 },
        if ib.1 - REGION_MARGIN < 0 { 0i32 } else { (ib.1 - REGION_MARGIN) as i32 },
        if ib.2 + REGION_MARGIN > cw - 1 { (cw - 1) as i32 } else { (ib.2 + REGION_MARGIN) as i32 },
        if ib.3 + REGION_MARGIN > ch - 1 { (ch - 1) as i32 } else { (ib.3 + REGION_MARGIN) as i32 },
    )
}

/// Block light `b2` is `b` recomputed over inner box `ib` within outer box `eb`: the inner
/// cells are cleared and reseeded from the sources, then the flood runs inside the outer
/// box from the new sources and the light already on the outer ring.
pub open spec fn block_relit(
    cw: int,
    ch: int,
    pixels: PixelWorld,
    mats: Materials,
    src: spec_fn(int, int, int) -> bool,
    ib: CellBox,
    eb: CellBox,
    b: Seq<u8>,
    b2: Seq<u8>,
) -> bool {
    let g = grid_of(cw, ch, pixels, mats, eb);
    let c0 = cleared(g, b, ib);
    exists|b0: Seq<u8>| #[trigger] block_seeded(cw, ib, src, c0, b0) && g.filled(b0, b2, brightened(cw, ib, c0, b0).union(ring_seeds(cw, b0, eb)))
}

/// Sky light `s2` is `s` recomputed over inner box `ib` within outer box `eb`: inner cells
/// open to the sky turn fully bright, the others dark, and the flood runs inside the outer
/// box from them and from the light already on the outer ring.
pub open spec fn sky_relit(cw: int, ch: int, pixels: PixelWorld, mats: Materials, ib: CellBox, eb: CellBox, s: Seq<u8>, s2: Seq<u8>) -> bool {
    let g = grid_of(cw, ch, pixels, mats, eb);
    let s0 = sky_reset(g, s, ib);
    g.filled(s0, s2, sky_seeds(g, ib).union(ring_seeds(cw, s0, eb)))
}

impl LightMap {
    /// The block-light sources of this map together with `torches`.
    pub open spec fn sources_with(&self, torches: Seq<(i32, i32)>) -> spec_fn(int, int, int) -> bool {
        sources(torches, self.emissive@, self.player_glow, self.moving_lights@)
    }

    /// Maps with the same sources light the same cells for the same torches.
    pub proof fn lemma_same_sources_with(&self, o: &LightMap, torches: Seq<(i32, i32)>)
        requires
            self.same_sources(o),
        ensures
            self.sources_with(torches) == o.sources_with(torches),
    {
    }

    /// Full recompute (the centre pixel of every cell must have `i32` coordinates):
    /// the whole map goes dark and is lit again from the sky (cells whose
    /// column is open from the top) and from the block-light sources; nothing stays pending.
    pub fn relight(&mut self, pixels: &PixelWorld, mats: &Materials, torches: &[(i32, i32)])
        requires
            old(self).wf(),
            old(self).pixel_sized(),
            pixels.wf(),
            mats.wf(),
        ensures
            final(self).wf(),
            final(self).cols() == old(self).cols(),
            final(self).rows() == old(self).rows(),
            final(self).same_sources(old(self)),
            final(self).pending().len() == 0,
            !final(self).glow_pending(),
            final(self).last_glow_view() == old(self).last_glow_view(),
            final(self).last_moving_view() == old(self).last_moving_view(),
            ({
                let cw = old(self).cols();
                let ch = old(self).rows();
                let full = (0i32, 0i32, (cw - 1) as i32, (ch - 1) as i32);
                let g = grid_of(cw, ch, *pixels, *mats, full);
                let zero = Seq::new((cw * ch) as nat, |i: int| 0u8);
                &&& g.filled(sky_reset(g, zero, full), final(self).sky_view(), sky_seeds(g, full))
                &&& exists|b0: Seq<u8>| #[trigger] block_seeded(cw, full, old(self).sources_with(torches@), zero, b0)
                    && g.filled(b0, final(self).block_view(), brightened(cw, full, zero, b0))
            }),
    {
        let cw = self.cw;
        let ch = self.ch;
        let full: CellBox = (0, 0, cw - 1, ch - 1);
        let ghost g = grid_of(cw as int, ch as int, *pixels, *mats, full);
        let ghost zero = Seq::new((cw * ch) as nat, |i: int| 0u8);
        proof {
            assert(cw * ch >= 0) by (nonlinear_arith)
                requires
                    cw >= 0,
                    ch >= 0,
            ;
        }
        let n = (cw * ch) as usize;
        self.sky = vec![0u8; n];
        self.block = vec![0u8; n];
        self.dirty.clear();
        self.glow_dirty = false;
        proof {
            assert(self.sky@ =~= zero);
            assert(self.block@ =~= zero);
        }
        if cw == 0 || ch == 0 {
            proof {
                assert(cw * ch == 0) by (nonlinear_arith)
                    requires
                        cw == 0 || ch == 0,
                ;
                let src = old(self).sources_with(torches@);
                assert(zero.len() == 0);
                assert(sky_reset(g, zero, full) =~= zero);
                assert(block_seeded(cw as int, full, src, zero, zero));
                assert(g.filled(zero, self.block@, brightened(cw as int, full, zero, zero)));
            }
            return;
        }
        let mut queue: Vec<(u32, u8)> = Vec::new();
        scan_sky(&mut self.sky, &mut queue, cw, full, pixels, mats, Ghost(g));
        proof {
            assert(seed_set(Seq::<(u32, u8)>::empty()) =~= Set::empty());
            assert(seed_set(queue@) =~= sky_seeds(g, full));
        }
        bfs_fill(&mut self.sky, &queue, cw, full, pixels, mats, Ghost(g));
        let mut queue2: Vec<(u32, u8)> = Vec::new();
        let ghost src = self.sources_with(torches@);
        self.seed_block(torches, full, &mut queue2);
        let ghost b0 = self.block@;
        proof {
            assert(seed_set(queue2@).union(Set::empty()) =~= seed_set(queue2@));
            assert forall|t: int| 0 <= t < queue2@.len() implies (#[trigger] queue2@[t]).0 < b0.len() by {
                assert(Seq::<(u32, u8)>::empty().len() <= t);
            }
        }
        bfs_fill(&mut self.block, &queue2, cw, full, pixels, mats, Ghost(g));
        proof {
            lemma_seeded_flood(g, full, src, zero, b0, Seq::empty(), queue2@, Set::empty(), self.block@);
            assert(brightened(cw as int, full, zero, b0).union(Set::empty()) =~= brightened(cw as int, full, zero, b0));
            assert(block_seeded(cw as int, full, src, zero, b0));
            assert(src == old(self).sources_with(torches@));
            assert(g.filled(b0, self.block@, brightened(cw as int, full, zero, b0)));
            assert(g.filled(sky_reset(g, zero, full), self.sky@, sky_seeds(g, full)));
        }
    }
}

/// Box `b` grown to take in cell (x, y).
pub open spec fn grow_box(b: CellBox, x: i32, y: i32) -> CellBox {
    (
        if x < b.0 { x } else { b.0 },
        if y < b.1 { y } else { b.1 },
        if x > b.2 { x } else { b.2 },
        if y > b.3 { y } else { b.3 },
    )
}

/// The box around the player glow and the moving lights, grown from (cw, ch, 0, 0).
pub open spec fn lights_box(cw: i32, ch: i32, glow: Option<(i32, i32)>, moving: Seq<(i32, i32, u8)>) -> CellBox
    decreases moving.len(),
{
    if moving.len() == 0 {
        match glow {
            Some(gp) => grow_box((cw, ch, 0, 0), gp.0, gp.1),
            None => (cw, ch, 0, 0),
        }
    } else {
        let l = moving.last();
        grow_box(lights_box(cw, ch, glow, moving.drop_last()), l.0, l.1)
    }
}

/// The cells a glow update recomputes: the lights' box widened by the glow reach, within the grid.
pub open spec fn glow_inner(b: CellBox, cw: int, ch: int) -> CellBox {
    (
        clamp_cell(b.0 - GLOW_REACH, cw - 1) as i32,
        clamp_cell(b.1 - GLOW_REACH, ch - 1) as i32,
        (if b.2 + GLOW_REACH > cw - 1 { cw - 1 } else { b.2 + GLOW_REACH }) as i32,
        (if b.3 + GLOW_REACH > ch - 1 { ch - 1 } else { b.3 + GLOW_REACH }) as i32,
    )
}

/// Light coordinates leave room for the glow reach on both sides.
pub open spec fn light_fits(x: i32, y: i32) -> bool {
    i32::MIN + GLOW_REACH <= x <= i32::MAX - GLOW_REACH && i32::MIN + GLOW_REACH <= y <= i32::MAX - GLOW_REACH
}

impl LightMap {
    /// Player glow and moving lights all leave room for the glow reach.
    pub open spec fn lights_fit(&self) -> bool {
        &&& (self.glow_view() matches Some(gp) ==> light_fits(gp.0, gp.1))
        &&& forall|l: int| 0 <= l < self.moving_view().len() ==> light_fits((#[trigger] self.moving_view()[l]).0, self.moving_view()[l].1)
    }

    /// Recomputes pending region `r`: its cells within the grid are cleared, the sky is
    /// scanned from the top for them, block sources inside are put back, and both channels
    /// flood over the region widened by the margin, fed also by the light on its ring.
    /// Answers the widened region, or nothing when `r` holds no cell of the grid.
    #[verifier::rlimit(60)]
    fn relight_px_region(&mut self, pixels: &PixelWorld, mats: &Materials, torches: &[(i32, i32)], r: CellBox) -> (res: Option<CellBox>)
        requires
            old(self).wf(),
            old(self).pixel_sized(),
            old(self).cols() >= 1,
            old(self).rows() >= 1,
            pixels.wf(),
            mats.wf(),
        ensures
            final(self).wf(),
            final(self).cols() == old(self).cols(),
            final(self).rows() == old(self).rows(),
            final(self).same_sources(old(self)),
            final(self).pending() == old(self).pending(),
            final(self).same_glow_state(old(self)),
            !region_live(r, old(self).cols(), old(self).rows()) ==> res is None && final(self).sky_view() == old(self).sky_view()
                && final(self).block_view() == old(self).block_view(),
            region_live(r, old(self).cols(), old(self).rows()) ==> {
                let ib = region_inner(r, old(self).cols(), old(self).rows());
                let eb = region_outer(ib, old(self).cols(), old(self).rows());
                &&& res == Some(eb)
                &&& sky_relit(old(self).cols(), old(self).rows(), *pixels, *mats, ib, eb, old(self).sky_view(), final(self).sky_view())
                &&& block_relit(
                    old(self).cols(),
                    old(self).rows(),
                    *pixels,
                    *mats,
                    old(self).sources_with(torches@),
                    ib,
                    eb,
                    old(self).block_view(),
                    final(self).block_view(),
                )
            },
    {
        let cw = self.cw;
        let ch = self.ch;
        let a0 = if r.0 < 0 { 0 } else { r.0 };
        let ix0 = if a0 > cw - 1 { cw - 1 } else { a0 };
        let a1 = if r.1 < 0 { 0 } else { r.1 };
        let iy0 = if a1 > ch - 1 { ch - 1 } else { a1 };
        let a2 = if r.2 < 0 { 0 } else { r.2 };
        let ix1 = if a2 > cw - 1 { cw - 1 } else { a2 };
        let a3 = if r.3 < 0 { 0 } else { r.3 };
        let iy1 = if a3 > ch - 1 { ch - 1 } else { a3 };
        let ib: CellBox = (ix0, iy0, ix1, iy1);
        assert(ib == region_inner(r, cw as int, ch as int));
        if ix0 > ix1 || iy0 > iy1 {
            return None;
        }
        let ex0 = if ix0 - REGION_MARGIN < 0 { 0 } else { ix0 - REGION_MARGIN };
        let ey0 = if iy0 - REGION_MARGIN < 0 { 0 } else { iy0 - REGION_MARGIN };
        let ex1 = if ix1 + REGION_MARGIN > cw - 1 { cw - 1 } else { ix1 + REGION_MARGIN };
        let ey1 = if iy1 + REGION_MARGIN > ch - 1 { ch - 1 } else { iy1 + REGION_MARGIN };
        let eb: CellBox = (ex0, ey0, ex1, ey1);
        assert(eb == region_outer(ib, cw as int, ch as int));
        let ghost gi = grid_of(cw as int, ch as int, *pixels, *mats, ib);
        let ghost ge = grid_of(cw as int, ch as int, *pixels, *mats, eb);
        let ghost sky_old = self.sky@;
        let ghost block_old = self.block@;
        let ghost src = self.sources_with(torches@);
        clear_cells(&mut self.sky, cw, ib, Ghost(ge));
        clear_cells(&mut self.block, cw, ib, Ghost(ge));
        let ghost c0 = self.block@;
        let mut queue: Vec<(u32, u8)> = Vec::new();
        proof {
            assert forall|i: int| 0 <= i < self.sky@.len() && in_cells(ib, gi.col(i), gi.row(i)) implies #[trigger] self.sky@[i] == 0 by {}
        }
        scan_sky(&mut self.sky, &mut queue, cw, ib, pixels, mats, Ghost(gi));
        let ghost s0 = self.sky@;
        proof {
            assert(s0 =~= sky_reset(ge, sky_old, ib));
            assert(seed_set(Seq::<(u32, u8)>::empty()) =~= Set::empty());
            assert(sky_seeds(gi, ib) =~= sky_seeds(ge, ib));
        }
        let ghost qs = queue@;
        self.seed_ring(&self.sky, eb, &mut queue);
        proof {
            assert(seed_set(queue@) =~= sky_seeds(ge, ib).union(ring_seeds(cw as int, s0, eb)));
        }
        bfs_fill(&mut self.sky, &queue, cw, eb, pixels, mats, Ghost(ge));
        let mut queue2: Vec<(u32, u8)> = Vec::new();
        self.seed_block(torches, ib, &mut queue2);
        let ghost b0 = self.block@;
        let ghost qb = queue2@;
        self.seed_ring(&self.block, eb, &mut queue2);
        proof {
            assert forall|p: (int, int)| #[trigger] ring_seeds(cw as int, b0, eb).contains(p) implies 0 <= p.0 < c0.len() by {}
        }
        bfs_fill(&mut self.block, &queue2, cw, eb, pixels, mats, Ghost(ge));
        proof {
            lemma_seeded_flood(ge, ib, src, c0, b0, Seq::empty(), qb, ring_seeds(cw as int, b0, eb), self.block@);
            assert(c0 == cleared(ge, block_old, ib));
            assert(block_seeded(cw as int, ib, src, c0, b0));
        }
        Some(eb)
    }

    /// Recomputes the block channel around the player glow and the moving lights (sky
    /// untouched): the cells of their box, widened by the glow reach, are cleared and reseeded,
    /// then flood over that box widened by the margin. Answers the widened box, or nothing
    /// when there is no glow and no moving light.
    fn relight_glow_region(&mut self, pixels: &PixelWorld, mats: &Materials, torches: &[(i32, i32)]) -> (res: Option<CellBox>)
        requires
            old(self).wf(),
            old(self).pixel_sized(),
            old(self).cols() >= 1,
            old(self).rows() >= 1,
            old(self).lights_fit(),
            pixels.wf(),
            mats.wf(),
        ensures
            final(self).wf(),
            final(self).cols() == old(self).cols(),
            final(self).rows() == old(self).rows(),
            final(self).same_sources(old(self)),
            final(self).pending() == old(self).pending(),
            final(self).same_glow_state(old(self)),
            final(self).sky_view() == old(self).sky_view(),
            (old(self).glow_view() is None && old(self).moving_view().len() == 0) ==> res is None && final(self).block_view()
                == old(self).block_view(),
            !(old(self).glow_view() is None && old(self).moving_view().len() == 0) ==> {
                let ib = glow_inner(
                    lights_box(old(self).cols() as i32, old(self).rows() as i32, old(self).glow_view(), old(self).moving_view()),
                    old(self).cols(),
                    old(self).rows(),
                );
                let eb = region_outer(ib, old(self).cols(), old(self).rows());
                &&& res == Some(eb)
                &&& block_relit(
                    old(self).cols(),
                    old(self).rows(),
                    *pixels,
                    *mats,
                    old(self).sources_with(torches@),
                    ib,
                    eb,
                    old(self).block_view(),
                    final(self).block_view(),
                )
            },
    {
        let cw = self.cw;
        let ch = self.ch;
        let ghost mv = self.moving_lights@;
        let mut b: CellBox = (cw, ch, 0, 0);
        match self.player_glow {
            Some((gx, gy)) => {
                b = (if gx < b.0 { gx } else { b.0 }, if gy < b.1 { gy } else { b.1 }, if gx > b.2 { gx } else { b.2 }, if gy > b.3 { gy } else { b.3 });
            },
            None => {},
        }
        proof {
            assert(mv.take(0) =~= Seq::<(i32, i32, u8)>::empty());
            assert forall|k: int| 0 <= k < mv.len() implies light_fits((#[trigger] mv[k]).0, mv[k].1) by {
                assert(light_fits(self.moving_view()[k].0, self.moving_view()[k].1));
            }
        }
        let mut l: usize = 0;
        while l < self.moving_lights.len()
            invariant
                self.wf(),
                *self == *old(self),
                mv == self.moving_lights@,
                cw == self.cw,
                ch == self.ch,
                l <= mv.len(),
                forall|k: int| 0 <= k < mv.len() ==> light_fits((#[trigger] mv[k]).0, mv[k].1),
                b == lights_box(cw, ch, self.player_glow, mv.take(l as int)),
                0 <= b.2,
                0 <= b.3,
                b.0 <= cw,
                b.1 <= ch,
                (self.player_glow is Some || l > 0) ==> b.0 <= b.2 && b.1 <= b.3,
                (self.player_glow is Some || l > 0) ==> i32::MIN + GLOW_REACH <= b.0 && i32::MIN + GLOW_REACH <= b.1,
                b.2 <= i32::MAX - GLOW_REACH,
                b.3 <= i32::MAX - GLOW_REACH,
            decreases mv.len() - l,
        {
            let (lx, ly, _lv) = self.moving_lights[l];
            proof {
                assert(light_fits(mv[l as int].0, mv[l as int].1));
                assert(mv.take(l + 1).drop_last() =~= mv.take(l as int));
            }
            b = (if lx < b.0 { lx } else { b.0 }, if ly < b.1 { ly } else { b.1 }, if lx > b.2 { lx } else { b.2 }, if ly > b.3 { ly } else { b.3 });
            l = l + 1;
        }
        proof {
            assert(mv.take(mv.len() as int) =~= mv);
        }
        if b.0 > b.2 {
            return None;
        }
        let a0 = if b.0 - GLOW_REACH < 0 { 0 } else { b.0 - GLOW_REACH };
        let ix0 = if a0 > cw - 1 { cw - 1 } else { a0 };
        let a1 = if b.1 - GLOW_REACH < 0 { 0 } else { b.1 - GLOW_REACH };
        let iy0 = if a1 > ch - 1 { ch - 1 } else { a1 };
        let ix1 = if b.2 + GLOW_REACH > cw - 1 { cw - 1 } else { b.2 + GLOW_REACH };
        let iy1 = if b.3 + GLOW_REACH > ch - 1 { ch - 1 } else { b.3 + GLOW_REACH };
        let ib: CellBox = (ix0, iy0, ix1, iy1);
        assert(ib == glow_inner(b, cw as int, ch as int));
        let ex0 = if ix0 - REGION_MARGIN < 0 { 0 } else { ix0 - REGION_MARGIN };
        let ey0 = if iy0 - REGION_MARGIN < 0 { 0 } else { iy0 - REGION_MARGIN };
        let ex1 = if ix1 + REGION_MARGIN > cw - 1 { cw - 1 } else { ix1 + REGION_MARGIN };
        let ey1 = if iy1 + REGION_MARGIN > ch - 1 { ch - 1 } else { iy1 + REGION_MARGIN };
        let eb: CellBox = (ex0, ey0, ex1, ey1);
        assert(eb == region_outer(ib, cw as int, ch as int));
        let ghost ge = grid_of(cw as int, ch as int, *pixels, *mats, eb);
        let ghost block_old = self.block@;
        let ghost src = self.sources_with(torches@);
        clear_cells(&mut self.block, cw, ib, Ghost(ge));
        let ghost c0 = self.block@;
        let mut queue2: Vec<(u32, u8)> = Vec::new();
        self.seed_block(torches, ib, &mut queue2);
        let ghost b0 = self.block@;
        let ghost qb = queue2@;
        self.seed_ring(&self.block, eb, &mut queue2);
        proof {
            assert forall|p: (int, int)| #[trigger] ring_seeds(cw as int, b0, eb).contains(p) implies 0 <= p.0 < c0.len() by {}
        }
        bfs_fill(&mut self.block, &queue2, cw, eb, pixels, mats, Ghost(ge));
        proof {
            lemma_seeded_flood(ge, ib, src, c0, b0, Seq::empty(), qb, ring_seeds(cw as int, b0, eb), self.block@);
            assert(c0 == cleared(ge, block_old, ib));
            assert(block_seeded(cw as int, ib, src, c0, b0));
        }
        Some(eb)
    }
}

/// Pending regions after the backlog cut: only the newest nine stay.
pub open spec fn trimmed(d: Seq<CellBox>) -> Seq<CellBox> {
    if d.len() > MAX_PENDING {
        d.skip(d.len() - MAX_PENDING)
    } else {
        d
    }
}

/// How many regions a recompute pass takes off the end of `d` while fewer than `quota`
/// of them held cells of the grid.
pub open spec fn taken(d: Seq<CellBox>, quota: int, cw: int, ch: int) -> int
    decreases d.len(),
{
    if quota <= 0 || d.len() == 0 {
        0
    } else {
        1 + taken(d.drop_last(), quota - if region_live(d.last(), cw, ch) { 1int } else { 0int }, cw, ch)
    }
}

/// The widened boxes that such a pass recomputes, in the order it takes them.
pub open spec fn taken_boxes(d: Seq<CellBox>, quota: int, cw: int, ch: int) -> Seq<CellBox>
    decreases d.len(),
{
    if quota <= 0 || d.len() == 0 {
        Seq::empty()
    } else {
        let r = d.last();
        let live = region_live(r, cw, ch);
        let rest = taken_boxes(d.drop_last(), quota - if live { 1int } else { 0int }, cw, ch);
        if live {
            seq![region_outer(region_inner(r, cw, ch), cw, ch)].add(rest)
        } else {
            rest
        }
    }
}

/// Light (sky, block) goes from `s` to `s2` by recomputing region `r`.
pub open spec fn region_step(
    cw: int,
    ch: int,
    pixels: PixelWorld,
    mats: Materials,
    src: spec_fn(int, int, int) -> bool,
    r: CellBox,
    s: (Seq<u8>, Seq<u8>),
    s2: (Seq<u8>, Seq<u8>),
) -> bool {
    if region_live(r, cw, ch) {
        let ib = region_inner(r, cw, ch);
        let eb = region_outer(ib, cw, ch);
        sky_relit(cw, ch, pixels, mats, ib, eb, s.0, s2.0) && block_relit(cw, ch, pixels, mats, src, ib, eb, s.1, s2.1)
    } else {
        s2 == s
    }
}

/// Light goes from `s` to `s2` by a recompute pass over the regions taken off the end of `d`.
pub open spec fn regions_relit(
    cw: int,
    ch: int,
    pixels: PixelWorld,
    mats: Materials,
    src: spec_fn(int, int, int) -> bool,
    d: Seq<CellBox>,
    quota: int,
    s: (Seq<u8>, Seq<u8>),
    s2: (Seq<u8>, Seq<u8>),
) -> bool
    decreases d.len(),
{
    if quota <= 0 || d.len() == 0 {
        s2 == s
    } else {
        let r = d.last();
        exists|mid: (Seq<u8>, Seq<u8>)| #[trigger] region_step(cw, ch, pixels, mats, src, r, s, mid)
            && regions_relit(cw, ch, pixels, mats, src, d.drop_last(), quota - if region_live(r, cw, ch) { 1int } else { 0int }, mid, s2)
    }
}

impl LightMap {
    /// Per-frame recompute: the backlog is cut to the newest nine regions, then regions are
    /// taken off the end and recomputed until three held cells; with room left and a glow
    /// change pending, the block light around the glow and the moving lights is recomputed
    /// too. Answers the widened boxes recomputed, in order. The map must have at least
    /// one cell each way: a region clamped to an empty grid indexes outside it.
    pub fn relight_regions(&mut self, pixels: &PixelWorld, mats: &Materials, torches: &[(i32, i32)]) -> (done: Vec<CellBox>)
        requires
            old(self).wf(),
            old(self).pixel_sized(),
            old(self).cols() >= 1,
            old(self).rows() >= 1,
            old(self).lights_fit(),
            pixels.wf(),
            mats.wf(),
        ensures
            final(self).wf(),
            final(self).cols() == old(self).cols(),
            final(self).rows() == old(self).rows(),
            final(self).same_sources(old(self)),
            final(self).last_glow_view() == old(self).last_glow_view(),
            final(self).last_moving_view() == old(self).last_moving_view(),
            ({
                let cw = old(self).cols();
                let ch = old(self).rows();
                let d1 = trimmed(old(self).pending());
                let boxes = taken_boxes(d1, 3, cw, ch);
                let src = old(self).sources_with(torches@);
                let start = (old(self).sky_view(), old(self).block_view());
                let glow_turn = boxes.len() < 3 && old(self).glow_pending();
                let no_lights = old(self).glow_view() is None && old(self).moving_view().len() == 0;
                let gib = glow_inner(lights_box(cw as i32, ch as i32, old(self).glow_view(), old(self).moving_view()), cw, ch);
                let geb = region_outer(gib, cw, ch);
                &&& final(self).pending() == d1.take(d1.len() - taken(d1, 3, cw, ch))
                &&& !glow_turn ==> {
                    &&& final(self).glow_pending() == old(self).glow_pending()
                    &&& done@ == boxes
                    &&& regions_relit(cw, ch, *pixels, *mats, src, d1, 3, start, (final(self).sky_view(), final(self).block_view()))
                }
                &&& glow_turn ==> {
                    &&& !final(self).glow_pending()
                    &&& no_lights ==> done@ == boxes && regions_relit(cw, ch, *pixels, *mats, src, d1, 3, start, (final(self).sky_view(), final(self).block_view()))
                    &&& !no_lights ==> done@ == boxes.push(geb) && exists|mid: (Seq<u8>, Seq<u8>)| #[trigger] regions_relit(cw, ch, *pixels, *mats, src, d1, 3, start, mid)
                        && mid.0 == final(self).sky_view() && block_relit(cw, ch, *pixels, *mats, src, gib, geb, mid.1, final(self).block_view())
                }
            }),
    {
        let ghost cw = self.cw as int;
        let ghost ch = self.ch as int;
        let ghost src = self.sources_with(torches@);
        let ghost start = (self.sky@, self.block@);
        if self.dirty.len() > MAX_PENDING {
            let drop = self.dirty.len() - MAX_PENDING;
            let rest = self.dirty.split_off(drop);
            self.dirty = rest;
        }
        let ghost d1 = self.dirty@;
        proof {
            assert(d1 == trimmed(old(self).pending()));
            assert forall|j: int| 0 <= j < self.dirty@.len() implies box_small(#[trigger] self.dirty@[j]) by {
                if old(self).dirty@.len() > MAX_PENDING {
                    assert(self.dirty@[j] == old(self).dirty@[j + (old(self).dirty@.len() - MAX_PENDING)]);
                }
            }
        }
        let mut done: Vec<CellBox> = Vec::new();
        while done.len() < LIGHT_QUOTA && self.dirty.len() > 0
            invariant
                self.wf(),
                self.lights_fit(),
                self.cols() >= 1,
                self.pixel_sized(),
                self.rows() >= 1,
                pixels.wf(),
                mats.wf(),
                self.cw == cw,
                self.ch == ch,
                self.same_sources(old(self)),
                self.glow_dirty == old(self).glow_dirty,
                self.last_glow_view() == old(self).last_glow_view(),
                self.last_moving_view() == old(self).last_moving_view(),
                src == self.sources_with(torches@),
                done@.len() <= 3,
                self.dirty@.len() <= d1.len(),
                self.dirty@ == d1.take(self.dirty@.len() as int),
                taken(d1, 3, cw, ch) == (d1.len() - self.dirty@.len()) + taken(self.dirty@, 3 - done@.len(), cw, ch),
                taken_boxes(d1, 3, cw, ch) == done@ + taken_boxes(self.dirty@, 3 - done@.len(), cw, ch),
                forall|s2: (Seq<u8>, Seq<u8>)|
                    #[trigger] regions_relit(cw, ch, *pixels, *mats, src, self.dirty@, 3 - done@.len(), (self.sky@, self.block@), s2)
                        ==> regions_relit(cw, ch, *pixels, *mats, src, d1, 3, start, s2),
            decreases self.dirty@.len(),
        {
            let ghost rem = self.dirty@;
            let ghost q = 3 - done@.len();
            let ghost cur = (self.sky@, self.block@);
            let r = self.dirty.pop().unwrap();
            proof {
                assert(self.dirty@ =~= rem.drop_last());
                assert forall|j: int| 0 <= j < self.dirty@.len() implies box_small(#[trigger] self.dirty@[j]) by {
                    assert(self.dirty@[j] == rem[j]);
                }
            }
            let res = self.relight_px_region(pixels, mats, torches, r);
            let ghost nxt = (self.sky@, self.block@);
            let ghost live = region_live(r, cw, ch);
            match res {
                Some(b) => {
                    done.push(b);
                },
                None => {},
            }
            proof {
                assert(region_step(cw, ch, *pixels, *mats, src, r, cur, nxt));
                assert(self.dirty@ =~= d1.take(self.dirty@.len() as int));
                let q2 = q - if live { 1int } else { 0int };
                assert(3 - done@.len() == q2);
                assert(taken_boxes(rem, q, cw, ch) == (if live {
                    seq![region_outer(region_inner(r, cw, ch), cw, ch)]
                } else {
                    Seq::empty()
                }).add(taken_boxes(self.dirty@, q2, cw, ch))) by {
                    if !live {
                        assert(Seq::<CellBox>::empty().add(taken_boxes(self.dirty@, q2, cw, ch)) =~= taken_boxes(self.dirty@, q2, cw, ch));
                    }
                }
                assert(taken_boxes(d1, 3, cw, ch) =~= done@ + taken_boxes(self.dirty@, 3 - done@.len(), cw, ch));
                assert forall|s2: (Seq<u8>, Seq<u8>)|
                    #[trigger] regions_relit(cw, ch, *pixels, *mats, src, self.dirty@, 3 - done@.len(), (self.sky@, self.block@), s2)
                        implies regions_relit(cw, ch, *pixels, *mats, src, d1, 3, start, s2) by {
                    assert(regions_relit(cw, ch, *pixels, *mats, src, rem, q, cur, s2));
                }
            }
        }
        let ghost after_regions = (self.sky@, self.block@);
        proof {
            assert(taken(self.dirty@, 3 - done@.len(), cw, ch) == 0);
            assert(taken_boxes(self.dirty@, 3 - done@.len(), cw, ch) =~= Seq::<CellBox>::empty());
            assert(done@ + Seq::<CellBox>::empty() =~= done@);
            assert(regions_relit(cw, ch, *pixels, *mats, src, self.dirty@, 3 - done@.len(), after_regions, after_regions));
            assert(d1.take(d1.len() - taken(d1, 3, cw, ch)) =~= self.dirty@);
            assert(regions_relit(cw, ch, *pixels, *mats, src, d1, 3, start, after_regions));
            assert(done@ == taken_boxes(d1, 3, cw, ch));
        }
        let ghost boxes = done@;
        if done.len() < LIGHT_QUOTA && self.glow_dirty {
            self.glow_dirty = false;
            let ghost pre = *self;
            let res = self.relight_glow_region(pixels, mats, torches);
            proof {
                assert(pre.sources_with(torches@) == src);
                assert(pre.glow_view() == old(self).glow_view());
                assert(pre.moving_view() == old(self).moving_view());
            }
            match res {
                Some(b) => {
                    done.push(b);
                    proof {
                        assert(regions_relit(cw, ch, *pixels, *mats, src, d1, 3, start, after_regions));
                    }
                },
                None => {},
            }
        }
        proof {
            let d1x = trimmed(old(self).pending());
            assert(d1x == d1);
            assert(old(self).cols() == cw);
            assert(self.pending() == d1.take(d1.len() - taken(d1, 3, cw, ch)));
            assert(taken_boxes(d1x, 3, old(self).cols(), old(self).rows()) == boxes);
            let glow_turn = boxes.len() < 3 && old(self).glow_pending();
            if !glow_turn {
                assert(self.glow_pending() == old(self).glow_pending());
                assert(done@ == boxes);
                assert(regions_relit(cw, ch, *pixels, *mats, src, d1, 3, start, (self.sky_view(), self.block_view())));
            } else {
                let no_lights = old(self).glow_view() is None && old(self).moving_view().len() == 0;
                let gib = glow_inner(lights_box(cw as i32, ch as i32, old(self).glow_view(), old(self).moving_view()), cw, ch);
                let geb = region_outer(gib, cw, ch);
                assert(!self.glow_pending());
                assert(self.sky_view() == after_regions.0);
                if no_lights {
                    assert(self.block_view() == after_regions.1);
                    assert((self.sky_view(), self.block_view()) == after_regions);
                    assert(done@ == boxes);
                } else {
                    assert(done@ == boxes.push(geb));
                    assert(block_relit(cw, ch, *pixels, *mats, src, gib, geb, after_regions.1, self.block_view()));
                    assert(regions_relit(cw, ch, *pixels, *mats, src, d1, 3, start, after_regions));
                }
            }
        }
        proof {
            let cwx = old(self).cols();
            let chx = old(self).rows();
            let srcx = old(self).sources_with(torches@);
            let startx = (old(self).sky_view(), old(self).block_view());
            assert(cwx == cw && chx == ch);
            assert(srcx == src);
            assert(startx == start);
            let glow_turn = boxes.len() < 3 && old(self).glow_pending();
            let no_lights = old(self).glow_view() is None && old(self).moving_view().len() == 0;
            if glow_turn && !no_lights {
                let gib = glow_inner(lights_box(cwx as i32, chx as i32, old(self).glow_view(), old(self).moving_view()), cwx, chx);
                let geb = region_outer(gib, cwx, chx);
                assert(done@ == boxes.push(geb));
                assert(exists|mid: (Seq<u8>, Seq<u8>)| #[trigger] regions_relit(cwx, chx, *pixels, *mats, srcx, d1, 3, startx, mid)
                        && mid.0 == self.sky_view() && block_relit(cwx, chx, *pixels, *mats, srcx, gib, geb, mid.1, self.block_view()));
            }
        }
        done
    }
}

/// After a recompute of box `ib`, every cell of the box whose column is open to the sky
/// from the top row down holds full sky light.
pub proof fn law_open_sky_full(g: Grid, sky: Seq<u8>, ib: CellBox, m: Seq<u8>, seeds: Set<(int, int)>, i: int)
    requires
        g.filled(sky_reset(g, sky, ib), m, seeds),
        0 <= i < sky.len(),
        in_cells(ib, g.col(i), g.row(i)),
        exposed(g.op, g.col(i), g.row(i)),
    ensures
        m[i] == 255,
{
    assert(sky_reset(g, sky, ib)[i] == 255u8);
    assert(m[i] >= sky_reset(g, sky, ib)[i]);
}

/// Glow only fades: after a decay every contribution is at least 24 and comes from a
/// larger contribution of the same key.
pub proof fn law_decay_fades(s: Seq<((i32, i32), u32)>, a: int)
    requires
        0 <= a < decayed(s).len(),
    ensures
        decayed(s)[a].1 >= 24,
        exists|j: int| 0 <= j < s.len() && (#[trigger] s[j]).0 == decayed(s)[a].0 && s[j].1 > decayed(s)[a].1,
    decreases s.len(),
{
    let r = decayed(s.drop_last());
    let v = (s.last().1 as int * 3 / 4) as u32;
    if v >= 24 && a == r.len() {
        assert(s[s.len() - 1] == s.last());
    } else {
        law_decay_fades(s.drop_last(), a);
        let j = choose|j: int| 0 <= j < s.drop_last().len() && (#[trigger] s.drop_last()[j]).0 == r[a].0 && s.drop_last()[j].1 > r[a].1;
        assert(s[j] == s.drop_last()[j]);
    }
}

} // verus!
