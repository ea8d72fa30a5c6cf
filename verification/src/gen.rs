//! Terrain painting primitives of world generation: pixels with colour jitter,
//! clearing, and writes that only fill empty places.
use vstd::prelude::*;
use crate::materials::{MaterialId, Materials};
use crate::rng::{Rng, chance_next, range_next};
use crate::world::{Pixel, PixelWorld, SimState, empty_px, unsettled, law_set_then_get};

verus! {

/// Where a generated world puts the player first.
pub struct GenResult {
    pub spawn_x: i32,
    pub spawn_y: i32,
}

/// `v` clamped into a byte.
pub open spec fn byte_clamp(v: int) -> u8 {
    if v < 0 {
        0
    } else if v > 255 {
        255
    } else {
        v as u8
    }
}

/// The terrain pixel `put` writes for material `mat` and drawn jitter offset `d`.
pub open spec fn terrain_px(mat: MaterialId, d: int) -> Pixel {
    Pixel { mat, shade: byte_clamp(127 + d), life: 0, aux: 0 }
}

/// What `put(x, y, mat)` does to world and generator: in bounds and for a real material,
/// an offset is drawn in [-jitter, jitter] of the material and the pixel is set.
pub open spec fn put_effect(
    pixels: PixelWorld,
    mats: Materials,
    rng: u64,
    x: int,
    y: int,
    mat: MaterialId,
    pixels2: PixelWorld,
    rng2: u64,
) -> bool {
    &&& pixels2.wf()
    &&& pixels2.same_frame(&pixels)
    &&& if mat == 0 || !pixels.in_bounds(x, y) {
        pixels2.state() == pixels.state() && rng2 == rng
    } else {
        let j = mats.def_spec(mat).jitter as int;
        let (st, d) = range_next(rng, -j, j);
        &&& rng2 == st
        &&& -j <= d <= j
        &&& pixels2.state() == pixels.set_st(pixels.state(), x, y, terrain_px(mat, d))
    }
}

/// `put` on pixel state `s` and random state `r` of a world with frame `w`.
pub open spec fn put_st(w: PixelWorld, mats: Materials, s: (SimState, u64), x: int, y: int, mat: MaterialId) -> (SimState, u64) {
    if mat == 0 || !w.in_bounds(x, y) {
        s
    } else {
        let j = mats.def_spec(mat).jitter as int;
        let (r2, d) = range_next(s.1, -j, j);
        (w.set_st(s.0, x, y, terrain_px(mat, d)), r2)
    }
}

/// `put_if_empty` on pixel state `s` and random state `r`.
pub open spec fn put_if_empty_st(w: PixelWorld, mats: Materials, s: (SimState, u64), x: int, y: int, mat: MaterialId) -> (SimState, u64) {
    if mat != 0 && (s.0.px)(x, y).mat == 0 {
        put_st(w, mats, s, x, y, mat)
    } else {
        s
    }
}

/// Writes a terrain pixel of `mat` with colour jitter at (x, y), overwriting what is
/// there; nothing happens for material 0 or outside the world.
pub fn put(pixels: &mut PixelWorld, mats: &Materials, rng: &mut Rng, x: i32, y: i32, mat: MaterialId)
    requires
        old(pixels).wf(),
        mats.wf(),
    ensures
        put_effect(*old(pixels), *mats, old(rng)@, x as int, y as int, mat, *final(pixels), final(rng)@),
        (final(pixels).state(), final(rng)@) == put_st(*old(pixels), *mats, (old(pixels).state(), old(rng)@), x as int, y as int, mat),
{
    let (w, h) = pixels.size();
    if mat == 0 || x < 0 || y < 0 || x >= w || y >= h {
        return;
    }
    let j = mats.def(mat).jitter as i32;
    let d = rng.range_i32(-j, j);
    let v = 127 + d;
    let shade: u8 = if v < 0 { 0 } else if v > 255 { 255 } else { v as u8 };
    pixels.set(x, y, Pixel { mat, shade, life: 0, aux: 0 });
}

/// Empties pixel (x, y).
pub fn clear(pixels: &mut PixelWorld, x: i32, y: i32)
    requires
        old(pixels).wf(),
    ensures
        final(pixels).wf(),
        final(pixels).same_frame(old(pixels)),
        final(pixels).state() == old(pixels).set_st(old(pixels).state(), x as int, y as int, empty_px()),
{
    pixels.set(x, y, Pixel::default());
}

/// Writes a terrain pixel of `mat` only where (x, y) is empty (loose layers, liquids).
pub fn put_if_empty(pixels: &mut PixelWorld, mats: &Materials, rng: &mut Rng, x: i32, y: i32, mat: MaterialId)
    requires
        old(pixels).wf(),
        mats.wf(),
    ensures
        (mat != 0 && old(pixels).pixel(x as int, y as int).mat == 0) ==> put_effect(
            *old(pixels),
            *mats,
            old(rng)@,
            x as int,
            y as int,
            mat,
            *final(pixels),
            final(rng)@,
        ),
        !(mat != 0 && old(pixels).pixel(x as int, y as int).mat == 0) ==> *final(pixels) == *old(pixels) && final(rng)@ == old(rng)@,
        final(pixels).wf(),
        final(pixels).same_frame(old(pixels)),
        (final(pixels).state(), final(rng)@) == put_if_empty_st(*old(pixels), *mats, (old(pixels).state(), old(rng)@), x as int, y as int, mat),
{
    if mat != 0 && pixels.get(x, y).mat == 0 {
        put(pixels, mats, rng, x, y, mat);
    }
}

/// Writes pixel `mat` with brightness `shade` (clamped to a byte, 128 is plain) where
/// (x, y) is in the world and empty (trees, decoration).
pub fn put_shade_if_empty(pixels: &mut PixelWorld, x: i32, y: i32, mat: MaterialId, shade: i32)
    requires
        old(pixels).wf(),
    ensures
        final(pixels).wf(),
        final(pixels).same_frame(old(pixels)),
        (mat != 0 && old(pixels).in_bounds(x as int, y as int) && old(pixels).pixel(x as int, y as int).mat == 0) ==> final(pixels).state() == old(pixels).set_st(
            old(pixels).state(),
            x as int,
            y as int,
            Pixel { mat, shade: byte_clamp(shade as int), life: 0, aux: 0 },
        ),
        !(mat != 0 && old(pixels).in_bounds(x as int, y as int) && old(pixels).pixel(x as int, y as int).mat == 0) ==> final(pixels).state() == old(pixels).state(),
{
    let (w, h) = pixels.size();
    if mat == 0 || x < 0 || y < 0 || x >= w || y >= h {
        return;
    }
    if pixels.get(x, y).mat != 0 {
        return;
    }
    let s: u8 = if shade < 0 { 0 } else if shade > 255 { 255 } else { shade as u8 };
    pixels.set(x, y, Pixel { mat, shade: s, life: 0, aux: 0 });
}

/// Material ids terrain generation uses (0 where the table lacks the name).
#[derive(Clone, Copy, Debug)]
pub struct TerrainIds {
    pub dirt: MaterialId,
    pub grass: MaterialId,
    pub stone: MaterialId,
    pub sandstone: MaterialId,
    pub snowpack: MaterialId,
    pub bedrock: MaterialId,
    pub coal: MaterialId,
    pub iron: MaterialId,
    pub gold: MaterialId,
    pub sand: MaterialId,
    pub snow: MaterialId,
    pub water: MaterialId,
    pub lava: MaterialId,
    pub rope: MaterialId,
    pub wood: MaterialId,
    pub leaf: MaterialId,
    pub wall_dirt: MaterialId,
    pub wall_stone: MaterialId,
    pub wall_snow: MaterialId,
    pub wall_sand: MaterialId,
}

/// The id of `name` in `mats`, or 0.
pub open spec fn id_or_zero(mats: Materials, name: Seq<char>) -> MaterialId {
    match mats.id_spec(name) {
        Some(i) => i,
        None => 0,
    }
}

fn id_or_empty(mats: &Materials, name: &str) -> (r: MaterialId)
    requires
        mats.wf(),
    ensures
        r == id_or_zero(*mats, name@),
{
    match mats.id(name) {
        Some(i) => i,
        None => 0,
    }
}

impl TerrainIds {
    /// Looks the terrain materials up by name.
    pub fn of(mats: &Materials) -> (t: TerrainIds)
        requires
            mats.wf(),
        ensures
            t.dirt == id_or_zero(*mats, "dirt"@),
            t.grass == id_or_zero(*mats, "grass"@),
            t.stone == id_or_zero(*mats, "stone"@),
            t.sandstone == id_or_zero(*mats, "sandstone"@),
            t.snowpack == id_or_zero(*mats, "snowpack"@),
            t.bedrock == id_or_zero(*mats, "bedrock"@),
            t.coal == id_or_zero(*mats, "coal_ore"@),
            t.iron == id_or_zero(*mats, "iron_ore"@),
            t.gold == id_or_zero(*mats, "gold_ore"@),
            t.sand == id_or_zero(*mats, "sand"@),
            t.snow == id_or_zero(*mats, "snow"@),
            t.water == id_or_zero(*mats, "water"@),
            t.lava == id_or_zero(*mats, "lava"@),
            t.rope == id_or_zero(*mats, "rope"@),
            t.wood == id_or_zero(*mats, "wood"@),
            t.leaf == id_or_zero(*mats, "leaf"@),
            t.wall_dirt == id_or_zero(*mats, "wall_dirt"@),
            t.wall_stone == id_or_zero(*mats, "wall_stone"@),
            t.wall_snow == id_or_zero(*mats, "wall_snow"@),
            t.wall_sand == id_or_zero(*mats, "wall_sand"@),
    {
        TerrainIds {
            dirt: id_or_empty(mats, "dirt"),
            grass: id_or_empty(mats, "grass"),
            stone: id_or_empty(mats, "stone"),
            sandstone: id_or_empty(mats, "sandstone"),
            snowpack: id_or_empty(mats, "snowpack"),
            bedrock: id_or_empty(mats, "bedrock"),
            coal: id_or_empty(mats, "coal_ore"),
            iron: id_or_empty(mats, "iron_ore"),
            gold: id_or_empty(mats, "gold_ore"),
            sand: id_or_empty(mats, "sand"),
            snow: id_or_empty(mats, "snow"),
            water: id_or_empty(mats, "water"),
            lava: id_or_empty(mats, "lava"),
            rope: id_or_empty(mats, "rope"),
            wood: id_or_empty(mats, "wood"),
            leaf: id_or_empty(mats, "leaf"),
            wall_dirt: id_or_empty(mats, "wall_dirt"),
            wall_stone: id_or_empty(mats, "wall_stone"),
            wall_snow: id_or_empty(mats, "wall_snow"),
            wall_sand: id_or_empty(mats, "wall_sand"),
        }
    }
}

/// What generation knows of the world before painting it, worked out from noise and
/// floating-point shaping outside: per column the surface row, the depth of the soil
/// layer and the biome (0 snow, 1 forest, 2 desert); per 4x4 cell whether a cave opens
/// there; and the rows that bound ore veins (35%, 40%, 45%, 72% of the height) and lava
/// pools (76%).
pub struct TerrainPlan {
    pub surf: Vec<i32>,
    pub dirt_depth: Vec<i32>,
    pub biome: Vec<u8>,
    pub cave: Vec<bool>,
    pub vein_floor: i32,
    pub vein_top: i32,
    pub vein_mid: i32,
    pub vein_deep: i32,
    pub lava_top: i32,
}

impl TerrainPlan {
    /// The plan fits a world of `w` by `h` pixels, with rows and depths of sane size.
    pub open spec fn fits(&self, w: int, h: int) -> bool {
        &&& self.surf@.len() == w
        &&& self.dirt_depth@.len() == w
        &&& self.biome@.len() == w
        &&& self.cave@.len() == (w / 4) * (h / 4)
        &&& forall|x: int| 0 <= x < w ==> -0x10_0000 <= #[trigger] self.surf@[x] <= 0x10_0000
        &&& forall|x: int| 0 <= x < w ==> -0x10_0000 <= #[trigger] self.dirt_depth@[x] <= 0x10_0000
    }
}

/// The soil material at row `y` of a column with surface `s`, soil depth `dd` and biome `b`.
pub open spec fn strata_mat(ids: TerrainIds, b: u8, s: int, dd: int, y: int) -> MaterialId {
    if y < s + 3 {
        if b == 0 { ids.snowpack } else if b == 2 { ids.sandstone } else { ids.grass }
    } else if y < s + dd {
        if b == 0 { ids.snowpack } else if b == 2 { ids.sandstone } else { ids.dirt }
    } else {
        ids.stone
    }
}

/// Pixel (a, b) lies in the bedrock frame: the eight outer columns on each side and the four bottom rows.
pub open spec fn in_bedrock_frame(w: int, h: int, a: int, b: int) -> bool {
    a < 8 || a >= w - 8 || b >= h - 4
}

/// The material strata and bedrock give pixel (a, b) (0 where they leave it alone).
pub open spec fn base_mat(plan: TerrainPlan, ids: TerrainIds, w: int, h: int, a: int, b: int) -> MaterialId {
    if ids.bedrock != 0 && in_bedrock_frame(w, h, a, b) {
        ids.bedrock
    } else if b >= plan.surf@[a] {
        strata_mat(ids, plan.biome@[a], plan.surf@[a] as int, plan.dirt_depth@[a] as int, b)
    } else {
        0
    }
}

/// Pixel `q` is what painting material `m` last (0: nothing) over old pixel `o` leaves:
/// a jittered terrain pixel of `m`, or `o` itself (perhaps without its settled bit).
pub open spec fn paint_ok(mats: Materials, o: Pixel, q: Pixel, m: MaterialId) -> bool {
    if m == 0 {
        &&& q.mat == o.mat
        &&& q.shade == o.shade
        &&& q.life == o.life
        &&& (q == o || q == unsettled(o))
    } else {
        exists|d: int| -(mats.def_spec(m).jitter as int) <= d <= mats.def_spec(m).jitter as int && q == #[trigger] terrain_px(m, d)
    }
}

/// Every pixel of `now` is what painting `e` over `w0` leaves.
pub open spec fn painted(mats: Materials, w0: PixelWorld, now: PixelWorld, e: spec_fn(int, int) -> MaterialId) -> bool {
    forall|a: int, b: int| w0.in_bounds(a, b) ==> paint_ok(mats, w0.pixel(a, b), #[trigger] now.pixel(a, b), e(a, b))
}

proof fn lemma_unsettle_fixed(p: Pixel)
    ensures
        unsettled(unsettled(p)) == unsettled(p),
        p.aux == 0 ==> unsettled(p) == p,
{
    let a = p.aux;
    assert((a & !1u8) & !1u8 == a & !1u8) by (bit_vector);
    assert(a == 0 ==> a & !1u8 == a) by (bit_vector);
}

/// The painting record only depends on the materials it gives in-bounds pixels.
proof fn lemma_painted_eq(mats: Materials, w0: PixelWorld, now: PixelWorld, e: spec_fn(int, int) -> MaterialId, f: spec_fn(int, int) -> MaterialId)
    requires
        painted(mats, w0, now, e),
        forall|a: int, b: int| w0.in_bounds(a, b) ==> #[trigger] e(a, b) == f(a, b),
    ensures
        painted(mats, w0, now, f),
{
    assert forall|a: int, b: int| w0.in_bounds(a, b) implies paint_ok(mats, w0.pixel(a, b), #[trigger] now.pixel(a, b), f(a, b)) by {
        assert(e(a, b) == f(a, b));
    }
}

/// A `put` keeps the painting record, with (x, y) now painted `m`.
proof fn lemma_put_paints(
    mats: Materials,
    w0: PixelWorld,
    before: PixelWorld,
    after: PixelWorld,
    r: u64,
    r2: u64,
    x: int,
    y: int,
    m: MaterialId,
    e: spec_fn(int, int) -> MaterialId,
)
    requires
        w0.wf(),
        before.wf(),
        before.same_frame(&w0),
        painted(mats, w0, before, e),
        put_effect(before, mats, r, x, y, m, after, r2),
    ensures
        after.same_frame(&w0),
        painted(mats, w0, after, |a: int, b: int| if a == x && b == y && m != 0 { m } else { e(a, b) }),
{
    assert forall|a: int, b: int| w0.in_bounds(a, b) implies paint_ok(
        mats,
        w0.pixel(a, b),
        #[trigger] after.pixel(a, b),
        (|a2: int, b2: int| if a2 == x && b2 == y && m != 0 { m } else { e(a2, b2) })(a, b),
    ) by {
        assert(paint_ok(mats, w0.pixel(a, b), before.pixel(a, b), e(a, b)));
        if m == 0 || !before.in_bounds(x, y) {
            assert(after.pixel(a, b) == before.pixel(a, b));
        } else {
            let j = mats.def_spec(m).jitter as int;
            let (st, d) = range_next(r, -j, j);
            law_set_then_get(before, before.state(), x, y, terrain_px(m, d), a, b);
            if a == x && b == y {
                assert(after.pixel(a, b) == terrain_px(m, d));
            } else {
                let q = before.pixel(a, b);
                lemma_unsettle_fixed(q);
                lemma_unsettle_fixed(w0.pixel(a, b));
                if e(a, b) != 0 {
                    let d2 = choose|d2: int| -(mats.def_spec(e(a, b)).jitter as int) <= d2 <= mats.def_spec(e(a, b)).jitter as int && q == #[trigger] terrain_px(e(a, b), d2);
                    assert(after.pixel(a, b) == terrain_px(e(a, b), d2));
                }
            }
        }
    }
}

/// Laying column `x` from row `y` down to the bottom, each pixel its stratum.
pub open spec fn strata_col(w: PixelWorld, mats: Materials, plan: TerrainPlan, ids: TerrainIds, st: (SimState, u64), x: int, y: int) -> (SimState, u64)
    decreases w.height() - y,
{
    if y >= w.height() {
        st
    } else {
        let m = strata_mat(ids, plan.biome@[x], plan.surf@[x] as int, plan.dirt_depth@[x] as int, y);
        strata_col(w, mats, plan, ids, put_st(w, mats, st, x, y, m), x, y + 1)
    }
}

/// The side bedrock pass after `j` steps: step `j` lines the 8 outer columns of
/// row `j / 8` on both sides, column `j % 8` from each edge.
pub open spec fn sides(w: PixelWorld, mats: Materials, bedrock: MaterialId, st: (SimState, u64), j: int) -> (SimState, u64)
    decreases j,
{
    if j <= 0 {
        st
    } else {
        let p = sides(w, mats, bedrock, st, j - 1);
        let y = (j - 1) / 8;
        let k = (j - 1) % 8;
        put_st(w, mats, put_st(w, mats, p, k, y, bedrock), w.width() - 1 - k, y, bedrock)
    }
}

/// The bottom bedrock pass after `j` steps: the 4 bottom rows, column by column.
pub open spec fn bottom(w: PixelWorld, mats: Materials, bedrock: MaterialId, st: (SimState, u64), j: int) -> (SimState, u64)
    decreases j,
{
    if j <= 0 {
        st
    } else {
        let p = bottom(w, mats, bedrock, st, j - 1);
        put_st(w, mats, p, (j - 1) / 4, w.height() - 4 + (j - 1) % 4, bedrock)
    }
}

/// All of the base layer: strata, then bedrock at the sides, then at the bottom.
pub open spec fn strata_all(w: PixelWorld, mats: Materials, plan: TerrainPlan, ids: TerrainIds, st: (SimState, u64)) -> (SimState, u64) {
    let laid = strata_upto(w, mats, plan, ids, st, w.width());
    bottom(w, mats, ids.bedrock, sides(w, mats, ids.bedrock, laid, w.height() * 8), w.width() * 4)
}

/// The strata after the first `x` columns, each laid from its surface row down.
pub open spec fn strata_upto(w: PixelWorld, mats: Materials, plan: TerrainPlan, ids: TerrainIds, st: (SimState, u64), x: int) -> (SimState, u64)
    decreases x,
{
    if x <= 0 {
        st
    } else {
        strata_col(w, mats, plan, ids, strata_upto(w, mats, plan, ids, st, x - 1), x - 1, plan.surf@[x - 1] as int)
    }
}

/// Fills every column from its surface row down with soil (grass, snowpack or sandstone on
/// top, then the biome's soil down to the soil depth, then stone), then frames the world
/// with bedrock: eight columns on each side and the four bottom rows.
pub fn lay_strata(pixels: &mut PixelWorld, mats: &Materials, rng: &mut Rng, plan: &TerrainPlan, ids: &TerrainIds)
    requires
        old(pixels).wf(),
        mats.wf(),
        plan.fits(old(pixels).width(), old(pixels).height()),
    ensures
        final(pixels).wf(),
        final(pixels).same_frame(old(pixels)),
        painted(
            *mats,
            *old(pixels),
            *final(pixels),
            |a: int, b: int| base_mat(*plan, *ids, old(pixels).width(), old(pixels).height(), a, b),
        ),
        (final(pixels).state(), final(rng)@) == strata_all(*old(pixels), *mats, *plan, *ids, (old(pixels).state(), old(rng)@)),
{
    let ghost w0 = *pixels;
    let (w, h) = pixels.size();
    let ghost e1 = |a: int, b: int| if b >= plan.surf@[a] { strata_mat(*ids, plan.biome@[a], plan.surf@[a] as int, plan.dirt_depth@[a] as int, b) } else { 0 };
    proof {
        assert(painted(*mats, w0, *pixels, |a: int, b: int| 0u8)) by {
            assert forall|a: int, b: int| w0.in_bounds(a, b) implies paint_ok(*mats, w0.pixel(a, b), #[trigger] pixels.pixel(a, b), 0u8) by {}
        }
    }
    let mut x: i32 = 0;
    while x < w
        invariant
            e1 == (|a: int, b: int| if b >= plan.surf@[a] { strata_mat(*ids, plan.biome@[a], plan.surf@[a] as int, plan.dirt_depth@[a] as int, b) } else { 0u8 }),
            pixels.wf(),
            w0.wf(),
            mats.wf(),
            pixels.same_frame(&w0),
            w == w0.width(),
            h == w0.height(),
            w >= 128,
            h >= 128,
            plan.fits(w as int, h as int),
            0 <= x <= w,
            painted(*mats, w0, *pixels, |a: int, b: int| if a < x { e1(a, b) } else { 0u8 }),
            w0 == *old(pixels),
            (pixels.state(), rng@) == strata_upto(w0, *mats, *plan, *ids, (w0.state(), old(rng)@), x as int),
        decreases w - x,
    {
        let s = plan.surf[x as usize];
        let dd = plan.dirt_depth[x as usize];
        let b = plan.biome[x as usize];
        let mut y = s;
        let ghost colstart = (pixels.state(), rng@);
        proof {
            let ea = |a: int, b2: int| if a < x { e1(a, b2) } else { 0u8 };
            let eb = |a: int, b2: int| if a < x || (a == x && b2 < y) { e1(a, b2) } else { 0u8 };
            assert forall|a: int, b2: int| w0.in_bounds(a, b2) implies #[trigger] ea(a, b2) == eb(a, b2) by {
                if a == x && b2 < y {
                    assert(e1(a, b2) == 0u8);
                }
            }
            lemma_painted_eq(*mats, w0, *pixels, ea, eb);
        }
        while y < h
            invariant
                e1 == (|a: int, b: int| if b >= plan.surf@[a] { strata_mat(*ids, plan.biome@[a], plan.surf@[a] as int, plan.dirt_depth@[a] as int, b) } else { 0u8 }),
                pixels.wf(),
                w0.wf(),
                mats.wf(),
                pixels.same_frame(&w0),
                w == w0.width(),
                h == w0.height(),
                plan.fits(w as int, h as int),
                0 <= x < w,
                s == plan.surf@[x as int],
                dd == plan.dirt_depth@[x as int],
                b == plan.biome@[x as int],
                -0x10_0000 <= s <= 0x10_0000,
                -0x10_0000 <= dd <= 0x10_0000,
                s <= y,
                y <= h || y == s,
                painted(*mats, w0, *pixels, |a: int, b2: int| if a < x || (a == x && b2 < y) { e1(a, b2) } else { 0u8 }),
                w0 == *old(pixels),
                strata_col(w0, *mats, *plan, *ids, (pixels.state(), rng@), x as int, y as int)
                    == strata_col(w0, *mats, *plan, *ids, colstart, x as int, s as int),
                colstart == strata_upto(w0, *mats, *plan, *ids, (w0.state(), old(rng)@), x as int),
            decreases h - y,
        {
            let t = if y < s + 3 {
                if b == 0 { ids.snowpack } else if b == 2 { ids.sandstone } else { ids.grass }
            } else if y < s + dd {
                if b == 0 { ids.snowpack } else if b == 2 { ids.sandstone } else { ids.dirt }
            } else {
                ids.stone
            };
            let ghost before = *pixels;
            let ghost r0 = rng@;
            put(pixels, mats, rng, x, y, t);
            proof {
                let e = |a: int, b2: int| if a < x || (a == x && b2 < y) { e1(a, b2) } else { 0u8 };
                lemma_put_paints(*mats, w0, before, *pixels, r0, rng@, x as int, y as int, t, e);
                assert(t == strata_mat(*ids, b, s as int, dd as int, y as int));
                lemma_painted_eq(
                    *mats,
                    w0,
                    *pixels,
                    |a: int, b2: int| if a == x && b2 == y && t != 0 { t } else { e(a, b2) },
                    |a: int, b2: int| if a < x || (a == x && b2 < y + 1) { e1(a, b2) } else { 0u8 },
                );
            }
            y = y + 1;
        }
        proof {
            assert forall|a: int, b2: int| w0.in_bounds(a, b2) implies paint_ok(
                *mats,
                w0.pixel(a, b2),
                #[trigger] pixels.pixel(a, b2),
                (|a3: int, b3: int| if a3 < x + 1 { e1(a3, b3) } else { 0u8 })(a, b2),
            ) by {
                assert(paint_ok(
                    *mats,
                    w0.pixel(a, b2),
                    pixels.pixel(a, b2),
                    (|a3: int, b3: int| if a3 < x || (a3 == x && b3 < y) { e1(a3, b3) } else { 0u8 })(a, b2),
                ));
            }
        }
        x = x + 1;
    }
    proof {
        assert forall|a: int, b2: int| w0.in_bounds(a, b2) implies paint_ok(*mats, w0.pixel(a, b2), #[trigger] pixels.pixel(a, b2), e1(a, b2)) by {
            assert(paint_ok(*mats, w0.pixel(a, b2), pixels.pixel(a, b2), (|a: int, b: int| if a < x { e1(a, b) } else { 0u8 })(a, b2)));
        }
    }
    let bedrock = ids.bedrock;
    let ghost e2 = |a: int, b2: int| if bedrock != 0 && (a < 8 || a >= w - 8) { bedrock } else { e1(a, b2) };
    let ghost laid = (pixels.state(), rng@);
    assert(laid == strata_upto(w0, *mats, *plan, *ids, (w0.state(), old(rng)@), w as int));
    let mut y: i32 = 0;
    while y < h
        invariant
            e1 == (|a: int, b: int| if b >= plan.surf@[a] { strata_mat(*ids, plan.biome@[a], plan.surf@[a] as int, plan.dirt_depth@[a] as int, b) } else { 0u8 }),
            e2 == (|a: int, b2: int| if bedrock != 0 && (a < 8 || a >= w - 8) { bedrock } else { e1(a, b2) }),
            pixels.wf(),
            w0.wf(),
            mats.wf(),
            pixels.same_frame(&w0),
            w == w0.width(),
            h == w0.height(),
            w >= 128,
            bedrock == ids.bedrock,
            0 <= y <= h,
            painted(*mats, w0, *pixels, |a: int, b2: int| if b2 < y { e2(a, b2) } else { e1(a, b2) }),
            (pixels.state(), rng@) == sides(w0, *mats, bedrock, laid, y * 8),
            laid == strata_upto(w0, *mats, *plan, *ids, (w0.state(), old(rng)@), w as int),
            w0 == *old(pixels),
        decreases h - y,
    {
        let mut k: i32 = 0;
        while k < 8
            invariant
                e1 == (|a: int, b: int| if b >= plan.surf@[a] { strata_mat(*ids, plan.biome@[a], plan.surf@[a] as int, plan.dirt_depth@[a] as int, b) } else { 0u8 }),
                e2 == (|a: int, b2: int| if bedrock != 0 && (a < 8 || a >= w - 8) { bedrock } else { e1(a, b2) }),
                pixels.wf(),
                w0.wf(),
                mats.wf(),
                pixels.same_frame(&w0),
                w == w0.width(),
                h == w0.height(),
                w >= 128,
                bedrock == ids.bedrock,
                0 <= y < h,
                0 <= k <= 8,
                (pixels.state(), rng@) == sides(w0, *mats, bedrock, laid, y * 8 + k),
                painted(
                    *mats,
                    w0,
                    *pixels,
                    |a: int, b2: int| if b2 < y || (b2 == y && bedrock != 0 && (a < k || a > w - 1 - k)) { e2(a, b2) } else { e1(a, b2) },
                ),
            decreases 8 - k,
        {
            proof {
                vstd::arithmetic::div_mod::lemma_fundamental_div_mod_converse((y * 8 + k) as int, 8, y as int, k as int);
            }
            let ghost e = |a: int, b2: int| if b2 < y || (b2 == y && bedrock != 0 && (a < k || a > w - 1 - k)) { e2(a, b2) } else { e1(a, b2) };
            let ghost before = *pixels;
            let ghost r0 = rng@;
            put(pixels, mats, rng, k, y, bedrock);
            proof {
                lemma_put_paints(*mats, w0, before, *pixels, r0, rng@, k as int, y as int, bedrock, e);
            }
            let ghost e_mid = |a: int, b2: int| if a == k && b2 == y && bedrock != 0 { bedrock } else { e(a, b2) };
            let ghost before2 = *pixels;
            let ghost r1 = rng@;
            put(pixels, mats, rng, w - 1 - k, y, bedrock);
            proof {
                lemma_put_paints(*mats, w0, before2, *pixels, r1, rng@, (w - 1 - k) as int, y as int, bedrock, e_mid);
                let e_next = |a: int, b2: int| if b2 < y || (b2 == y && bedrock != 0 && (a < k + 1 || a > w - 1 - (k + 1))) { e2(a, b2) } else { e1(a, b2) };
                lemma_painted_eq(*mats, w0, *pixels, |a3: int, b3: int| if a3 == w - 1 - k && b3 == y && bedrock != 0 { bedrock } else { e_mid(a3, b3) }, e_next);
            }
            k = k + 1;
        }
        proof {
            let e_now = |a: int, b2: int| if b2 < y || (b2 == y && bedrock != 0 && (a < k || a > w - 1 - k)) { e2(a, b2) } else { e1(a, b2) };
            lemma_painted_eq(*mats, w0, *pixels, e_now, |a3: int, b3: int| if b3 < y + 1 { e2(a3, b3) } else { e1(a3, b3) });
        }
        y = y + 1;
    }
    let ghost e3 = |a: int, b2: int| if bedrock != 0 && b2 >= h - 4 { bedrock } else { e2(a, b2) };
    proof {
        lemma_painted_eq(*mats, w0, *pixels, |a3: int, b3: int| if b3 < y { e2(a3, b3) } else { e1(a3, b3) }, e2);
    }
    let ghost walled = (pixels.state(), rng@);
    let mut x: i32 = 0;
    while x < w
        invariant
            e1 == (|a: int, b: int| if b >= plan.surf@[a] { strata_mat(*ids, plan.biome@[a], plan.surf@[a] as int, plan.dirt_depth@[a] as int, b) } else { 0u8 }),
            e2 == (|a: int, b2: int| if bedrock != 0 && (a < 8 || a >= w - 8) { bedrock } else { e1(a, b2) }),
            e3 == (|a: int, b2: int| if bedrock != 0 && b2 >= h - 4 { bedrock } else { e2(a, b2) }),
            pixels.wf(),
            w0.wf(),
            mats.wf(),
            pixels.same_frame(&w0),
            w == w0.width(),
            h == w0.height(),
            h >= 128,
            bedrock == ids.bedrock,
            0 <= x <= w,
            painted(*mats, w0, *pixels, |a: int, b2: int| if a < x { e3(a, b2) } else { e2(a, b2) }),
            (pixels.state(), rng@) == bottom(w0, *mats, bedrock, walled, x * 4),
            walled == sides(w0, *mats, bedrock, strata_upto(w0, *mats, *plan, *ids, (w0.state(), old(rng)@), w as int), h * 8),
            w0 == *old(pixels),
        decreases w - x,
    {
        let mut y = h - 4;
        while y < h
            invariant
                e1 == (|a: int, b: int| if b >= plan.surf@[a] { strata_mat(*ids, plan.biome@[a], plan.surf@[a] as int, plan.dirt_depth@[a] as int, b) } else { 0u8 }),
                e2 == (|a: int, b2: int| if bedrock != 0 && (a < 8 || a >= w - 8) { bedrock } else { e1(a, b2) }),
                e3 == (|a: int, b2: int| if bedrock != 0 && b2 >= h - 4 { bedrock } else { e2(a, b2) }),
                pixels.wf(),
                w0.wf(),
                mats.wf(),
                pixels.same_frame(&w0),
                w == w0.width(),
                h == w0.height(),
                h >= 128,
                bedrock == ids.bedrock,
                0 <= x < w,
                h - 4 <= y <= h,
                painted(*mats, w0, *pixels, |a: int, b2: int| if a < x || (a == x && bedrock != 0 && h - 4 <= b2 < y) { e3(a, b2) } else { e2(a, b2) }),
                (pixels.state(), rng@) == bottom(w0, *mats, bedrock, walled, x * 4 + y - (h - 4)),
            decreases h - y,
        {
            proof {
                vstd::arithmetic::div_mod::lemma_fundamental_div_mod_converse((x * 4 + y - (h - 4)) as int, 4, x as int, (y - (h - 4)) as int);
            }
            let ghost e = |a: int, b2: int| if a < x || (a == x && bedrock != 0 && h - 4 <= b2 < y) { e3(a, b2) } else { e2(a, b2) };
            let ghost before = *pixels;
            let ghost r0 = rng@;
            put(pixels, mats, rng, x, y, bedrock);
            proof {
                lemma_put_paints(*mats, w0, before, *pixels, r0, rng@, x as int, y as int, bedrock, e);
                lemma_painted_eq(
                    *mats,
                    w0,
                    *pixels,
                    |a3: int, b3: int| if a3 == x && b3 == y && bedrock != 0 { bedrock } else { e(a3, b3) },
                    |a3: int, b3: int| if a3 < x || (a3 == x && bedrock != 0 && h - 4 <= b3 < y + 1) { e3(a3, b3) } else { e2(a3, b3) },
                );
            }
            y = y + 1;
        }
        proof {
            lemma_painted_eq(
                *mats,
                w0,
                *pixels,
                |a3: int, b3: int| if a3 < x || (a3 == x && bedrock != 0 && h - 4 <= b3 < y) { e3(a3, b3) } else { e2(a3, b3) },
                |a3: int, b3: int| if a3 < x + 1 { e3(a3, b3) } else { e2(a3, b3) },
            );
        }
        x = x + 1;
    }
    proof {
        assert forall|a: int, b2: int| w0.in_bounds(a, b2) implies paint_ok(
            *mats,
            w0.pixel(a, b2),
            #[trigger] pixels.pixel(a, b2),
            (|a3: int, b3: int| base_mat(*plan, *ids, w0.width(), w0.height(), a3, b3))(a, b2),
        ) by {
            assert(paint_ok(*mats, w0.pixel(a, b2), pixels.pixel(a, b2), (|a3: int, b3: int| if a3 < x { e3(a3, b3) } else { e2(a3, b3) })(a, b2)));
        }
    }
}

/// What a pixel shows after a stage, given its old value `o` and the stage's mark `t` for
/// it: erased (`t < 0`), kept (`t == 0`, perhaps without its settled bit), or painted
/// with material `t` and a jitter within the material's amplitude.
pub open spec fn mark_ok(mats: Materials, o: Pixel, q: Pixel, t: int) -> bool {
    if t < 0 {
        q == empty_px()
    } else {
        paint_ok(mats, o, q, t as u8)
    }
}

/// Every pixel of `now` is what the marks `e` leave over `w0`.
pub open spec fn marked(mats: Materials, w0: PixelWorld, now: PixelWorld, e: spec_fn(int, int) -> int) -> bool {
    forall|a: int, b: int| w0.in_bounds(a, b) ==> mark_ok(mats, w0.pixel(a, b), #[trigger] now.pixel(a, b), e(a, b))
}

proof fn lemma_marked_eq(mats: Materials, w0: PixelWorld, now: PixelWorld, e: spec_fn(int, int) -> int, f: spec_fn(int, int) -> int)
    requires
        marked(mats, w0, now, e),
        forall|a: int, b: int| w0.in_bounds(a, b) ==> #[trigger] e(a, b) == f(a, b),
    ensures
        marked(mats, w0, now, f),
{
    assert forall|a: int, b: int| w0.in_bounds(a, b) implies mark_ok(mats, w0.pixel(a, b), #[trigger] now.pixel(a, b), f(a, b)) by {
        assert(e(a, b) == f(a, b));
    }
}

/// A `clear` keeps the record, with (x, y) now erased.
proof fn lemma_clear_marks(mats: Materials, w0: PixelWorld, before: PixelWorld, after: PixelWorld, x: int, y: int, e: spec_fn(int, int) -> int)
    requires
        w0.wf(),
        before.wf(),
        before.same_frame(&w0),
        marked(mats, w0, before, e),
        after.wf(),
        after.same_frame(&before),
        after.state() == before.set_st(before.state(), x, y, empty_px()),
        forall|a: int, b: int| w0.in_bounds(a, b) ==> #[trigger] e(a, b) <= 255,
    ensures
        marked(mats, w0, after, |a: int, b: int| if a == x && b == y && w0.in_bounds(x, y) { -1 } else { e(a, b) }),
{
    assert forall|a: int, b: int| w0.in_bounds(a, b) implies mark_ok(
        mats,
        w0.pixel(a, b),
        #[trigger] after.pixel(a, b),
        (|a2: int, b2: int| if a2 == x && b2 == y && w0.in_bounds(x, y) { -1 } else { e(a2, b2) })(a, b),
    ) by {
        assert(mark_ok(mats, w0.pixel(a, b), before.pixel(a, b), e(a, b)));
        if !before.in_bounds(x, y) {
            assert(after.pixel(a, b) == before.pixel(a, b));
        } else {
            law_set_then_get(before, before.state(), x, y, empty_px(), a, b);
            if !(a == x && b == y) {
                let q = before.pixel(a, b);
                lemma_unsettle_fixed(q);
                lemma_unsettle_fixed(w0.pixel(a, b));
                if e(a, b) < 0 {
                    assert(unsettled(empty_px()) == empty_px()) by {
                        lemma_unsettle_fixed(empty_px());
                    }
                } else if e(a, b) > 0 {
                    let m = e(a, b) as u8;
                    let d2 = choose|d2: int| -(mats.def_spec(m).jitter as int) <= d2 <= mats.def_spec(m).jitter as int && q == #[trigger] terrain_px(m, d2);
                    assert(after.pixel(a, b) == terrain_px(m, d2));
                }
            }
        }
    }
}

/// Pixel (a, b) lies in a carved cave cell: its 4x4 cell keeps 10 pixels off the sides
/// and 24 off the top and bottom, starts at least 24 rows under the surface of its first
/// column, and the plan opens a cave there.
pub open spec fn carved(plan: TerrainPlan, w: int, h: int, a: int, b: int) -> bool {
    let x = (a / 4) * 4;
    let y = (b / 4) * 4;
    &&& !(x < 10 || x >= w - 10 || y < 24 || y >= h - 24)
    &&& y >= plan.surf@[x] + 24
    &&& plan.cave@[(b / 4) * (w / 4) + a / 4]
}

/// The marks of a cave pass that has handled the cells before cell (cx, cy) in row order.
spec fn cave_marks(plan: TerrainPlan, w: int, h: int, cx: int, cy: int) -> spec_fn(int, int) -> int {
    |a: int, b: int| if (b / 4 < cy || (b / 4 == cy && a / 4 < cx)) && carved(plan, w, h, a, b) { -1int } else { 0int }
}

/// Whether the plan opens the cave cell (cx, cy) of a `w` by `h` world.
fn cave_open(plan: &TerrainPlan, w: i32, h: i32, cx: i32, cy: i32) -> (open: bool)
    requires
        w >= 128,
        h >= 128,
        w % 4 == 0,
        h % 4 == 0,
        0 <= cx < w / 4,
        0 <= cy < h / 4,
        plan.fits(w as int, h as int),
    ensures
        open == carved(*plan, w as int, h as int, cx * 4, cy * 4),
{
    let x = cx * 4;
    let y = cy * 4;
    assert((cx * 4) / 4 == cx && (cy * 4) / 4 == cy);
    assert(((cx * 4) / 4) * 4 == x && ((cy * 4) / 4) * 4 == y);
    if x < 10 || x >= w - 10 || y < 24 || y >= h - 24 {
        return false;
    }
    let s = plan.surf[x as usize];
    if y < s + 24 {
        return false;
    }
    let gw = (w / 4) as usize;
    let n = plan.cave.len();
    proof {
        assert(0 <= cy * (w / 4) + cx < (w / 4) * (h / 4)) by (nonlinear_arith)
            requires
                0 <= cx < w / 4,
                0 <= cy < h / 4,
        ;
        assert(0 <= cy * (w / 4) <= cy * (w / 4) + cx) by (nonlinear_arith)
            requires
                0 <= cx,
                0 <= cy,
                0 <= w / 4,
        ;
        assert((cx * 4) / 4 == cx && (cy * 4) / 4 == cy);
    }
    plan.cave[(cy as usize) * gw + cx as usize]
}

/// Emptying the 4 x 4 cell at (x0, y0), row by row, after `j` pixels.
pub open spec fn cell_clear(w: PixelWorld, st: SimState, x0: int, y0: int, j: int) -> SimState
    decreases j,
{
    if j <= 0 {
        st
    } else {
        w.set_st(cell_clear(w, st, x0, y0, j - 1), x0 + (j - 1) % 4, y0 + (j - 1) / 4, empty_px())
    }
}

/// The cave pass after `k` cells (row-major): every cave cell emptied.
pub open spec fn caves_upto(w: PixelWorld, plan: TerrainPlan, st: SimState, k: int) -> SimState
    decreases k,
{
    if k <= 0 {
        st
    } else {
        let p = caves_upto(w, plan, st, k - 1);
        let gw = w.width() / 4;
        let cx = (k - 1) % gw;
        let cy = (k - 1) / gw;
        if carved(plan, w.width(), w.height(), cx * 4, cy * 4) {
            cell_clear(w, p, cx * 4, cy * 4, 16)
        } else {
            p
        }
    }
}

/// Empties the 4x4 cell (cx, cy).
#[verifier::rlimit(40)]
fn clear_cell(pixels: &mut PixelWorld, cx: i32, cy: i32, Ghost(w0): Ghost<PixelWorld>, Ghost(e): Ghost<spec_fn(int, int) -> int>)
    requires
        old(pixels).wf(),
        w0.wf(),
        old(pixels).same_frame(&w0),
        0 <= cx < w0.width() / 4,
        0 <= cy < w0.height() / 4,
        marked(vstd::pervasive::arbitrary(), w0, *old(pixels), e),
        forall|a: int, b: int| w0.in_bounds(a, b) ==> #[trigger] e(a, b) <= 255,
    ensures
        final(pixels).wf(),
        final(pixels).same_frame(&w0),
        marked(vstd::pervasive::arbitrary(), w0, *final(pixels), |a: int, b: int| if a / 4 == cx && b / 4 == cy { -1int } else { e(a, b) }),
        final(pixels).state() == cell_clear(w0, old(pixels).state(), cx * 4, cy * 4, 16),
{
    let ghost mats: Materials = vstd::pervasive::arbitrary();
    proof {
        w0.lemma_dims();
        assert(cx * 4 + 4 <= w0.width() && cy * 4 + 4 <= w0.height()) by (nonlinear_arith)
            requires
                0 <= cx < w0.width() / 4,
                0 <= cy < w0.height() / 4,
                w0.width() % 4 == 0,
                w0.height() % 4 == 0,
                w0.width() >= 0,
                w0.height() >= 0,
        ;
    }
    let x = cx * 4;
    let y = cy * 4;
    let mut dy: i32 = 0;
    while dy < 4
        invariant
            pixels.wf(),
            w0.wf(),
            pixels.same_frame(&w0),
            0 <= cx < w0.width() / 4,
            0 <= cy < w0.height() / 4,
            x == cx * 4,
            y == cy * 4,
            x + 4 <= w0.width(),
            y + 4 <= w0.height(),
            0 <= dy <= 4,
            forall|a: int, b: int| w0.in_bounds(a, b) ==> #[trigger] e(a, b) <= 255,
            marked(mats, w0, *pixels, |a: int, b: int| if a / 4 == cx && b / 4 == cy && b < y + dy { -1int } else { e(a, b) }),
            pixels.state() == cell_clear(w0, old(pixels).state(), x as int, y as int, dy * 4),
        decreases 4 - dy,
    {
        let mut dx: i32 = 0;
        while dx < 4
            invariant
                pixels.wf(),
                w0.wf(),
                pixels.same_frame(&w0),
                0 <= cx < w0.width() / 4,
                0 <= cy < w0.height() / 4,
                x == cx * 4,
                y == cy * 4,
                x + 4 <= w0.width(),
                y + 4 <= w0.height(),
                0 <= dy < 4,
                0 <= dx <= 4,
                forall|a: int, b: int| w0.in_bounds(a, b) ==> #[trigger] e(a, b) <= 255,
                marked(mats, w0, *pixels, |a: int, b: int| if a / 4 == cx && b / 4 == cy && (b < y + dy || (b == y + dy && a < x + dx)) { -1int } else { e(a, b) }),
                pixels.state() == cell_clear(w0, old(pixels).state(), x as int, y as int, dy * 4 + dx),
            decreases 4 - dx,
        {
            proof {
                vstd::arithmetic::div_mod::lemma_fundamental_div_mod_converse((dy * 4 + dx) as int, 4, dy as int, dx as int);
            }
            let ghost before = *pixels;
            let ghost ecur = |a: int, b: int| if a / 4 == cx && b / 4 == cy && (b < y + dy || (b == y + dy && a < x + dx)) { -1int } else { e(a, b) };
            clear(pixels, x + dx, y + dy);
            proof {
                assert forall|a: int, b: int| w0.in_bounds(a, b) implies #[trigger] ecur(a, b) <= 255 by {}
                lemma_clear_marks(mats, w0, before, *pixels, (x + dx) as int, (y + dy) as int, ecur);
                assert(w0.in_bounds((x + dx) as int, (y + dy) as int));
                assert((x + dx) as int / 4 == cx && (y + dy) as int / 4 == cy);
                lemma_marked_eq(
                    mats,
                    w0,
                    *pixels,
                    |a: int, b: int| if a == x + dx && b == y + dy && w0.in_bounds((x + dx) as int, (y + dy) as int) { -1 } else { ecur(a, b) },
                    |a: int, b: int| if a / 4 == cx && b / 4 == cy && (b < y + dy || (b == y + dy && a < x + dx + 1)) { -1int } else { e(a, b) },
                );
            }
            dx = dx + 1;
        }
        proof {
            lemma_marked_eq(
                mats,
                w0,
                *pixels,
                |a: int, b: int| if a / 4 == cx && b / 4 == cy && (b < y + dy || (b == y + dy && a < x + dx)) { -1int } else { e(a, b) },
                |a: int, b: int| if a / 4 == cx && b / 4 == cy && b < y + dy + 1 { -1int } else { e(a, b) },
            );
        }
        dy = dy + 1;
    }
    proof {
        lemma_marked_eq(
            mats,
            w0,
            *pixels,
            |a: int, b: int| if a / 4 == cx && b / 4 == cy && b < y + dy { -1int } else { e(a, b) },
            |a: int, b: int| if a / 4 == cx && b / 4 == cy { -1int } else { e(a, b) },
        );
    }
}

/// Carves the caves of the plan: every 4x4 cell the plan opens, away from the world's
/// edges and at least 24 rows under the surface, is emptied.
pub fn carve_caves(pixels: &mut PixelWorld, plan: &TerrainPlan)
    requires
        old(pixels).wf(),
        plan.fits(old(pixels).width(), old(pixels).height()),
    ensures
        final(pixels).wf(),
        final(pixels).same_frame(old(pixels)),
        forall|a: int, b: int|
            old(pixels).in_bounds(a, b) ==> if carved(*plan, old(pixels).width(), old(pixels).height(), a, b) {
                #[trigger] final(pixels).pixel(a, b) == empty_px()
            } else {
                let o = old(pixels).pixel(a, b);
                let q = final(pixels).pixel(a, b);
                &&& q.mat == o.mat
                &&& q.shade == o.shade
                &&& q.life == o.life
                &&& (q == o || q == unsettled(o))
            },
        final(pixels).state() == caves_upto(
            *old(pixels),
            *plan,
            old(pixels).state(),
            (old(pixels).width() / 4) * (old(pixels).height() / 4),
        ),
{
    let ghost w0 = *pixels;
    let ghost mats: Materials = vstd::pervasive::arbitrary();
    let (w, h) = pixels.size();
    proof {
        w0.lemma_dims();
        assert forall|a: int, b: int| w0.in_bounds(a, b) implies mark_ok(mats, w0.pixel(a, b), #[trigger] pixels.pixel(a, b), cave_marks(*plan, w as int, h as int, 0, 0)(a, b)) by {}
    }
    let gw = w / 4;
    let gh = h / 4;
    let mut cy: i32 = 0;
    while cy < gh
        invariant
            pixels.wf(),
            w0.wf(),
            pixels.same_frame(&w0),
            w == w0.width(),
            h == w0.height(),
            w >= 128,
            h >= 128,
            w % 4 == 0,
            h % 4 == 0,
            gw == w / 4,
            gh == h / 4,
            plan.fits(w as int, h as int),
            0 <= cy <= gh,
            marked(mats, w0, *pixels, cave_marks(*plan, w as int, h as int, 0, cy as int)),
            w0 == *old(pixels),
            pixels.state() == caves_upto(w0, *plan, w0.state(), cy * gw),
        decreases gh - cy,
    {
        let mut cx: i32 = 0;
        while cx < gw
            invariant
                pixels.wf(),
                w0.wf(),
                pixels.same_frame(&w0),
                w == w0.width(),
                h == w0.height(),
                w >= 128,
                h >= 128,
                w % 4 == 0,
                h % 4 == 0,
                gw == w / 4,
                gh == h / 4,
                plan.fits(w as int, h as int),
                0 <= cy < gh,
                0 <= cx <= gw,
                marked(mats, w0, *pixels, cave_marks(*plan, w as int, h as int, cx as int, cy as int)),
                w0 == *old(pixels),
                pixels.state() == caves_upto(w0, *plan, w0.state(), cy * gw + cx),
            decreases gw - cx,
        {
            proof {
                vstd::arithmetic::div_mod::lemma_fundamental_div_mod_converse((cy * gw + cx) as int, gw as int, cy as int, cx as int);
            }
            let ghost ecur = cave_marks(*plan, w as int, h as int, cx as int, cy as int);
            let ghost enext = cave_marks(*plan, w as int, h as int, cx + 1, cy as int);
            let open = cave_open(plan, w, h, cx, cy);
            proof {
                assert forall|a: int, b: int| w0.in_bounds(a, b) && a / 4 == cx && b / 4 == cy implies carved(*plan, w as int, h as int, a, b) == open by {
                    assert((cx * 4) / 4 == cx && (cy * 4) / 4 == cy);
                }
            }
            if open {
                proof {
                    assert forall|a: int, b: int| w0.in_bounds(a, b) implies #[trigger] ecur(a, b) <= 255 by {}
                }
                clear_cell(pixels, cx, cy, Ghost(w0), Ghost(ecur));
                proof {
                    lemma_marked_eq(mats, w0, *pixels, |a: int, b: int| if a / 4 == cx && b / 4 == cy { -1int } else { ecur(a, b) }, enext);
                }
            } else {
                proof {
                    lemma_marked_eq(mats, w0, *pixels, ecur, enext);
                }
            }
            cx = cx + 1;
        }
        proof {
            assert(cy * gw + gw == (cy + 1) * gw) by (nonlinear_arith);
            assert forall|a: int, b: int| w0.in_bounds(a, b) implies #[trigger] cave_marks(*plan, w as int, h as int, cx as int, cy as int)(a, b)
                == cave_marks(*plan, w as int, h as int, 0, cy + 1)(a, b) by {
                if b / 4 == cy {
                    assert(a / 4 < gw);
                }
            }
            lemma_marked_eq(mats, w0, *pixels, cave_marks(*plan, w as int, h as int, cx as int, cy as int), cave_marks(*plan, w as int, h as int, 0, cy + 1));
        }
        cy = cy + 1;
    }
    proof {
        assert(cy * gw == gw * gh) by (nonlinear_arith)
            requires
                cy == gh,
        ;
        assert forall|a: int, b: int| w0.in_bounds(a, b) implies (if carved(*plan, w as int, h as int, a, b) {
            #[trigger] pixels.pixel(a, b) == empty_px()
        } else {
            let o = w0.pixel(a, b);
            let q = pixels.pixel(a, b);
            &&& q.mat == o.mat
            &&& q.shade == o.shade
            &&& q.life == o.life
            &&& (q == o || q == unsettled(o))
        }) by {
            assert(b / 4 < gh);
            assert(mark_ok(mats, w0.pixel(a, b), pixels.pixel(a, b), cave_marks(*plan, w as int, h as int, 0, cy as int)(a, b)));
        }
    }
}

/// The background wall material of wall cell (cx, cy), if the pass sets one: cells whose
/// centre lies more than six rows under the surface get stone walls below the soil
/// depth (plus six) and the biome's wall above.
pub open spec fn wall_of(plan: TerrainPlan, ids: TerrainIds, cx: int, cy: int) -> Option<MaterialId> {
    let px = cx * 4 + 2;
    let py = cy * 4 + 2;
    let s = plan.surf@[px] as int;
    if py <= s + 6 {
        None
    } else if py - s > plan.dirt_depth@[px] + 6 {
        Some(ids.wall_stone)
    } else {
        let b = plan.biome@[px];
        Some(if b == 0 { ids.wall_snow } else if b == 2 { ids.wall_sand } else { ids.wall_dirt })
    }
}

/// Wall cell (cx, cy) of a `gw`-wide wall grid shows target `t`: its material and shade
/// `shade` (within 122 +- 8) when `t` names one, its old material and shade otherwise.
pub open spec fn wall_cell_ok(wv: Seq<u8>, sv: Seq<u8>, wo: Seq<u8>, so: Seq<u8>, gw: int, cx: int, cy: int, t: Option<MaterialId>, shade: int) -> bool {
    let i = cy * gw + cx;
    match t {
        Some(m) => wv[i] == m && sv[i] == shade && 114 <= sv[i] <= 130,
        None => wv[i] == wo[i] && sv[i] == so[i],
    }
}

/// The random state when the wall pass reaches cell number `k` (row-major): each
/// earlier cell that got a wall drew its shade.
pub open spec fn wall_rng(plan: TerrainPlan, ids: TerrainIds, r0: u64, gw: int, k: int) -> u64
    decreases k,
{
    if k <= 0 {
        r0
    } else {
        let r = wall_rng(plan, ids, r0, gw, k - 1);
        if wall_target(plan, ids, (k - 1) % gw, (k - 1) / gw) is Some {
            range_next(r, -8, 8).0
        } else {
            r
        }
    }
}

/// The shade the wall pass gives cell (cx, cy): 122 plus its draw in -8..=8.
pub open spec fn wall_shade_at(plan: TerrainPlan, ids: TerrainIds, r0: u64, gw: int, cx: int, cy: int) -> int {
    122 + range_next(wall_rng(plan, ids, r0, gw, cy * gw + cx), -8, 8).1
}

proof fn lemma_wall_rng_idle(plan: TerrainPlan, ids: TerrainIds, r0: u64, gw: int, k: int)
    requires
        ids.wall_dirt == 0,
    ensures
        wall_rng(plan, ids, r0, gw, k) == r0,
    decreases k,
{
    if k > 0 {
        lemma_wall_rng_idle(plan, ids, r0, gw, k - 1);
    }
}

/// The wall `build_walls` gives cell (cx, cy): none at all without a soil wall material.
pub open spec fn wall_target(plan: TerrainPlan, ids: TerrainIds, cx: int, cy: int) -> Option<MaterialId> {
    if ids.wall_dirt > 0 {
        wall_of(plan, ids, cx, cy)
    } else {
        None
    }
}

/// The wall pass has handled the cells before (cxl, cyl) in row order.
spec fn walls_upto(r0: u64, plan: TerrainPlan, ids: TerrainIds, wv: Seq<u8>, sv: Seq<u8>, wo: Seq<u8>, so: Seq<u8>, gw: int, cxl: int, cyl: int, cx: int, cy: int) -> bool {
    wall_cell_ok(
        wv,
        sv,
        wo,
        so,
        gw,
        cx,
        cy,
        if cy < cyl || (cy == cyl && cx < cxl) { wall_of(plan, ids, cx, cy) } else { None },
        wall_shade_at(plan, ids, r0, gw, cx, cy),
    )
}

/// Lays the background walls (one per 4x4 cell, row-major): with a wall material at hand,
/// every cell `wall_of` gives a material gets it, with a shade of 122 +- 8; other cells keep theirs.
pub fn build_walls(rng: &mut Rng, plan: &TerrainPlan, ids: &TerrainIds, w: i32, h: i32, walls: &mut Vec<u8>, wall_shade: &mut Vec<u8>)
    requires
        w >= 128,
        h >= 128,
        w % 4 == 0,
        h % 4 == 0,
        w <= 0x1000_0000,
        h <= 0x1000_0000,
        plan.fits(w as int, h as int),
        old(walls)@.len() == (w / 4) * (h / 4),
        old(wall_shade)@.len() == (w / 4) * (h / 4),
    ensures
        final(walls)@.len() == old(walls)@.len(),
        final(wall_shade)@.len() == old(wall_shade)@.len(),
        forall|cx: int, cy: int|
            0 <= cx < w / 4 && 0 <= cy < h / 4 ==> #[trigger] wall_cell_ok(
                final(walls)@,
                final(wall_shade)@,
                old(walls)@,
                old(wall_shade)@,
                (w / 4) as int,
                cx,
                cy,
                wall_target(*plan, *ids, cx, cy),
                wall_shade_at(*plan, *ids, old(rng)@, (w / 4) as int, cx, cy),
            ),
        final(rng)@ == wall_rng(*plan, *ids, old(rng)@, (w / 4) as int, (w / 4) * (h / 4)),
{
    let ghost w_old = walls@;
    let ghost s_old = wall_shade@;
    let ghost r_start = rng@;
    if ids.wall_dirt == 0 {
        proof {
            lemma_wall_rng_idle(*plan, *ids, r_start, (w / 4) as int, (w / 4) * (h / 4));
        }
        return;
    }
    let gw = w / 4;
    let gh = h / 4;
    let mut cy: i32 = 0;
    while cy < gh
        invariant
            w >= 128,
            h >= 128,
            w % 4 == 0,
            h % 4 == 0,
            h <= 0x1000_0000,
            gw == w / 4,
            gh == h / 4,
            ids.wall_dirt > 0,
            plan.fits(w as int, h as int),
            walls@.len() == gw * gh,
            wall_shade@.len() == gw * gh,
            w_old.len() == gw * gh,
            s_old.len() == gw * gh,
            0 <= cy <= gh,
            forall|cx2: int, cy2: int|
                0 <= cx2 < gw && 0 <= cy2 < gh ==> #[trigger] walls_upto(r_start, *plan, *ids, walls@, wall_shade@, w_old, s_old, gw as int, 0, cy as int, cx2, cy2),
            r_start == old(rng)@,
            rng@ == wall_rng(*plan, *ids, r_start, gw as int, cy * gw),
        decreases gh - cy,
    {
        let mut cx: i32 = 0;
        while cx < gw
            invariant
                w >= 128,
                h >= 128,
                w % 4 == 0,
                h % 4 == 0,
                h <= 0x1000_0000,
                gw == w / 4,
                gh == h / 4,
                ids.wall_dirt > 0,
                plan.fits(w as int, h as int),
                walls@.len() == gw * gh,
                wall_shade@.len() == gw * gh,
                w_old.len() == gw * gh,
                s_old.len() == gw * gh,
                0 <= cy < gh,
                0 <= cx <= gw,
                forall|cx2: int, cy2: int|
                    0 <= cx2 < gw && 0 <= cy2 < gh ==> #[trigger] walls_upto(r_start, *plan, *ids, walls@, wall_shade@, w_old, s_old, gw as int, cx as int, cy as int, cx2, cy2),
                r_start == old(rng)@,
                rng@ == wall_rng(*plan, *ids, r_start, gw as int, cy * gw + cx),
            decreases gw - cx,
        {
            let px = cx * 4 + 2;
            let py = cy * 4 + 2;
            proof {
                assert(px < w && py < h) by (nonlinear_arith)
                    requires
                        0 <= cx < w / 4,
                        0 <= cy < h / 4,
                        px == cx * 4 + 2,
                        py == cy * 4 + 2,
                        w % 4 == 0,
                        h % 4 == 0,
                        w >= 0,
                        h >= 0,
                ;
                assert(0 <= cy * gw + cx < gw * gh) by (nonlinear_arith)
                    requires
                        0 <= cx < gw,
                        0 <= cy < gh,
                ;
                assert(0 <= cy * gw <= cy * gw + cx) by (nonlinear_arith)
                    requires
                        0 <= cx,
                        0 <= cy,
                        0 <= gw,
                ;
            }
            let s = plan.surf[px as usize];
            let ghost wb = walls@;
            let ghost sb = wall_shade@;
            proof {
                vstd::arithmetic::div_mod::lemma_fundamental_div_mod_converse((cy * gw + cx) as int, gw as int, cy as int, cx as int);
            }
            if py > s + 6 {
                let depth = py - s;
                let dd = plan.dirt_depth[px as usize];
                let m = if depth > dd + 6 {
                    ids.wall_stone
                } else {
                    let b = plan.biome[px as usize];
                    if b == 0 { ids.wall_snow } else if b == 2 { ids.wall_sand } else { ids.wall_dirt }
                };
                let n = walls.len();
                assert(cy * gw + cx < n);
                let i = (cy as usize) * (gw as usize) + cx as usize;
                walls.set(i, m);
                let d = rng.range_i32(-8, 8);
                wall_shade.set(i, (122 + d) as u8);
                proof {
                    assert(wall_of(*plan, *ids, cx as int, cy as int) == Some(m));
                }
            } else {
                proof {
                    assert(wall_of(*plan, *ids, cx as int, cy as int) is None);
                }
            }
            proof {
                assert forall|cx2: int, cy2: int| 0 <= cx2 < gw && 0 <= cy2 < gh implies #[trigger] walls_upto(
                    r_start,
                    *plan,
                    *ids,
                    walls@,
                    wall_shade@,
                    w_old,
                    s_old,
                    gw as int,
                    cx + 1,
                    cy as int,
                    cx2,
                    cy2,
                ) by {
                    assert(walls_upto(r_start, *plan, *ids, wb, sb, w_old, s_old, gw as int, cx as int, cy as int, cx2, cy2));
                    if !(cx2 == cx && cy2 == cy) {
                        let j = cy2 * gw + cx2;
                        assert(0 <= j < gw * gh) by (nonlinear_arith)
                            requires
                                0 <= cx2 < gw,
                                0 <= cy2 < gh,
                                j == cy2 * gw + cx2,
                        ;
                        assert(j != cy * gw + cx) by (nonlinear_arith)
                            requires
                                0 <= cx2 < gw,
                                0 <= cx < gw,
                                j == cy2 * gw + cx2,
                                !(cx2 == cx && cy2 == cy),
                        {
                            if cy2 < cy {
                                assert(cy2 * gw + cx2 < (cy2 + 1) * gw);
                                assert((cy2 + 1) * gw <= cy * gw);
                            } else if cy2 > cy {
                                assert(cy * gw + cx < (cy + 1) * gw);
                                assert((cy + 1) * gw <= cy2 * gw);
                            }
                        }
                        assert(walls@[j] == wb[j] && wall_shade@[j] == sb[j]);
                    }
                }
            }
            cx = cx + 1;
        }
        proof {
            assert(cy * gw + gw == (cy + 1) * gw) by (nonlinear_arith);
            assert forall|cx2: int, cy2: int| 0 <= cx2 < gw && 0 <= cy2 < gh implies #[trigger] walls_upto(
                r_start,
                *plan,
                *ids,
                walls@,
                wall_shade@,
                w_old,
                s_old,
                gw as int,
                0,
                cy + 1,
                cx2,
                cy2,
            ) by {
                assert(walls_upto(r_start, *plan, *ids, walls@, wall_shade@, w_old, s_old, gw as int, cx as int, cy as int, cx2, cy2));
            }
        }
        cy = cy + 1;
    }
    proof {
        assert(cy * gw == gw * gh) by (nonlinear_arith)
            requires
                cy == gh,
        ;
        assert forall|cx2: int, cy2: int| 0 <= cx2 < w / 4 && 0 <= cy2 < h / 4 implies #[trigger] wall_cell_ok(
            walls@,
            wall_shade@,
            w_old,
            s_old,
            (w / 4) as int,
            cx2,
            cy2,
            wall_target(*plan, *ids, cx2, cy2),
            wall_shade_at(*plan, *ids, r_start, (w / 4) as int, cx2, cy2),
        ) by {
            assert(walls_upto(r_start, *plan, *ids, walls@, wall_shade@, w_old, s_old, gw as int, 0, cy as int, cx2, cy2));
        }
    }
}

/// What a stage that may erase pixels (`erase`) and paints material `m` only over old pixels
/// `o` with `ok(o, m)` leaves: the old pixel (perhaps without its settled bit), an empty
/// pixel, or a jittered terrain pixel of an allowed material.
pub open spec fn stage_ok(mats: Materials, o: Pixel, q: Pixel, erase: bool, ok: spec_fn(Pixel, MaterialId) -> bool) -> bool {
    ||| (q.mat == o.mat && q.shade == o.shade && q.life == o.life && (q == o || q == unsettled(o)))
    ||| (erase && q == empty_px())
    ||| exists|m: MaterialId, d: int|
        #![trigger terrain_px(m, d)]
        m != 0 && ok(o, m) && -(mats.def_spec(m).jitter as int) <= d <= mats.def_spec(m).jitter as int && q == terrain_px(m, d)
}

/// Every pixel of `now` is what such a stage leaves over `w0`.
pub open spec fn staged(mats: Materials, w0: PixelWorld, now: PixelWorld, erase: bool, ok: spec_fn(Pixel, MaterialId) -> bool) -> bool {
    forall|a: int, b: int| w0.in_bounds(a, b) ==> stage_ok(mats, w0.pixel(a, b), #[trigger] now.pixel(a, b), erase, ok)
}

proof fn lemma_staged_start(mats: Materials, w0: PixelWorld, erase: bool, ok: spec_fn(Pixel, MaterialId) -> bool)
    ensures
        staged(mats, w0, w0, erase, ok),
{
    assert forall|a: int, b: int| w0.in_bounds(a, b) implies stage_ok(mats, w0.pixel(a, b), #[trigger] w0.pixel(a, b), erase, ok) by {}
}

proof fn lemma_staged_same(mats: Materials, w0: PixelWorld, before: PixelWorld, after: PixelWorld, erase: bool, ok: spec_fn(Pixel, MaterialId) -> bool)
    requires
        staged(mats, w0, before, erase, ok),
        after.state() == before.state(),
    ensures
        staged(mats, w0, after, erase, ok),
{
    assert forall|a: int, b: int| w0.in_bounds(a, b) implies stage_ok(mats, w0.pixel(a, b), #[trigger] after.pixel(a, b), erase, ok) by {
        assert(after.pixel(a, b) == before.pixel(a, b));
    }
}

/// A write keeps the stage record when it paints an allowed material (judged on the old
/// pixel there) or, for stages that may erase, empties the pixel.
proof fn lemma_stage_write(
    mats: Materials,
    w0: PixelWorld,
    before: PixelWorld,
    after: PixelWorld,
    x: int,
    y: int,
    p: Pixel,
    erase: bool,
    ok: spec_fn(Pixel, MaterialId) -> bool,
)
    requires
        w0.wf(),
        before.wf(),
        before.same_frame(&w0),
        staged(mats, w0, before, erase, ok),
        after.state() == before.set_st(before.state(), x, y, p),
        w0.in_bounds(x, y) ==> {
            ||| (erase && p == empty_px())
            ||| exists|d: int| #![trigger terrain_px(p.mat, d)] p.mat != 0 && ok(w0.pixel(x, y), p.mat) && -(mats.def_spec(p.mat).jitter as int) <= d <= mats.def_spec(p.mat).jitter as int && p == terrain_px(p.mat, d)
        },
    ensures
        staged(mats, w0, after, erase, ok),
{
    assert forall|a: int, b: int| w0.in_bounds(a, b) implies stage_ok(mats, w0.pixel(a, b), #[trigger] after.pixel(a, b), erase, ok) by {
        assert(stage_ok(mats, w0.pixel(a, b), before.pixel(a, b), erase, ok));
        if !before.in_bounds(x, y) {
            assert(after.pixel(a, b) == before.pixel(a, b));
        } else {
            law_set_then_get(before, before.state(), x, y, p, a, b);
            if a == x && b == y {
                if !(erase && p == empty_px()) {
                    let d = choose|d: int| #![trigger terrain_px(p.mat, d)] p.mat != 0 && ok(w0.pixel(x, y), p.mat) && -(mats.def_spec(p.mat).jitter as int) <= d <= mats.def_spec(p.mat).jitter as int && p == terrain_px(p.mat, d);
                    assert(after.pixel(a, b) == terrain_px(p.mat, d));
                }
            } else {
                let q = before.pixel(a, b);
                lemma_unsettle_fixed(q);
                lemma_unsettle_fixed(w0.pixel(a, b));
                lemma_unsettle_fixed(empty_px());
                if q.mat == w0.pixel(a, b).mat && q.shade == w0.pixel(a, b).shade && q.life == w0.pixel(a, b).life && (q == w0.pixel(a, b) || q == unsettled(w0.pixel(a, b))) {
                } else if erase && q == empty_px() {
                } else {
                    let (m, d) = choose|m: MaterialId, d: int| #![trigger terrain_px(m, d)] m != 0 && ok(w0.pixel(a, b), m) && -(mats.def_spec(m).jitter as int) <= d <= mats.def_spec(m).jitter as int && q == terrain_px(m, d);
                    assert(after.pixel(a, b) == terrain_px(m, d));
                }
            }
        }
    }
}

/// The old pixel under a current pixel of material `k`, where the stage never paints a
/// material `k` over a pixel that did not have it: it had `k` too.
proof fn lemma_stage_mat(mats: Materials, o: Pixel, q: Pixel, erase: bool, ok: spec_fn(Pixel, MaterialId) -> bool, k: MaterialId)
    requires
        stage_ok(mats, o, q, erase, ok),
        q.mat == k,
        erase ==> k != 0,
        forall|m: MaterialId| #[trigger] ok(o, m) && m == k ==> o.mat == k,
    ensures
        o.mat == k,
{
    if !(q.mat == o.mat) && !(erase && q == empty_px()) {
        let (m, d) = choose|m: MaterialId, d: int| #![trigger terrain_px(m, d)] m != 0 && ok(o, m) && -(mats.def_spec(m).jitter as int) <= d <= mats.def_spec(m).jitter as int && q == terrain_px(m, d);
        assert(ok(o, m) && m == k);
    }
}

/// Ore veins may only turn stone into coal, iron or gold.
pub open spec fn vein_ok(ids: TerrainIds) -> spec_fn(Pixel, MaterialId) -> bool {
    |o: Pixel, m: MaterialId| o.mat == ids.stone && (m == ids.coal || m == ids.iron || m == ids.gold)
}

/// Thresholds of `chance(p)` for the probabilities the terrain uses (the least integer not below p * 2^24).
pub const CHANCE_035: u32 = 5872026;
pub const CHANCE_055: u32 = 9227469;
pub const CHANCE_060: u32 = 10066330;
pub const CHANCE_HALF: u32 = 8388608;

/// Clamps `v` into [lo, hi] (lo <= hi).
fn clamp_to(v: i32, lo: i32, hi: i32) -> (r: i32)
    requires
        lo <= hi,
    ensures
        lo <= r <= hi,
        r == if v < lo { lo } else if v > hi { hi } else { v },
{
    if v < lo {
        lo
    } else if v > hi {
        hi
    } else {
        v
    }
}

/// The ore of a vein starting at row `y0`, and the random state after choosing
/// it: deep veins are gold (0.35), else iron (0.6), else coal; middle veins iron
/// (0.55) or coal; shallow ones coal.
pub open spec fn vein_ore(ids: TerrainIds, plan: TerrainPlan, y0: int, r: u64) -> (u64, MaterialId) {
    if y0 > plan.vein_deep {
        let (r1, g) = chance_next(r, CHANCE_035);
        if g {
            (r1, ids.gold)
        } else {
            let (r2, i) = chance_next(r1, CHANCE_060);
            (r2, if i { ids.iron } else { ids.coal })
        }
    } else if y0 > plan.vein_mid {
        let (r1, i) = chance_next(r, CHANCE_055);
        (r1, if i { ids.iron } else { ids.coal })
    } else {
        (r, ids.coal)
    }
}

/// `v` clamped into [lo, hi].
pub open spec fn clamp_int(v: int, lo: int, hi: int) -> int {
    if v < lo {
        lo
    } else if v > hi {
        hi
    } else {
        v
    }
}

/// A vein's random walk after `k` steps: pixel state, random state and position.
/// Each step turns stone under the walker into ore, then moves up to 3 pixels
/// each way, kept inside the vein band.
pub open spec fn vein_walk(
    w: PixelWorld,
    mats: Materials,
    plan: TerrainPlan,
    ids: TerrainIds,
    ore: MaterialId,
    s: (SimState, u64),
    cx: int,
    cy: int,
    k: int,
) -> (SimState, u64, int, int)
    decreases k,
{
    if k <= 0 {
        (s.0, s.1, cx, cy)
    } else {
        let p = vein_walk(w, mats, plan, ids, ore, s, cx, cy, k - 1);
        let s1 = if (p.0.px)(p.2, p.3).mat == ids.stone { put_st(w, mats, (p.0, p.1), p.2, p.3, ore) } else { (p.0, p.1) };
        let (r2, dx) = range_next(s1.1, -3, 3);
        let (r3, dy) = range_next(r2, -3, 3);
        (s1.0, r3, clamp_int(p.2 + dx, 10, w.width() - 11), clamp_int(p.3 + dy, plan.vein_floor as int, w.height() - 28))
    }
}

/// The vein stage after `v` veins.
pub open spec fn veins_upto(w: PixelWorld, mats: Materials, plan: TerrainPlan, ids: TerrainIds, s: (SimState, u64), v: int) -> (SimState, u64)
    decreases v,
{
    if v <= 0 {
        s
    } else {
        let p = veins_upto(w, mats, plan, ids, s, v - 1);
        let (r1, x0) = range_next(p.1, 16, w.width() - 17);
        let (r2, y0) = range_next(r1, plan.vein_top as int, w.height() - 32);
        let (r3, ore) = vein_ore(ids, plan, y0, r2);
        let (r4, steps) = range_next(r3, 16, 44);
        let walk = vein_walk(w, mats, plan, ids, ore, (p.0, r4), x0, y0, steps);
        (walk.0, walk.1)
    }
}

/// Ore veins: `(w * h) / 128000` random walks of 16 to 43 steps from random starts in the
/// lower world; deep veins hold gold, iron or coal, middle ones iron or coal, others coal,
/// and a walk turns the stone it crosses into its ore.
pub fn seed_veins(pixels: &mut PixelWorld, mats: &Materials, rng: &mut Rng, plan: &TerrainPlan, ids: &TerrainIds)
    requires
        old(pixels).wf(),
        mats.wf(),
        plan.fits(old(pixels).width(), old(pixels).height()),
        old(pixels).width() * old(pixels).height() <= i32::MAX,
        0 <= plan.vein_floor <= old(pixels).height() - 28,
        0 <= plan.vein_top <= old(pixels).height(),
    ensures
        final(pixels).wf(),
        final(pixels).same_frame(old(pixels)),
        staged(*mats, *old(pixels), *final(pixels), false, vein_ok(*ids)),
        (final(pixels).state(), final(rng)@) == veins_upto(
            *old(pixels),
            *mats,
            *plan,
            *ids,
            (old(pixels).state(), old(rng)@),
            (old(pixels).width() * old(pixels).height()) / 128000,
        ),
{
    let ghost w0 = *pixels;
    let (w, h) = pixels.size();
    proof {
        lemma_staged_start(*mats, w0, false, vein_ok(*ids));
        w0.lemma_dims();
    }
    assert(h <= 0x100_0000) by (nonlinear_arith)
        requires
            w >= 128,
            w * h <= i32::MAX,
            h >= 0,
    ;
    let count = (w * h) / 128000;
    let mut v: i32 = 0;
    while v < count
        invariant
            pixels.wf(),
            w0.wf(),
            mats.wf(),
            pixels.same_frame(&w0),
            w == w0.width(),
            h == w0.height(),
            w >= 128,
            h >= 128,
            0 <= plan.vein_floor <= h - 28,
            0 <= plan.vein_top <= h,
            h <= 0x100_0000,
            0 <= v,
            staged(*mats, w0, *pixels, false, vein_ok(*ids)),
            w0 == *old(pixels),
            count == (w * h) / 128000,
            v <= count,
            (pixels.state(), rng@) == veins_upto(w0, *mats, *plan, *ids, (w0.state(), old(rng)@), v as int),
        decreases count - v,
    {
        let x0 = rng.range_i32(16, w - 17);
        let y0 = rng.range_i32(plan.vein_top, h - 32);
        let ghost r_ore = rng@;
        let ore = if y0 > plan.vein_deep {
            if rng.chance_below(CHANCE_035) {
                ids.gold
            } else if rng.chance_below(CHANCE_060) {
                ids.iron
            } else {
                ids.coal
            }
        } else if y0 > plan.vein_mid {
            if rng.chance_below(CHANCE_055) {
                ids.iron
            } else {
                ids.coal
            }
        } else {
            ids.coal
        };
        assert((rng@, ore) == vein_ore(*ids, *plan, y0 as int, r_ore));
        let mut cx = x0;
        let mut cy = y0;
        let steps = rng.range_i32(16, 44);
        let ghost start = (pixels.state(), rng@);
        let mut k: i32 = 0;
        while k < steps
            invariant
                pixels.wf(),
                w0.wf(),
                mats.wf(),
                pixels.same_frame(&w0),
                w == w0.width(),
                h == w0.height(),
                w >= 128,
                h >= 128,
                0 <= plan.vein_floor <= h - 28,
                0 <= plan.vein_top <= h,
                h <= 0x100_0000,
                ore == ids.coal || ore == ids.iron || ore == ids.gold,
                i32::MIN + 3 <= cx <= i32::MAX - 3,
                i32::MIN + 3 <= cy <= i32::MAX - 3,
                staged(*mats, w0, *pixels, false, vein_ok(*ids)),
                0 <= k <= steps,
                (pixels.state(), rng@, cx as int, cy as int) == vein_walk(w0, *mats, *plan, *ids, ore, start, x0 as int, y0 as int, k as int),
            decreases steps - k,
        {
            if pixels.get(cx, cy).mat == ids.stone {
                let ghost before = *pixels;
                let ghost r0 = rng@;
                put(pixels, mats, rng, cx, cy, ore);
                proof {
                    if ore != 0 && before.in_bounds(cx as int, cy as int) {
                        let j = mats.def_spec(ore).jitter as int;
                        let (st, d) = range_next(r0, -j, j);
                        assert(stage_ok(*mats, w0.pixel(cx as int, cy as int), before.pixel(cx as int, cy as int), false, vein_ok(*ids)));
                        lemma_stage_mat(*mats, w0.pixel(cx as int, cy as int), before.pixel(cx as int, cy as int), false, vein_ok(*ids), ids.stone);
                        lemma_stage_write(*mats, w0, before, *pixels, cx as int, cy as int, terrain_px(ore, d), false, vein_ok(*ids));
                    } else {
                        lemma_staged_same(*mats, w0, before, *pixels, false, vein_ok(*ids));
                    }
                }
            }
            let dx = rng.range_i32(-3, 3);
            cx = clamp_to(cx + dx, 10, w - 11);
            let dy = rng.range_i32(-3, 3);
            cy = clamp_to(cy + dy, plan.vein_floor, h - 28);
            k = k + 1;
        }
        v = v + 1;
    }
}

/// Lava pools may only fill empty pixels with lava.
pub open spec fn lava_ok(ids: TerrainIds) -> spec_fn(Pixel, MaterialId) -> bool {
    |o: Pixel, m: MaterialId| o.mat == 0 && m == ids.lava
}

/// Ropes may only hang in empty pixels.
pub open spec fn rope_ok(ids: TerrainIds) -> spec_fn(Pixel, MaterialId) -> bool {
    |o: Pixel, m: MaterialId| o.mat == 0 && m == ids.rope
}

/// Ponds may empty pixels and fill them with water.
pub open spec fn pond_ok(ids: TerrainIds) -> spec_fn(Pixel, MaterialId) -> bool {
    |o: Pixel, m: MaterialId| m == ids.water
}

/// `put_if_empty` keeps a stage record when the stage may paint `m` over the old pixel.
proof fn lemma_stage_fill(
    mats: Materials,
    w0: PixelWorld,
    before: PixelWorld,
    after: PixelWorld,
    r: u64,
    r2: u64,
    x: int,
    y: int,
    m: MaterialId,
    erase: bool,
    ok: spec_fn(Pixel, MaterialId) -> bool,
)
    requires
        w0.wf(),
        before.wf(),
        before.same_frame(&w0),
        staged(mats, w0, before, erase, ok),
        (m != 0 && before.pixel(x, y).mat == 0) ==> put_effect(before, mats, r, x, y, m, after, r2),
        !(m != 0 && before.pixel(x, y).mat == 0) ==> after == before,
        (w0.in_bounds(x, y) && m != 0 && before.pixel(x, y).mat == 0) ==> ok(w0.pixel(x, y), m),
    ensures
        after.wf(),
        after.same_frame(&w0),
        staged(mats, w0, after, erase, ok),
{
    if m != 0 && before.pixel(x, y).mat == 0 {
        if before.in_bounds(x, y) {
            let j = mats.def_spec(m).jitter as int;
            let (st, d) = range_next(r, -j, j);
            lemma_stage_write(mats, w0, before, after, x, y, terrain_px(m, d), erase, ok);
        } else {
            lemma_staged_same(mats, w0, before, after, erase, ok);
        }
    }
}

/// A lava pool around (x, y): rows y - 3 to y + 1, columns x - 6 to x + 6, row by
/// row, each empty pixel filled; after the first `k` cells.
pub open spec fn pool(w: PixelWorld, mats: Materials, lava: MaterialId, s: (SimState, u64), x: int, y: int, k: int) -> (SimState, u64)
    decreases k,
{
    if k <= 0 {
        s
    } else {
        let p = pool(w, mats, lava, s, x, y, k - 1);
        put_if_empty_st(w, mats, p, x + (k - 1) % 13 - 6, y + (k - 1) / 13 - 3, lava)
    }
}

/// The lava stage after `t` of its attempts: each picks a spot in the deep band;
/// an empty pixel with ground two rows below gets a pool.
pub open spec fn lava_upto(w: PixelWorld, mats: Materials, plan: TerrainPlan, ids: TerrainIds, s: (SimState, u64), t: int) -> (SimState, u64)
    decreases t,
{
    if t <= 0 {
        s
    } else {
        let p = lava_upto(w, mats, plan, ids, s, t - 1);
        let (r1, x) = range_next(p.1, 20, w.width() - 21);
        let (r2, y) = range_next(r1, plan.lava_top as int, w.height() - 24);
        if (p.0.px)(x, y).mat == 0 && (p.0.px)(x, y + 2).mat != 0 {
            pool(w, mats, ids.lava, (p.0, r2), x, y, 65)
        } else {
            (p.0, r2)
        }
    }
}

/// Lava pools: 80 tries at random places deep down; where an empty pixel has ground two
/// rows under it, the empty pixels of a 13 by 5 patch around it fill with lava.
pub fn pour_lava(pixels: &mut PixelWorld, mats: &Materials, rng: &mut Rng, plan: &TerrainPlan, ids: &TerrainIds)
    requires
        old(pixels).wf(),
        mats.wf(),
        0 <= plan.lava_top <= old(pixels).height(),
        old(pixels).width() <= 0x4000_0000,
        old(pixels).height() <= 0x4000_0000,
    ensures
        final(pixels).wf(),
        final(pixels).same_frame(old(pixels)),
        staged(*mats, *old(pixels), *final(pixels), false, lava_ok(*ids)),
        ids.lava == 0 ==> final(pixels).state() == old(pixels).state() && final(rng)@ == old(rng)@,
        ids.lava != 0 ==> (final(pixels).state(), final(rng)@) == lava_upto(*old(pixels), *mats, *plan, *ids, (old(pixels).state(), old(rng)@), 80),
{
    let ghost w0 = *pixels;
    let ghost ok = lava_ok(*ids);
    let (w, h) = pixels.size();
    proof {
        lemma_staged_start(*mats, w0, false, ok);
        w0.lemma_dims();
    }
    if ids.lava == 0 {
        return;
    }
    let mut t: i32 = 0;
    while t < 80
        invariant
            pixels.wf(),
            w0.wf(),
            mats.wf(),
            pixels.same_frame(&w0),
            w == w0.width(),
            h == w0.height(),
            w >= 128,
            h >= 128,
            h <= 0x4000_0000,
            w <= 0x4000_0000,
            0 <= plan.lava_top <= h,
            ok == lava_ok(*ids),
            ids.lava != 0,
            staged(*mats, w0, *pixels, false, ok),
            0 <= t <= 80,
            w0 == *old(pixels),
            (pixels.state(), rng@) == lava_upto(w0, *mats, *plan, *ids, (w0.state(), old(rng)@), t as int),
        decreases 80 - t,
    {
        let x = rng.range_i32(20, w - 21);
        let y = rng.range_i32(plan.lava_top, h - 24);
        assert(0 <= y <= h);
        if pixels.get(x, y).mat == 0 && pixels.get(x, y + 2).mat != 0 {
            let ghost start = (pixels.state(), rng@);
            let mut dy: i32 = -3;
            while dy <= 1
                invariant
                    pixels.wf(),
                    w0.wf(),
                    mats.wf(),
                    pixels.same_frame(&w0),
                    0 <= y <= h,
                    h <= 0x4000_0000,
                    20 <= x <= w,
                    w <= 0x4000_0000,
                    -3 <= dy <= 2,
                    ok == lava_ok(*ids),
                    ids.lava != 0,
                    staged(*mats, w0, *pixels, false, ok),
                    (pixels.state(), rng@) == pool(w0, *mats, ids.lava, start, x as int, y as int, (dy + 3) * 13),
                decreases 2 - dy,
            {
                let mut dx: i32 = -6;
                while dx <= 6
                    invariant
                        pixels.wf(),
                        w0.wf(),
                        mats.wf(),
                        pixels.same_frame(&w0),
                        0 <= y <= h,
                        h <= 0x4000_0000,
                        20 <= x <= w,
                        w <= 0x4000_0000,
                        -3 <= dy <= 1,
                        -6 <= dx <= 7,
                        ok == lava_ok(*ids),
                        ids.lava != 0,
                        staged(*mats, w0, *pixels, false, ok),
                        (pixels.state(), rng@) == pool(w0, *mats, ids.lava, start, x as int, y as int, (dy + 3) * 13 + dx + 6),
                    decreases 7 - dx,
                {
                    proof {
                        let k = (dy + 3) * 13 + dx + 6;
                        vstd::arithmetic::div_mod::lemma_fundamental_div_mod_converse(k as int, 13, (dy + 3) as int, (dx + 6) as int);
                    }
                    let ghost before = *pixels;
                    let ghost r0 = rng@;
                    proof {
                        if w0.in_bounds((x + dx) as int, (y + dy) as int) && before.pixel((x + dx) as int, (y + dy) as int).mat == 0 {
                            assert(stage_ok(*mats, w0.pixel((x + dx) as int, (y + dy) as int), before.pixel((x + dx) as int, (y + dy) as int), false, ok));
                            lemma_stage_mat(*mats, w0.pixel((x + dx) as int, (y + dy) as int), before.pixel((x + dx) as int, (y + dy) as int), false, ok, 0);
                        }
                    }
                    put_if_empty(pixels, mats, rng, x + dx, y + dy, ids.lava);
                    proof {
                        lemma_stage_fill(*mats, w0, before, *pixels, r0, rng@, (x + dx) as int, (y + dy) as int, ids.lava, false, ok);
                    }
                    dx = dx + 1;
                }
                dy = dy + 1;
            }
        }
        t = t + 1;
    }
}

/// Hanging rope down from (x, y): rows y + k, y + k + 1, ... while they are empty
/// and fewer than `len` rows were hung.
pub open spec fn hang(w: PixelWorld, mats: Materials, rope: MaterialId, s: (SimState, u64), x: int, y: int, k: int, len: int) -> (SimState, u64)
    decreases len - k,
{
    if k >= len || (s.0.px)(x, y + k).mat != 0 {
        s
    } else {
        hang(w, mats, rope, put_st(w, mats, s, x, y + k, rope), x, y, k + 1, len)
    }
}

/// The rope stage after `t` of its attempts: each picks a spot; an empty pixel
/// under a non-empty one gets a rope of 16 to 40 rows.
pub open spec fn ropes_upto(w: PixelWorld, mats: Materials, ids: TerrainIds, s: (SimState, u64), t: int) -> (SimState, u64)
    decreases t,
{
    if t <= 0 {
        s
    } else {
        let p = ropes_upto(w, mats, ids, s, t - 1);
        let (r1, x) = range_next(p.1, 16, w.width() - 17);
        let (r2, y) = range_next(r1, 100, w.height() - 60);
        if (p.0.px)(x, y).mat == 0 && (p.0.px)(x, y - 1).mat != 0 {
            let (r3, len) = range_next(r2, 16, 40);
            hang(w, mats, ids.rope, (p.0, r3), x, y, 0, len)
        } else {
            (p.0, r2)
        }
    }
}

/// Cave ropes: 160 tries at random places; under an empty pixel with something above it,
/// a rope of 16 to 39 pixels hangs down until it meets anything.
pub fn hang_ropes(pixels: &mut PixelWorld, mats: &Materials, rng: &mut Rng, ids: &TerrainIds)
    requires
        old(pixels).wf(),
        mats.wf(),
        old(pixels).height() <= 0x4000_0000,
    ensures
        final(pixels).wf(),
        final(pixels).same_frame(old(pixels)),
        staged(*mats, *old(pixels), *final(pixels), false, rope_ok(*ids)),
        (final(pixels).state(), final(rng)@) == ropes_upto(*old(pixels), *mats, *ids, (old(pixels).state(), old(rng)@), 160),
{
    let ghost w0 = *pixels;
    let ghost ok = rope_ok(*ids);
    let (w, h) = pixels.size();
    proof {
        lemma_staged_start(*mats, w0, false, ok);
        w0.lemma_dims();
    }
    let mut t: i32 = 0;
    while t < 160
        invariant
            pixels.wf(),
            w0.wf(),
            mats.wf(),
            pixels.same_frame(&w0),
            w == w0.width(),
            h == w0.height(),
            w >= 128,
            h >= 128,
            h <= 0x4000_0000,
            ok == rope_ok(*ids),
            staged(*mats, w0, *pixels, false, ok),
            0 <= t <= 160,
            w0 == *old(pixels),
            (pixels.state(), rng@) == ropes_upto(w0, *mats, *ids, (w0.state(), old(rng)@), t as int),
        decreases 160 - t,
    {
        let x = rng.range_i32(16, w - 17);
        let y = rng.range_i32(100, h - 60);
        assert(0 <= y <= h);
        if pixels.get(x, y).mat == 0 && pixels.get(x, y - 1).mat != 0 {
            let len = rng.range_i32(16, 40);
            let ghost start = (pixels.state(), rng@);
            let mut dy: i32 = 0;
            let mut going = true;
            while going && dy < len
                invariant
                    pixels.wf(),
                    w0.wf(),
                    mats.wf(),
                    pixels.same_frame(&w0),
                    0 <= y <= h,
                    h <= 0x4000_0000,
                    16 <= len <= 40,
                    0 <= dy <= len,
                    ok == rope_ok(*ids),
                    staged(*mats, w0, *pixels, false, ok),
                    hang(w0, *mats, ids.rope, (pixels.state(), rng@), x as int, y as int, dy as int, len as int)
                        == hang(w0, *mats, ids.rope, start, x as int, y as int, 0, len as int),
                    !going ==> hang(w0, *mats, ids.rope, (pixels.state(), rng@), x as int, y as int, dy as int, len as int)
                        == (pixels.state(), rng@),
                decreases len - dy + if going { 1int } else { 0int },
            {
                if pixels.get(x, y + dy).mat == 0 {
                    let ghost before = *pixels;
                    let ghost r0 = rng@;
                    put(pixels, mats, rng, x, y + dy, ids.rope);
                    proof {
                        let px = x as int;
                        let py = (y + dy) as int;
                        if ids.rope != 0 && before.in_bounds(px, py) {
                            let j = mats.def_spec(ids.rope).jitter as int;
                            let (st, d) = range_next(r0, -j, j);
                            assert(stage_ok(*mats, w0.pixel(px, py), before.pixel(px, py), false, ok));
                            lemma_stage_mat(*mats, w0.pixel(px, py), before.pixel(px, py), false, ok, 0);
                            lemma_stage_write(*mats, w0, before, *pixels, px, py, terrain_px(ids.rope, d), false, ok);
                        } else {
                            lemma_staged_same(*mats, w0, before, *pixels, false, ok);
                        }
                    }
                    dy = dy + 1;
                } else {
                    going = false;
                }
            }
        }
        t = t + 1;
    }
}

/// Whether the 30 surface rows from column `bx` stay within 3 of the first.
pub open spec fn flat_at(plan: TerrainPlan, bx: int) -> bool {
    forall|i: int| bx <= i < bx + 30 ==> -3 <= #[trigger] plan.surf@[i] - plan.surf@[bx] <= 3
}

/// Emptying the 22 x 10 pond patch at (bx + 4, s0 + 4), column by column, after `k` cells.
pub open spec fn pond_clear(w: PixelWorld, st: SimState, bx: int, s0: int, k: int) -> SimState
    decreases k,
{
    if k <= 0 {
        st
    } else {
        let p = pond_clear(w, st, bx, s0, k - 1);
        w.set_st(p, bx + 4 + (k - 1) / 10, s0 + 4 + (k - 1) % 10, empty_px())
    }
}

/// Filling the emptied pond patch with water, in the same order, after `k` cells.
pub open spec fn pond_fill(w: PixelWorld, mats: Materials, water: MaterialId, s: (SimState, u64), bx: int, s0: int, k: int) -> (SimState, u64)
    decreases k,
{
    if k <= 0 {
        s
    } else {
        let p = pond_fill(w, mats, water, s, bx, s0, k - 1);
        put_if_empty_st(w, mats, p, bx + 4 + (k - 1) / 10, s0 + 4 + (k - 1) % 10, water)
    }
}

/// The pond walk from column `bx` with `ponds` dug so far.
pub open spec fn ponds_from(w: PixelWorld, mats: Materials, plan: TerrainPlan, ids: TerrainIds, s: (SimState, u64), bx: int, ponds: int) -> (SimState, u64)
    decreases w.width() + 140 - bx,
{
    if !(bx < w.width() - 48 && ponds < 4) || bx < 0 {
        s
    } else if flat_at(plan, bx) && plan.biome@[bx] == 1 {
        let (r1, hit) = chance_next(s.1, CHANCE_HALF);
        if hit {
            let s0 = plan.surf@[bx] as int;
            let dug = pond_fill(w, mats, ids.water, (pond_clear(w, s.0, bx, s0, 220), r1), bx, s0, 220);
            ponds_from(w, mats, plan, ids, dug, bx + 140, ponds + 1)
        } else {
            ponds_from(w, mats, plan, ids, (s.0, r1), bx + 24, ponds)
        }
    } else {
        ponds_from(w, mats, plan, ids, s, bx + 24, ponds)
    }
}

/// Surface ponds: walking right from a sixth of the width (at most four ponds, stopping 48
/// short of the edge), a forest column whose next 30 surface rows stay within 3 of its own
/// may (one chance in two) get a pond: a 22 by 10 patch 4 rows under its surface is
/// emptied and filled with water; the walk then jumps 140 columns, otherwise 24.
pub fn dig_ponds(pixels: &mut PixelWorld, mats: &Materials, rng: &mut Rng, plan: &TerrainPlan, ids: &TerrainIds)
    requires
        old(pixels).wf(),
        mats.wf(),
        plan.fits(old(pixels).width(), old(pixels).height()),
        old(pixels).width() <= 0x4000_0000,
    ensures
        final(pixels).wf(),
        final(pixels).same_frame(old(pixels)),
        staged(*mats, *old(pixels), *final(pixels), true, pond_ok(*ids)),
        (final(pixels).state(), final(rng)@) == ponds_from(
            *old(pixels),
            *mats,
            *plan,
            *ids,
            (old(pixels).state(), old(rng)@),
            old(pixels).width() / 6,
            0,
        ),
{
    let ghost w0 = *pixels;
    let ghost ok = pond_ok(*ids);
    let (w, h) = pixels.size();
    proof {
        lemma_staged_start(*mats, w0, true, ok);
        w0.lemma_dims();
    }
    let mut ponds: i32 = 0;
    let mut bx = w / 6;
    while bx < w - 48 && ponds < 4
        invariant
            pixels.wf(),
            w0.wf(),
            mats.wf(),
            pixels.same_frame(&w0),
            w == w0.width(),
            h == w0.height(),
            w >= 128,
            w <= 0x4000_0000,
            plan.fits(w as int, h as int),
            0 <= bx,
            0 <= ponds <= 4,
            ok == pond_ok(*ids),
            staged(*mats, w0, *pixels, true, ok),
            w0 == *old(pixels),
            ponds_from(w0, *mats, *plan, *ids, (pixels.state(), rng@), bx as int, ponds as int)
                == ponds_from(w0, *mats, *plan, *ids, (w0.state(), old(rng)@), w0.width() / 6, 0),
        decreases w + 140 - bx,
    {
        let s0 = plan.surf[bx as usize];
        let mut flat = true;
        let mut i = bx;
        while flat && i < bx + 30
            invariant
                0 <= bx <= i <= bx + 30,
                bx < w - 48,
                plan.fits(w as int, h as int),
                -0x10_0000 <= s0 <= 0x10_0000,
                s0 == plan.surf@[bx as int],
                flat ==> forall|j: int| bx <= j < i ==> -3 <= #[trigger] plan.surf@[j] - plan.surf@[bx as int] <= 3,
                !flat ==> i < bx + 30 && !(-3 <= plan.surf@[i as int] - plan.surf@[bx as int] <= 3),
            decreases bx + 30 - i + if flat { 1int } else { 0int },
        {
            let d = plan.surf[i as usize] - s0;
            if d > 3 || d < -3 {
                flat = false;
            } else {
                i = i + 1;
            }
        }
        proof {
            if !flat {
                assert(!flat_at(*plan, bx as int));
            }
        }
        let ghost before_draw = (pixels.state(), rng@);
        if flat && plan.biome[bx as usize] == 1 && rng.chance_below(CHANCE_HALF) {
            let ghost st0 = pixels.state();
            let mut dx: i32 = 4;
            while dx < 26
                invariant
                    pixels.wf(),
                    w0.wf(),
                    pixels.same_frame(&w0),
                    0 <= bx < w - 48,
                    w <= 0x4000_0000,
                    -0x10_0000 <= s0 <= 0x10_0000,
                    4 <= dx <= 26,
                    ok == pond_ok(*ids),
                    staged(*mats, w0, *pixels, true, ok),
                    pixels.state() == pond_clear(w0, st0, bx as int, s0 as int, (dx - 4) * 10),
                decreases 26 - dx,
            {
                let mut dy: i32 = 4;
                while dy < 14
                    invariant
                        pixels.wf(),
                        w0.wf(),
                        pixels.same_frame(&w0),
                        0 <= bx < w - 48,
                        w <= 0x4000_0000,
                        -0x10_0000 <= s0 <= 0x10_0000,
                        4 <= dx < 26,
                        4 <= dy <= 14,
                        ok == pond_ok(*ids),
                        staged(*mats, w0, *pixels, true, ok),
                        pixels.state() == pond_clear(w0, st0, bx as int, s0 as int, (dx - 4) * 10 + dy - 4),
                    decreases 14 - dy,
                {
                    proof {
                        let k = (dx - 4) * 10 + dy - 4;
                        vstd::arithmetic::div_mod::lemma_fundamental_div_mod_converse(k as int, 10, (dx - 4) as int, (dy - 4) as int);
                    }
                    let ghost before = *pixels;
                    clear(pixels, bx + dx, s0 + dy);
                    proof {
                        lemma_stage_write(*mats, w0, before, *pixels, (bx + dx) as int, (s0 + dy) as int, empty_px(), true, ok);
                    }
                    dy = dy + 1;
                }
                dx = dx + 1;
            }
            let ghost cleared = (pixels.state(), rng@);
            let mut dx: i32 = 4;
            while dx < 26
                invariant
                    pixels.wf(),
                    w0.wf(),
                    mats.wf(),
                    pixels.same_frame(&w0),
                    0 <= bx < w - 48,
                    w <= 0x4000_0000,
                    -0x10_0000 <= s0 <= 0x10_0000,
                    4 <= dx <= 26,
                    ok == pond_ok(*ids),
                    staged(*mats, w0, *pixels, true, ok),
                    (pixels.state(), rng@) == pond_fill(w0, *mats, ids.water, cleared, bx as int, s0 as int, (dx - 4) * 10),
                decreases 26 - dx,
            {
                let mut dy: i32 = 4;
                while dy < 14
                    invariant
                        pixels.wf(),
                        w0.wf(),
                        mats.wf(),
                        pixels.same_frame(&w0),
                        0 <= bx < w - 48,
                        w <= 0x4000_0000,
                        -0x10_0000 <= s0 <= 0x10_0000,
                        4 <= dx < 26,
                        4 <= dy <= 14,
                        ok == pond_ok(*ids),
                        staged(*mats, w0, *pixels, true, ok),
                        (pixels.state(), rng@) == pond_fill(w0, *mats, ids.water, cleared, bx as int, s0 as int, (dx - 4) * 10 + dy - 4),
                    decreases 14 - dy,
                {
                    proof {
                        let k = (dx - 4) * 10 + dy - 4;
                        vstd::arithmetic::div_mod::lemma_fundamental_div_mod_converse(k as int, 10, (dx - 4) as int, (dy - 4) as int);
                    }
                    let ghost before = *pixels;
                    let ghost r0 = rng@;
                    put_if_empty(pixels, mats, rng, bx + dx, s0 + dy, ids.water);
                    proof {
                        lemma_stage_fill(*mats, w0, before, *pixels, r0, rng@, (bx + dx) as int, (s0 + dy) as int, ids.water, true, ok);
                    }
                    dy = dy + 1;
                }
                dx = dx + 1;
            }
            ponds = ponds + 1;
            bx = bx + 140;
        } else {
            bx = bx + 24;
        }
    }
}

/// The loose material the surface pass puts at pixel (a, b) if it is empty: snow over snow
/// fields up to 14 rows above the surface, sand over deserts up to 10 rows (0: none).
pub open spec fn loose_mat(plan: TerrainPlan, ids: TerrainIds, w: int, a: int, b: int) -> MaterialId {
    if 8 <= a < w - 8 {
        let s = plan.surf@[a] as int;
        let bi = plan.biome@[a];
        if bi == 0 && (if s - 14 > 0 { s - 14 } else { 0 }) <= b < s {
            ids.snow
        } else if bi == 2 && (if s - 10 > 0 { s - 10 } else { 0 }) <= b < s {
            ids.sand
        } else {
            0
        }
    } else {
        0
    }
}

/// `put_if_empty` on a pixel the record has not touched yet.
proof fn lemma_fill_paints(
    mats: Materials,
    w0: PixelWorld,
    before: PixelWorld,
    after: PixelWorld,
    r: u64,
    r2: u64,
    x: int,
    y: int,
    m: MaterialId,
    e: spec_fn(int, int) -> MaterialId,
)
    requires
        w0.wf(),
        before.wf(),
        before.same_frame(&w0),
        painted(mats, w0, before, e),
        w0.in_bounds(x, y) ==> e(x, y) == 0,
        (m != 0 && before.pixel(x, y).mat == 0) ==> put_effect(before, mats, r, x, y, m, after, r2),
        !(m != 0 && before.pixel(x, y).mat == 0) ==> after == before,
    ensures
        after.wf(),
        after.same_frame(&w0),
        painted(mats, w0, after, |a: int, b: int| if a == x && b == y && m != 0 && w0.pixel(x, y).mat == 0 { m } else { e(a, b) }),
{
    let f = |a: int, b: int| if a == x && b == y && m != 0 && w0.pixel(x, y).mat == 0 { m } else { e(a, b) };
    if w0.in_bounds(x, y) {
        assert(paint_ok(mats, w0.pixel(x, y), before.pixel(x, y), e(x, y)));
        assert(before.pixel(x, y).mat == w0.pixel(x, y).mat);
    }
    if m != 0 && before.pixel(x, y).mat == 0 {
        lemma_put_paints(mats, w0, before, after, r, r2, x, y, m, e);
        lemma_painted_eq(mats, w0, after, |a: int, b: int| if a == x && b == y && m != 0 { m } else { e(a, b) }, f);
    } else {
        lemma_painted_eq(mats, w0, after, e, f);
    }
}

/// The loose band of column `x`: its first row and material (snow fields from
/// 14 rows above the surface, deserts from 10, none elsewhere).
pub open spec fn loose_band(plan: TerrainPlan, ids: TerrainIds, x: int) -> (int, MaterialId) {
    let s = plan.surf@[x] as int;
    let bi = plan.biome@[x];
    if bi == 0 {
        (if s - 14 > 0 { s - 14 } else { 0 }, ids.snow)
    } else if bi == 2 {
        (if s - 10 > 0 { s - 10 } else { 0 }, ids.sand)
    } else {
        (s, 0u8)
    }
}

/// Filling column `x` with `m` from row `py` up to the surface, where empty.
pub open spec fn loose_col(w: PixelWorld, mats: Materials, m: MaterialId, st: (SimState, u64), x: int, py: int, s: int) -> (SimState, u64)
    decreases s - py,
{
    if py >= s {
        st
    } else {
        loose_col(w, mats, m, put_if_empty_st(w, mats, st, x, py, m), x, py + 1, s)
    }
}

/// The loose layer after the columns from 8 up to (not including) `x`.
pub open spec fn loose_upto(w: PixelWorld, mats: Materials, plan: TerrainPlan, ids: TerrainIds, st: (SimState, u64), x: int) -> (SimState, u64)
    decreases x,
{
    if x <= 8 {
        st
    } else {
        let band = loose_band(plan, ids, x - 1);
        loose_col(w, mats, band.1, loose_upto(w, mats, plan, ids, st, x - 1), x - 1, band.0, plan.surf@[x - 1] as int)
    }
}

/// Loose surface layers: snow over the snow fields and sand over the deserts, filling
/// only empty pixels above the surface.
pub fn loose_surface(pixels: &mut PixelWorld, mats: &Materials, rng: &mut Rng, plan: &TerrainPlan, ids: &TerrainIds)
    requires
        old(pixels).wf(),
        mats.wf(),
        plan.fits(old(pixels).width(), old(pixels).height()),
    ensures
        final(pixels).wf(),
        final(pixels).same_frame(old(pixels)),
        painted(
            *mats,
            *old(pixels),
            *final(pixels),
            |a: int, b: int| if old(pixels).pixel(a, b).mat == 0 { loose_mat(*plan, *ids, old(pixels).width(), a, b) } else { 0u8 },
        ),
        (final(pixels).state(), final(rng)@) == loose_upto(
            *old(pixels),
            *mats,
            *plan,
            *ids,
            (old(pixels).state(), old(rng)@),
            old(pixels).width() - 8,
        ),
{
    let ghost w0 = *pixels;
    let (w, h) = pixels.size();
    let ghost target = |a: int, b: int| if w0.pixel(a, b).mat == 0 { loose_mat(*plan, *ids, w as int, a, b) } else { 0u8 };
    proof {
        w0.lemma_dims();
        assert forall|a: int, b: int| w0.in_bounds(a, b) implies paint_ok(*mats, w0.pixel(a, b), #[trigger] pixels.pixel(a, b), 0u8) by {}
        lemma_painted_eq(*mats, w0, *pixels, |a: int, b: int| 0u8, |a: int, b: int| if a < 8 { target(a, b) } else { 0u8 });
    }
    let mut x: i32 = 8;
    while x < w - 8
        invariant
            pixels.wf(),
            w0.wf(),
            mats.wf(),
            pixels.same_frame(&w0),
            w == w0.width(),
            h == w0.height(),
            w >= 128,
            plan.fits(w as int, h as int),
            target == (|a: int, b: int| if w0.pixel(a, b).mat == 0 { loose_mat(*plan, *ids, w as int, a, b) } else { 0u8 }),
            8 <= x <= w - 8,
            painted(*mats, w0, *pixels, |a: int, b: int| if a < x { target(a, b) } else { 0u8 }),
            w0 == *old(pixels),
            (pixels.state(), rng@) == loose_upto(w0, *mats, *plan, *ids, (w0.state(), old(rng)@), x as int),
        decreases w - 8 - x,
    {
        let s = plan.surf[x as usize];
        let bi = plan.biome[x as usize];
        let (lo, m) = if bi == 0 {
            (if s - 14 > 0 { s - 14 } else { 0 }, ids.snow)
        } else if bi == 2 {
            (if s - 10 > 0 { s - 10 } else { 0 }, ids.sand)
        } else {
            (s, 0)
        };
        let mut py = lo;
        let ghost colstart = (pixels.state(), rng@);
        proof {
            lemma_painted_eq(
                *mats,
                w0,
                *pixels,
                |a: int, b: int| if a < x { target(a, b) } else { 0u8 },
                |a: int, b: int| if a < x || (a == x && b < py) { target(a, b) } else { 0u8 },
            );
        }
        while py < s
            invariant
                pixels.wf(),
                w0.wf(),
                mats.wf(),
                pixels.same_frame(&w0),
                w == w0.width(),
                h == w0.height(),
                plan.fits(w as int, h as int),
                target == (|a: int, b: int| if w0.pixel(a, b).mat == 0 { loose_mat(*plan, *ids, w as int, a, b) } else { 0u8 }),
                8 <= x < w - 8,
                s == plan.surf@[x as int],
                bi == plan.biome@[x as int],
                -0x10_0000 <= s <= 0x10_0000,
                lo <= py,
                py <= s || py == lo,
                bi == 0 ==> lo == (if s - 14 > 0 { s - 14 } else { 0 }) && m == ids.snow,
                bi == 2 ==> lo == (if s - 10 > 0 { s - 10 } else { 0 }) && m == ids.sand,
                bi != 0 && bi != 2 ==> lo == s && m == 0,
                painted(*mats, w0, *pixels, |a: int, b: int| if a < x || (a == x && b < py) { target(a, b) } else { 0u8 }),
                w0 == *old(pixels),
                loose_col(w0, *mats, m, (pixels.state(), rng@), x as int, py as int, s as int)
                    == loose_col(w0, *mats, m, colstart, x as int, lo as int, s as int),
                colstart == loose_upto(w0, *mats, *plan, *ids, (w0.state(), old(rng)@), x as int),
            decreases s - py,
        {
            let ghost before = *pixels;
            let ghost r0 = rng@;
            let ghost e = |a: int, b: int| if a < x || (a == x && b < py) { target(a, b) } else { 0u8 };
            put_if_empty(pixels, mats, rng, x, py, m);
            proof {
                lemma_fill_paints(*mats, w0, before, *pixels, r0, rng@, x as int, py as int, m, e);
                assert(loose_mat(*plan, *ids, w as int, x as int, py as int) == m);
                lemma_painted_eq(
                    *mats,
                    w0,
                    *pixels,
                    |a: int, b: int| if a == x && b == py && m != 0 && w0.pixel(x as int, py as int).mat == 0 { m } else { e(a, b) },
                    |a: int, b: int| if a < x || (a == x && b < py + 1) { target(a, b) } else { 0u8 },
                );
            }
            py = py + 1;
        }
        proof {
            assert forall|a: int, b: int| #![trigger target(a, b)] w0.in_bounds(a, b) implies (if a < x || (a == x && b < py) { target(a, b) } else { 0u8 })
                == (if a < x + 1 { target(a, b) } else { 0u8 }) by {
                if a == x && !(b < py) {
                    assert(loose_mat(*plan, *ids, w as int, a, b) == 0u8);
                }
            }
            lemma_painted_eq(
                *mats,
                w0,
                *pixels,
                |a: int, b: int| if a < x || (a == x && b < py) { target(a, b) } else { 0u8 },
                |a: int, b: int| if a < x + 1 { target(a, b) } else { 0u8 },
            );
        }
        x = x + 1;
    }
    proof {
        assert forall|a: int, b: int| #![trigger target(a, b)] w0.in_bounds(a, b) implies (if a < x { target(a, b) } else { 0u8 }) == target(a, b) by {
            if a >= x {
                assert(loose_mat(*plan, *ids, w as int, a, b) == 0u8);
            }
        }
        lemma_painted_eq(*mats, w0, *pixels, |a: int, b: int| if a < x { target(a, b) } else { 0u8 }, target);
    }
}

/// Where the player starts: the middle column, 24 rows above its surface.
pub fn spawn_point(plan: &TerrainPlan, w: i32) -> (r: GenResult)
    requires
        w >= 2,
        plan.surf@.len() == w,
        forall|x: int| 0 <= x < w ==> -0x10_0000 <= #[trigger] plan.surf@[x] <= 0x10_0000,
    ensures
        r.spawn_x == w / 2,
        r.spawn_y == plan.surf@[w / 2] - 24,
{
    let cx = w / 2;
    GenResult { spawn_x: cx, spawn_y: plan.surf[cx as usize] - 24 }
}


/// The top of every column is its biome's cover: in the three rows from a column's
/// surface down (outside the bedrock frame), `lay_strata` leaves grass in every biome but
/// snow (0) and desert (2), snowpack under snow and sandstone in the desert.
pub proof fn law_surface_cover(w0: PixelWorld, now: PixelWorld, mats: Materials, plan: TerrainPlan, ids: TerrainIds, a: int, b: int)
    requires
        painted(mats, w0, now, |x: int, y: int| base_mat(plan, ids, w0.width(), w0.height(), x, y)),
        w0.in_bounds(a, b),
        !(ids.bedrock != 0 && in_bedrock_frame(w0.width(), w0.height(), a, b)),
        plan.surf@[a] <= b < plan.surf@[a] + 3,
    ensures
        plan.biome@[a] != 0 && plan.biome@[a] != 2 && ids.grass != 0 ==> now.pixel(a, b).mat == ids.grass,
        plan.biome@[a] == 0 && ids.snowpack != 0 ==> now.pixel(a, b).mat == ids.snowpack,
        plan.biome@[a] == 2 && ids.sandstone != 0 ==> now.pixel(a, b).mat == ids.sandstone,
{
    let m = base_mat(plan, ids, w0.width(), w0.height(), a, b);
    assert(paint_ok(mats, w0.pixel(a, b), now.pixel(a, b), m));
    if m != 0 {
        let d = choose|d: int| -(mats.def_spec(m).jitter as int) <= d <= mats.def_spec(m).jitter as int && now.pixel(a, b) == #[trigger] terrain_px(m, d);
        assert(now.pixel(a, b).mat == m);
    }
}

} // verus!
