//! What the floater check guarantees: once the neighbours of a cleared cell have been
//! examined, none of them is left hanging as a small unsupported piece of terrain.
use vstd::prelude::*;
use crate::materials::{Kind, Materials};
use crate::world::{
    Frame, Pixel, PixelWorld, SimState, MAX_FLOATER_SEEDS, in_region, reach_n, region_exceeds, solid_static,
};

verus! {

/// Material `m` is solid static terrain.
pub open spec fn solid_static_mat(mats: Materials, m: u8) -> bool {
    m != 0 && m != 255 && mats.def_spec(m).kind == Kind::Static && mats.def_spec(m).solid
}

/// The debris of solid static terrain is never solid static itself (it falls).
pub open spec fn debris_loose(mats: Materials) -> bool {
    forall|p: Pixel| solid_static_mat(mats, p.mat) ==> !solid_static_mat(mats, #[trigger] PixelWorld::drop_px(mats, p).mat)
}

/// (x, y) is a floater: solid static terrain with no solid static cell right below it,
/// in a connected region of at most `MAX_FLOATER_PX` cells.
pub open spec fn floater_at(mats: Materials, s: SimState, x: int, y: int) -> bool {
    &&& solid_static(mats, s, x, y)
    &&& !solid_static(mats, s, x, y + 1)
    &&& !region_exceeds(mats, s, x, y)
}

/// A solid static cell next to a cell of a region belongs to the region.
proof fn lemma_region_grows(mats: Materials, s: SimState, px0: int, py0: int, cx: int, cy: int, x: int, y: int)
    requires
        in_region(mats, s, px0, py0, cx, cy),
        solid_static(mats, s, x, y),
        (x == cx - 1 && y == cy) || (x == cx + 1 && y == cy) || (x == cx && y == cy - 1) || (x == cx && y == cy + 1),
    ensures
        in_region(mats, s, px0, py0, x, y),
{
    let k = choose|k: nat| reach_n(mats, s, px0, py0, cx, cy, k);
    assert(reach_n(mats, s, px0, py0, x, y, k + 1));
}

/// Every cell of the region of a solid static cell is solid static.
proof fn lemma_region_solid(mats: Materials, s: SimState, px0: int, py0: int, x: int, y: int)
    requires
        in_region(mats, s, px0, py0, x, y),
        solid_static(mats, s, px0, py0),
    ensures
        solid_static(mats, s, x, y),
{
    let k = choose|k: nat| reach_n(mats, s, px0, py0, x, y, k);
    assert(reach_n(mats, s, px0, py0, x, y, k));
}

/// A path into (nx, ny) from a cell of the region of (px0, py0) brings (nx, ny) into it.
proof fn lemma_path_into(mats: Materials, s: SimState, nx: int, ny: int, x: int, y: int, k: nat, px0: int, py0: int)
    requires
        reach_n(mats, s, nx, ny, x, y, k),
        in_region(mats, s, px0, py0, x, y),
        solid_static(mats, s, nx, ny),
    ensures
        in_region(mats, s, px0, py0, nx, ny),
    decreases k,
{
    if x != nx || y != ny {
        let k1 = (k - 1) as nat;
        if reach_n(mats, s, nx, ny, x - 1, y, k1) {
            assert(solid_static(mats, s, x - 1, y));
            lemma_region_grows(mats, s, px0, py0, x, y, x - 1, y);
            lemma_path_into(mats, s, nx, ny, x - 1, y, k1, px0, py0);
        } else if reach_n(mats, s, nx, ny, x + 1, y, k1) {
            assert(solid_static(mats, s, x + 1, y));
            lemma_region_grows(mats, s, px0, py0, x, y, x + 1, y);
            lemma_path_into(mats, s, nx, ny, x + 1, y, k1, px0, py0);
        } else if reach_n(mats, s, nx, ny, x, y - 1, k1) {
            assert(solid_static(mats, s, x, y - 1));
            lemma_region_grows(mats, s, px0, py0, x, y, x, y - 1);
            lemma_path_into(mats, s, nx, ny, x, y - 1, k1, px0, py0);
        } else {
            assert(reach_n(mats, s, nx, ny, x, y + 1, k1));
            assert(solid_static(mats, s, x, y + 1));
            lemma_region_grows(mats, s, px0, py0, x, y, x, y + 1);
            lemma_path_into(mats, s, nx, ny, x, y + 1, k1, px0, py0);
        }
    }
}

/// A path into (nx, ny) survives a change that leaves the materials outside the region
/// of (px0, py0) alone, when (nx, ny) lies outside that region.
proof fn lemma_reach_survives(mats: Materials, s: SimState, s2: SimState, nx: int, ny: int, x: int, y: int, k: nat, px0: int, py0: int)
    requires
        reach_n(mats, s, nx, ny, x, y, k),
        solid_static(mats, s, nx, ny),
        !in_region(mats, s, px0, py0, nx, ny),
        forall|a: int, b: int| !in_region(mats, s, px0, py0, a, b) ==> (#[trigger] (s2.px)(a, b)).mat == (s.px)(a, b).mat,
    ensures
        reach_n(mats, s2, nx, ny, x, y, k),
    decreases k,
{
    if x != nx || y != ny {
        if in_region(mats, s, px0, py0, x, y) {
            lemma_path_into(mats, s, nx, ny, x, y, k, px0, py0);
        }
        assert((s2.px)(x, y).mat == (s.px)(x, y).mat);
        let k1 = (k - 1) as nat;
        if reach_n(mats, s, nx, ny, x - 1, y, k1) {
            lemma_reach_survives(mats, s, s2, nx, ny, x - 1, y, k1, px0, py0);
        } else if reach_n(mats, s, nx, ny, x + 1, y, k1) {
            lemma_reach_survives(mats, s, s2, nx, ny, x + 1, y, k1, px0, py0);
        } else if reach_n(mats, s, nx, ny, x, y - 1, k1) {
            lemma_reach_survives(mats, s, s2, nx, ny, x, y - 1, k1, px0, py0);
        } else {
            lemma_reach_survives(mats, s, s2, nx, ny, x, y + 1, k1, px0, py0);
        }
    }
}

/// What collapsing the region of a solid static cell does to the materials: the region's
/// cells take their debris (never solid static), every other cell keeps its material.
proof fn lemma_collapse_mats(f: Frame, mats: Materials, s: SimState, x: int, y: int)
    requires
        debris_loose(mats),
        solid_static(mats, s, x, y),
        !region_exceeds(mats, s, x, y),
    ensures
        forall|a: int, b: int| !in_region(mats, s, x, y, a, b) ==> (#[trigger] (f.collapse_st(mats, s, x, y).px)(a, b)).mat == (s.px)(a, b).mat,
        forall|a: int, b: int| in_region(mats, s, x, y, a, b) ==> !solid_static(mats, f.collapse_st(mats, s, x, y), a, b),
{
    reveal(Frame::collapse_st);
    let s2 = f.collapse_st(mats, s, x, y);
    assert forall|a: int, b: int| in_region(mats, s, x, y, a, b) implies !solid_static(mats, s2, a, b) by {
        lemma_region_solid(mats, s, x, y, a, b);
        let p = (s.px)(a, b);
        assert(solid_static_mat(mats, p.mat));
        assert((s2.px)(a, b) == PixelWorld::drop_px(mats, p));
        assert(!solid_static_mat(mats, PixelWorld::drop_px(mats, p).mat));
    }
}

/// Examining a cell leaves it no floater.
proof fn lemma_examined(f: Frame, mats: Materials, s: SimState, x: int, y: int)
    requires
        debris_loose(mats),
    ensures
        !floater_at(mats, f.resolve_one(mats, s, x, y), x, y),
{
    reveal(Frame::collapse_st);
    if solid_static(mats, s, x, y) && !solid_static(mats, s, x, y + 1) && !region_exceeds(mats, s, x, y) {
        lemma_collapse_mats(f, mats, s, x, y);
        assert(reach_n(mats, s, x, y, x, y, 0));
        assert(in_region(mats, s, x, y, x, y));
    }
}

/// Examining any cell leaves a cell that is no floater no floater: the check never cuts a
/// piece loose that it leaves hanging.
proof fn lemma_step_keeps(f: Frame, mats: Materials, s: SimState, x: int, y: int, nx: int, ny: int)
    requires
        debris_loose(mats),
        !floater_at(mats, s, nx, ny),
    ensures
        !floater_at(mats, f.resolve_one(mats, s, x, y), nx, ny),
{
    reveal(Frame::collapse_st);
    if solid_static(mats, s, x, y) && !solid_static(mats, s, x, y + 1) && !region_exceeds(mats, s, x, y) {
        let s2 = f.resolve_one(mats, s, x, y);
        assert(s2 == f.collapse_st(mats, s, x, y));
        lemma_collapse_mats(f, mats, s, x, y);
        if in_region(mats, s, x, y, nx, ny) {
            assert(!solid_static(mats, s2, nx, ny));
        } else if solid_static(mats, s, nx, ny) {
            assert((s2.px)(nx, ny).mat == (s.px)(nx, ny).mat);
            if solid_static(mats, s, nx, ny + 1) {
                if in_region(mats, s, x, y, nx, ny + 1) {
                    lemma_region_grows(mats, s, x, y, nx, ny + 1, nx, ny);
                }
                assert((s2.px)(nx, ny + 1).mat == (s.px)(nx, ny + 1).mat);
            } else {
                assert(region_exceeds(mats, s, nx, ny));
                let l = choose|l: Seq<(int, int)>|
                    #![trigger l.no_duplicates()]
                    l.len() == crate::world::MAX_FLOATER_PX + 1 && l.no_duplicates() && (forall|k: int| 0 <= k < l.len() ==> in_region(mats, s, nx, ny, l[k].0, l[k].1));
                assert forall|k: int| 0 <= k < l.len() implies in_region(mats, s2, nx, ny, l[k].0, l[k].1) by {
                    assert(in_region(mats, s, nx, ny, l[k].0, l[k].1));
                    let n = choose|n: nat| reach_n(mats, s, nx, ny, l[k].0, l[k].1, n);
                    lemma_reach_survives(mats, s, s2, nx, ny, l[k].0, l[k].1, n, x, y);
                }
                assert(l.no_duplicates());
                assert(region_exceeds(mats, s2, nx, ny));
            }
        } else {
            assert((s2.px)(nx, ny).mat == (s.px)(nx, ny).mat);
        }
    }
}

/// Examining a seed's neighbours keeps every cell that is no floater no floater.
proof fn lemma_seed_keeps(f: Frame, mats: Materials, s: SimState, sx: int, sy: int, nx: int, ny: int)
    requires
        debris_loose(mats),
        !floater_at(mats, s, nx, ny),
    ensures
        !floater_at(mats, f.resolve_seed(mats, s, sx, sy), nx, ny),
{
    let s1 = f.resolve_one(mats, s, sx, sy - 1);
    let s2 = f.resolve_one(mats, s1, sx, sy + 1);
    let s3 = f.resolve_one(mats, s2, sx - 1, sy);
    lemma_step_keeps(f, mats, s, sx, sy - 1, nx, ny);
    lemma_step_keeps(f, mats, s1, sx, sy + 1, nx, ny);
    lemma_step_keeps(f, mats, s2, sx - 1, sy, nx, ny);
    lemma_step_keeps(f, mats, s3, sx + 1, sy, nx, ny);
}

/// After a seed is examined, none of its four neighbours is a floater.
proof fn lemma_seed_clears(f: Frame, mats: Materials, s: SimState, sx: int, sy: int)
    requires
        debris_loose(mats),
    ensures
        !floater_at(mats, f.resolve_seed(mats, s, sx, sy), sx, sy - 1),
        !floater_at(mats, f.resolve_seed(mats, s, sx, sy), sx, sy + 1),
        !floater_at(mats, f.resolve_seed(mats, s, sx, sy), sx - 1, sy),
        !floater_at(mats, f.resolve_seed(mats, s, sx, sy), sx + 1, sy),
{
    let s1 = f.resolve_one(mats, s, sx, sy - 1);
    let s2 = f.resolve_one(mats, s1, sx, sy + 1);
    let s3 = f.resolve_one(mats, s2, sx - 1, sy);
    lemma_examined(f, mats, s, sx, sy - 1);
    lemma_step_keeps(f, mats, s1, sx, sy + 1, sx, sy - 1);
    lemma_step_keeps(f, mats, s2, sx - 1, sy, sx, sy - 1);
    lemma_step_keeps(f, mats, s3, sx + 1, sy, sx, sy - 1);
    lemma_examined(f, mats, s1, sx, sy + 1);
    lemma_step_keeps(f, mats, s2, sx - 1, sy, sx, sy + 1);
    lemma_step_keeps(f, mats, s3, sx + 1, sy, sx, sy + 1);
    lemma_examined(f, mats, s2, sx - 1, sy);
    lemma_step_keeps(f, mats, s3, sx + 1, sy, sx - 1, sy);
    lemma_examined(f, mats, s3, sx + 1, sy);
}

/// After the first `k` seeds, no neighbour of seed `j < k` is a floater.
proof fn lemma_seeds_clear(f: Frame, mats: Materials, s: SimState, seeds: Seq<(i32, i32)>, j: int, k: int)
    requires
        debris_loose(mats),
        0 <= j < k,
    ensures
        ({
            let r = f.resolve_seeds(mats, s, seeds, k);
            let sx = seeds[j].0 as int;
            let sy = seeds[j].1 as int;
            &&& !floater_at(mats, r, sx, sy - 1)
            &&& !floater_at(mats, r, sx, sy + 1)
            &&& !floater_at(mats, r, sx - 1, sy)
            &&& !floater_at(mats, r, sx + 1, sy)
        }),
    decreases k,
{
    let sx = seeds[j].0 as int;
    let sy = seeds[j].1 as int;
    let prev = f.resolve_seeds(mats, s, seeds, k - 1);
    if j == k - 1 {
        lemma_seed_clears(f, mats, prev, sx, sy);
    } else {
        lemma_seeds_clear(f, mats, s, seeds, j, k - 1);
        let tx = seeds[k - 1].0 as int;
        let ty = seeds[k - 1].1 as int;
        lemma_seed_keeps(f, mats, prev, tx, ty, sx, sy - 1);
        lemma_seed_keeps(f, mats, prev, tx, ty, sx, sy + 1);
        lemma_seed_keeps(f, mats, prev, tx, ty, sx - 1, sy);
        lemma_seed_keeps(f, mats, prev, tx, ty, sx + 1, sy);
    }
}

/// The floater check leaves nothing hanging around the cells it examines: after
/// `resolve_floaters(seeds)`, no neighbour (above, below, left or right) of an examined
/// seed is solid static terrain without solid static support right below it in a region
/// of at most `MAX_FLOATER_PX` cells; such pieces have crumbled into their debris. (When a
/// material's debris were solid static terrain itself, it could be left hanging.)
pub proof fn law_no_floater_left(w: PixelWorld, mats: Materials, seeds: Seq<(i32, i32)>, j: int)
    requires
        debris_loose(mats),
        0 <= j < seeds.len(),
        j < MAX_FLOATER_SEEDS,
    ensures
        ({
            let r = w.resolve_st(mats, w.state(), seeds);
            let sx = seeds[j].0 as int;
            let sy = seeds[j].1 as int;
            &&& !floater_at(mats, r, sx, sy - 1)
            &&& !floater_at(mats, r, sx, sy + 1)
            &&& !floater_at(mats, r, sx - 1, sy)
            &&& !floater_at(mats, r, sx + 1, sy)
        }),
{
    let n = if seeds.len() < MAX_FLOATER_SEEDS { seeds.len() as int } else { MAX_FLOATER_SEEDS as int };
    lemma_seeds_clear(w.frame(), mats, w.state(), seeds, j, n);
}

} // verus!
