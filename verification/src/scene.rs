//! The playable world: the pixel simulation with its materials and light, the
//! torches placed in it, the spawn point, its own random stream and its events.
//! The time of day is a float and is kept by the front end.
use vstd::prelude::*;
use crate::events::Events;
use crate::gen::GenResult;
use crate::light::{LightMap, LIGHT_CELL, block_seeded, brightened, decayed, glows_added, grid_of, sky_reset, sky_seeds};
use crate::materials::{Kind, MaterialId, Materials};
use crate::rng::{Rng, chance_next, seeded};
use crate::world::{PixelWorld, SimHooks, SimState, empty_px};

verus! {

/// `chance(0.2)` as a threshold on the generator's 24-bit draw: the least
/// integer not below `0.2f32 * 2^24`.
pub const DROP_CHANCE: u32 = 3355444;

/// Mixed into the world seed for the world's own random stream.
pub const WORLD_SEED_SALT: u64 = 0x5EED_5EED;

/// Frames between two full relights when the terrain did not change.
pub const RELIGHT_EVERY: u32 = 10;

/// Something that happened in the world. Coordinates are simulation pixels.
#[derive(Clone, Copy, Debug, PartialEq, Eq, Structural)]
pub enum WorldEvent {
    Explosion { x: i32, y: i32 },
}

/// Pixels, materials, light and the game-level state around them.
pub struct World {
    pub pixels: PixelWorld,
    pub mats: Materials,
    pub light: LightMap,
    pub spawn_x: i32,
    pub spawn_y: i32,
    /// Torch positions (simulation pixels), the light's point sources.
    pub torches: Vec<(i32, i32)>,
    /// The torch material (0 when the table has none).
    pub torch_mat: MaterialId,
    /// Whether the terrain changed since the last relight.
    pub terrain_dirty: bool,
    /// Whether the light changed since the renderer last took it.
    pub light_dirty: bool,
    /// Frames simulated so far.
    pub light_frame: u32,
    /// The world's own random stream (drops, explosions).
    pub rng: Rng,
    pub events: Events<WorldEvent>,
}

/// The material a broken pixel of material `m` drops, if it names a known one.
pub open spec fn drop_id(mats: Materials, m: MaterialId) -> Option<MaterialId> {
    match mats.def_spec(m).drop {
        Some(name) => mats.id_spec(name@),
        None => None,
    }
}

/// `s` without the entries equal to `p`, order kept.
pub open spec fn without(s: Seq<(i32, i32)>, p: (i32, i32)) -> Seq<(i32, i32)>
    decreases s.len(),
{
    if s.len() == 0 {
        s
    } else if s.last() == p {
        without(s.drop_last(), p)
    } else {
        without(s.drop_last(), p).push(s.last())
    }
}

/// What mining and the tools change in a world: the pixels (with the
/// simulation's random stream), the world's own stream, the torches and the
/// terrain mark.
pub struct WorldState {
    pub px: SimState,
    pub rng: u64,
    pub torches: Seq<(i32, i32)>,
    pub dirty: bool,
}

/// The changeable part of a world.
pub open spec fn state_of(w: World) -> WorldState {
    WorldState { px: w.pixels.state(), rng: w.rng@, torches: w.torches@, dirty: w.terrain_dirty }
}

/// The parts of a world that mining and the tools leave alone.
pub open spec fn same_ground(a: World, b: World) -> bool {
    &&& a.pixels.same_frame(&b.pixels)
    &&& a.mats == b.mats
    &&& a.torch_mat == b.torch_mat
    &&& a.light == b.light
    &&& a.light_dirty == b.light_dirty
    &&& a.light_frame == b.light_frame
    &&& a.events == b.events
    &&& a.spawn_x == b.spawn_x
    &&& a.spawn_y == b.spawn_y
}

/// `World::mine_px` on state `s` of world `w`: the new state and whether the pixel broke.
pub open spec fn mine_effect(w: World, s: WorldState, x: int, y: int, power: u16) -> (WorldState, bool) {
    let (s1, r) = w.pixels.mine_st(w.mats, s.px, x, y, power);
    match r {
        None => (WorldState { px: s1, ..s }, false),
        Some(b) => {
            let torches = if b == w.torch_mat { without(s.torches, (x as i32, y as i32)) } else { s.torches };
            match drop_id(w.mats, b) {
                Some(d) => {
                    let (r2, hit) = chance_next(s.rng, DROP_CHANCE);
                    let px = if hit { w.pixels.spawn_st(w.mats, s1, x, y, d) } else { s1 };
                    (WorldState { px, rng: r2, torches, dirty: true }, true)
                },
                None => (WorldState { px: s1, rng: s.rng, torches, dirty: true }, true),
            }
        },
    }
}

/// Spawning material `m` at (x, y) in state `s`.
pub open spec fn spawn_effect(w: World, s: WorldState, x: int, y: int, m: MaterialId) -> WorldState {
    WorldState { px: w.pixels.spawn_st(w.mats, s.px, x, y, m), ..s }
}

/// Emptying the pixel at (x, y) in state `s` (unless it is empty or outside).
pub open spec fn clear_effect(w: World, s: WorldState, x: int, y: int) -> WorldState {
    let m = (s.px.px)(x, y).mat;
    if m != 0 && m != 255 {
        WorldState { px: w.pixels.set_st(s.px, x, y, empty_px()), ..s }
    } else {
        s
    }
}

/// Whether the pixel at (x, y) of state `s` is solid.
pub open spec fn solid_in(w: World, s: WorldState, x: int, y: int) -> bool {
    w.mats.def_spec((s.px.px)(x, y).mat).solid
}

/// `light` is the full recompute over `pixels` from its own sources and `torches`:
/// every cell open to the sky from the top is fully bright and the sky light floods
/// from there, and the block light floods from the sources.
pub open spec fn fully_lit(light: LightMap, pixels: PixelWorld, mats: Materials, torches: Seq<(i32, i32)>) -> bool {
    let cw = light.cols();
    let ch = light.rows();
    let full = (0i32, 0i32, (cw - 1) as i32, (ch - 1) as i32);
    let g = grid_of(cw, ch, pixels, mats, full);
    let zero = Seq::new((cw * ch) as nat, |i: int| 0u8);
    &&& g.filled(sky_reset(g, zero, full), light.sky_view(), sky_seeds(g, full))
    &&& exists|b0: Seq<u8>| #[trigger] block_seeded(cw, full, light.sources_with(torches), zero, b0)
        && g.filled(b0, light.block_view(), brightened(cw, full, zero, b0))
}

/// Whether the pixel at (x, y) of world `w` is solid.
pub open spec fn is_solid(w: World, x: int, y: int) -> bool {
    w.mats.def_spec(w.pixels.pixel(x, y).mat).solid
}

/// The damage bits of a pixel never exceed 63, so one blow of `power` up to 65472
/// cannot overflow.
pub proof fn lemma_damage_small(p: crate::world::Pixel)
    ensures
        PixelWorld::damage_bits(p) <= 63,
{
    let a = p.aux;
    assert((a >> 2u8) <= 63u8) by (bit_vector);
}

/// Whether the pixel can hold a torch against it: solid or a platform, and static.
pub open spec fn anchors(mats: Materials, pixels: PixelWorld, x: int, y: int) -> bool {
    let d = mats.def_spec(pixels.pixel(x, y).mat);
    (d.solid || d.platform) && d.kind == Kind::Static
}

/// A torch at (x, y) leans on the ground below, a ceiling above, or a wall beside.
pub open spec fn torch_supported(mats: Materials, pixels: PixelWorld, x: int, y: int) -> bool {
    anchors(mats, pixels, x, y + 1) || anchors(mats, pixels, x, y - 1) || anchors(mats, pixels, x - 1, y)
        || anchors(mats, pixels, x + 1, y)
}

fn remove_torch(torches: &Vec<(i32, i32)>, p: (i32, i32)) -> (r: Vec<(i32, i32)>)
    ensures
        r@ == without(torches@, p),
{
    let mut r: Vec<(i32, i32)> = Vec::new();
    let mut i: usize = 0;
    while i < torches.len()
        invariant
            i <= torches@.len(),
            r@ == without(torches@.take(i as int), p),
        decreases torches.len() - i,
    {
        proof {
            assert(torches@.take(i as int + 1).drop_last() =~= torches@.take(i as int));
            assert(torches@.take(i as int + 1).last() == torches@[i as int]);
        }
        let t = torches[i];
        if t.0 != p.0 || t.1 != p.1 {
            r.push(t);
        }
        i = i + 1;
    }
    proof {
        assert(torches@.take(torches@.len() as int) =~= torches@);
    }
    r
}

impl World {
    /// The parts are valid.
    pub open spec fn wf(&self) -> bool {
        &&& self.pixels.wf()
        &&& self.mats.wf()
        &&& self.light.wf()
        &&& self.light.pixel_sized()
    }

    /// Assembles a world from generated pixels: light cells of `LIGHT_CELL`
    /// pixels, the torch material looked up by name, and a random stream of its
    /// own. The terrain counts as changed, so the first frame lights it.
    pub fn new(seed: u64, pixels: PixelWorld, mats: Materials, gen: GenResult) -> (w: Self)
        requires
            pixels.wf(),
            mats.wf(),
            (pixels.width() / 4) * (pixels.height() / 4) <= i32::MAX,
        ensures
            w.wf(),
            w.pixels == pixels,
            w.mats == mats,
            w.light.cols() == pixels.width() / 4,
            w.light.rows() == pixels.height() / 4,
            w.spawn_x == gen.spawn_x,
            w.spawn_y == gen.spawn_y,
            w.torches@.len() == 0,
            w.torch_mat == match mats.id_spec("torch"@) {
                Some(k) => k,
                None => 0u8,
            },
            w.terrain_dirty,
            !w.light_dirty,
            w.light_frame == 0,
            w.rng@ == seeded(seed ^ WORLD_SEED_SALT),
            w.events@.len() == 0,
    {
        proof {
            pixels.lemma_dims();
        }
        let (wp, hp) = pixels.size();
        let cw = (wp + LIGHT_CELL - 1) / LIGHT_CELL;
        let ch = (hp + LIGHT_CELL - 1) / LIGHT_CELL;
        assert(cw == wp / 4 && ch == hp / 4);
        let light = LightMap::new(cw, ch);
        let torch_mat = match mats.id("torch") {
            Some(k) => k,
            None => 0,
        };
        World {
            pixels,
            mats,
            light,
            spawn_x: gen.spawn_x,
            spawn_y: gen.spawn_y,
            torches: Vec::new(),
            torch_mat,
            terrain_dirty: true,
            light_dirty: false,
            light_frame: 0,
            rng: Rng::new(seed ^ WORLD_SEED_SALT),
            events: Events::new(),
        }
    }

    /// Whether the pixel is solid for collision.
    pub fn solid_px(&self, x: i32, y: i32) -> (r: bool)
        requires
            self.wf(),
        ensures
            r == self.mats.def_spec(self.pixels.pixel(x as int, y as int).mat).solid,
    {
        self.mats.def(self.pixels.get(x, y).mat).solid
    }

    /// Whether the pixel is a one-way platform.
    pub fn platform_px(&self, x: i32, y: i32) -> (r: bool)
        requires
            self.wf(),
        ensures
            r == self.mats.def_spec(self.pixels.pixel(x as int, y as int).mat).platform,
    {
        self.mats.def(self.pixels.get(x, y).mat).platform
    }

    /// Whether the pixel can be climbed.
    pub fn climbable_px(&self, x: i32, y: i32) -> (r: bool)
        requires
            self.wf(),
        ensures
            r == self.mats.def_spec(self.pixels.pixel(x as int, y as int).mat).climbable,
    {
        self.mats.def(self.pixels.get(x, y).mat).climbable
    }

    /// Marks the terrain as changed (the next frame relights).
    pub fn mark_terrain_dirty(&mut self)
        ensures
            same_ground(*final(self), *old(self)),
            state_of(*final(self)) == (WorldState { dirty: true, ..state_of(*old(self)) }),
            final(self).terrain_dirty,
            final(self).light_dirty == old(self).light_dirty,
            final(self).light_frame == old(self).light_frame,
            final(self).torch_mat == old(self).torch_mat,
            final(self).wf() == old(self).wf(),
            final(self).pixels == old(self).pixels,
            final(self).light == old(self).light,
            final(self).torches == old(self).torches,
    {
        self.terrain_dirty = true;
    }

    /// Whether the light needs uploading again; clears the mark.
    pub fn take_light_dirty(&mut self) -> (d: bool)
        ensures
            d == old(self).light_dirty,
            !final(self).light_dirty,
            final(self).terrain_dirty == old(self).terrain_dirty,
            final(self).light_frame == old(self).light_frame,
            final(self).torch_mat == old(self).torch_mat,
            final(self).wf() == old(self).wf(),
            final(self).pixels == old(self).pixels,
            final(self).light == old(self).light,
            final(self).torches == old(self).torches,
    {
        let d = self.light_dirty;
        self.light_dirty = false;
        d
    }

    /// One logic frame: the simulation steps (burning pixels feeding the light's
    /// glow), the glow decays, and the light is recomputed when the terrain
    /// changed or every `RELIGHT_EVERY` frames.
    pub fn update(&mut self)
        requires
            old(self).wf(),
            old(self).pixels.state().tick < u64::MAX,
            old(self).light_frame < u32::MAX,
        ensures
            final(self).wf(),
            final(self).pixels.same_frame(&old(self).pixels),
            final(self).pixels.state() == old(self).pixels.frame().step_st(
                old(self).mats,
                old(self).pixels.sim_ids(),
                old(self).pixels.state(),
            ),
            final(self).mats == old(self).mats,
            final(self).light_frame == old(self).light_frame + 1,
            final(self).light.cols() == old(self).light.cols(),
            final(self).light.rows() == old(self).light.rows(),
            final(self).light.glow_view() == old(self).light.glow_view(),
            final(self).light.moving_view() == old(self).light.moving_view(),
            final(self).light.emissive_view() == decayed(glows_added(
                old(self).light.emissive_view(),
                old(self).pixels.frame().step_glow(old(self).mats, old(self).pixels.sim_ids(), old(self).pixels.state()),
            )),
            ({
                let relit = old(self).terrain_dirty || (old(self).light_frame + 1) % (RELIGHT_EVERY as int) == 0;
                &&& relit ==> !final(self).terrain_dirty && final(self).light_dirty
                    && fully_lit(final(self).light, final(self).pixels, final(self).mats, final(self).torches@)
                &&& !relit ==> final(self).terrain_dirty == old(self).terrain_dirty
                    && final(self).light_dirty == old(self).light_dirty
                    && final(self).light.same_light(&old(self).light)
                    && final(self).light.pending() == old(self).light.pending()
            }),
            final(self).torches == old(self).torches,
            final(self).torch_mat == old(self).torch_mat,
            final(self).rng == old(self).rng,
            final(self).events == old(self).events,
            final(self).spawn_x == old(self).spawn_x,
            final(self).spawn_y == old(self).spawn_y,
    {
        let ghost l0 = self.light;
        let ghost e = Seq::<(i32, i32, u8)>::empty();
        self.pixels.step(&self.mats, &mut self.light);
        proof {
            assert(l0.after_calls(&l0, e));
            let g = old(self).pixels.frame().step_glow(old(self).mats, old(self).pixels.sim_ids(), old(self).pixels.state());
            assert(e + g =~= g);
            assert(self.light.after_calls(&l0, e + g));
        }
        self.light.decay_emissive();
        self.light_frame = self.light_frame + 1;
        if self.terrain_dirty || self.light_frame % RELIGHT_EVERY == 0 {
            let ghost before = self.light;
            self.light.relight(&self.pixels, &self.mats, self.torches.as_slice());
            proof {
                self.light.lemma_same_sources_with(&before, self.torches@);
            }
            self.terrain_dirty = false;
            self.light_dirty = true;
        }
    }

    /// Mines one pixel with `power`. When it breaks: with probability 0.2 it
    /// drops its debris material in its place, a broken torch leaves the light
    /// sources, and the terrain counts as changed. True when it broke.
    pub fn mine_px(&mut self, x: i32, y: i32, power: u16) -> (ok: bool)
        requires
            old(self).wf(),
            PixelWorld::mine_target(old(self).mats, old(self).pixels.pixel(x as int, y as int))
                ==> PixelWorld::damage_bits(old(self).pixels.pixel(x as int, y as int)) + power <= u16::MAX,
        ensures
            final(self).wf(),
            final(self).pixels.same_frame(&old(self).pixels),
            final(self).mats == old(self).mats,
            final(self).light == old(self).light,
            final(self).torch_mat == old(self).torch_mat,
            final(self).light_dirty == old(self).light_dirty,
            final(self).light_frame == old(self).light_frame,
            same_ground(*final(self), *old(self)),
            (state_of(*final(self)), ok) == mine_effect(*old(self), state_of(*old(self)), x as int, y as int, power),
            ({
                let (s1, r) = old(self).pixels.mine_st(old(self).mats, old(self).pixels.state(), x as int, y as int, power);
                &&& ok == r is Some
                &&& !ok ==> final(self).pixels.state() == s1 && final(self).rng == old(self).rng
                    && final(self).torches@ == old(self).torches@
                    && final(self).terrain_dirty == old(self).terrain_dirty
                &&& ok ==> {
                    let b = r->0;
                    &&& final(self).terrain_dirty
                    &&& final(self).torches@ == (if b == old(self).torch_mat {
                        without(old(self).torches@, (x, y))
                    } else {
                        old(self).torches@
                    })
                    &&& match drop_id(old(self).mats, b) {
                        Some(d) => {
                            let (r2, hit) = chance_next(old(self).rng@, DROP_CHANCE);
                            &&& final(self).rng@ == r2
                            &&& final(self).pixels.state() == (if hit {
                                old(self).pixels.spawn_st(old(self).mats, s1, x as int, y as int, d)
                            } else {
                                s1
                            })
                        },
                        None => final(self).rng == old(self).rng && final(self).pixels.state() == s1,
                    }
                }
            }),
    {
        let broken = match self.pixels.mine_px(x, y, power, &self.mats) {
            Some(b) => b,
            None => return false,
        };
        let drop: Option<MaterialId> = match &self.mats.def(broken).drop {
            Some(name) => self.mats.id(name.as_str()),
            None => None,
        };
        match drop {
            Some(dm) => {
                if self.rng.chance_below(DROP_CHANCE) {
                    self.pixels.spawn(x, y, dm, &self.mats);
                }
            },
            None => {},
        }
        if broken == self.torch_mat {
            self.torches = remove_torch(&self.torches, (x, y));
        }
        self.terrain_dirty = true;
        true
    }

    fn anchor(&self, x: i32, y: i32) -> (r: bool)
        requires
            self.wf(),
        ensures
            r == anchors(self.mats, self.pixels, x as int, y as int),
    {
        let d = self.mats.def(self.pixels.get(x, y).mat);
        (d.solid || d.platform) && d.kind == Kind::Static
    }

    /// Places a torch on an empty pixel that leans on static solid ground, a
    /// ceiling or a wall; it becomes a light source. False otherwise.
    pub fn place_torch(&mut self, x: i32, y: i32) -> (ok: bool)
        requires
            old(self).wf(),
            old(self).pixels.pixel(x as int, y as int).mat == 0 && old(self).torch_mat != 0 ==> y > i32::MIN,
        ensures
            final(self).wf(),
            final(self).pixels.same_frame(&old(self).pixels),
            final(self).mats == old(self).mats,
            final(self).light == old(self).light,
            final(self).rng == old(self).rng,
            final(self).torch_mat == old(self).torch_mat,
            final(self).light_dirty == old(self).light_dirty,
            final(self).light_frame == old(self).light_frame,
            ok == (old(self).pixels.pixel(x as int, y as int).mat == 0 && old(self).torch_mat != 0
                && torch_supported(old(self).mats, old(self).pixels, x as int, y as int)),
            ok ==> final(self).pixels.state() == old(self).pixels.spawn_st(
                old(self).mats,
                old(self).pixels.state(),
                x as int,
                y as int,
                old(self).torch_mat,
            ) && final(self).torches@ == old(self).torches@.push((x, y)) && final(self).terrain_dirty,
            !ok ==> final(self).pixels == old(self).pixels && final(self).torches == old(self).torches
                && final(self).terrain_dirty == old(self).terrain_dirty,
            same_ground(*final(self), *old(self)),
            state_of(*final(self)) == (if ok {
                WorldState {
                    px: old(self).pixels.spawn_st(old(self).mats, old(self).pixels.state(), x as int, y as int, old(self).torch_mat),
                    rng: old(self).rng@,
                    torches: old(self).torches@.push((x, y)),
                    dirty: true,
                }
            } else {
                state_of(*old(self))
            }),
    {
        if self.pixels.get(x, y).mat != 0 || self.torch_mat == 0 {
            return false;
        }
        proof {
            self.pixels.lemma_empty_in_bounds(x as int, y as int);
            self.pixels.lemma_dims();
        }
        let supported = self.anchor(x, y + 1) || self.anchor(x, y - 1) || self.anchor(x - 1, y) || self.anchor(
            x + 1,
            y,
        );
        if !supported {
            return false;
        }
        self.pixels.spawn(x, y, self.torch_mat, &self.mats);
        self.torches.push((x, y));
        self.terrain_dirty = true;
        true
    }
}

/// The first solid row of column `x`, scanning down from the top; half the
/// world's height when the column holds nothing solid.
pub fn surface_y(world: &World, x: i32) -> (y: i32)
    requires
        world.wf(),
    ensures
        ({
            let h = world.pixels.height();
            ||| 0 <= y < h && is_solid(*world, x as int, y as int)
                && forall|z: int| 0 <= z < y ==> !#[trigger] is_solid(*world, x as int, z)
            ||| y == h / 2 && forall|z: int| 0 <= z < h ==> !#[trigger] is_solid(*world, x as int, z)
        }),
{
    let (_, h) = world.pixels.size();
    let mut y: i32 = 0;
    while y < h
        invariant
            world.wf(),
            h == world.pixels.height(),
            0 <= y <= h,
            forall|z: int| 0 <= z < y ==> !#[trigger] is_solid(*world, x as int, z),
        decreases h - y,
    {
        if world.solid_px(x, y) {
            return y;
        }
        y = y + 1;
    }
    h / 2
}

/// Whether any pixel of the box `x0..=x1` by `y0..=y1` is solid.
pub fn solid_in_box(world: &World, x0: i32, y0: i32, x1: i32, y1: i32) -> (r: bool)
    requires
        world.wf(),
    ensures
        r == exists|x: int, y: int| x0 <= x <= x1 && y0 <= y <= y1 && #[trigger] is_solid(*world, x, y),
{
    let mut ty: i64 = y0 as i64;
    while ty <= y1 as i64
        invariant
            world.wf(),
            y0 <= ty,
            ty <= y1 as int + 1 || ty == y0,
            forall|x: int, y: int| x0 <= x <= x1 && y0 <= y < ty ==> !#[trigger] is_solid(*world, x, y),
        decreases y1 as int + 1 - ty,
    {
        let mut tx: i64 = x0 as i64;
        while tx <= x1 as i64
            invariant
                world.wf(),
                y0 <= ty <= y1,
                x0 <= tx,
                tx <= x1 as int + 1 || tx == x0,
                forall|x: int, y: int| x0 <= x <= x1 && y0 <= y < ty ==> !#[trigger] is_solid(*world, x, y),
                forall|x: int| x0 <= x < tx ==> !#[trigger] is_solid(*world, x, ty as int),
            decreases x1 as int + 1 - tx,
        {
            if world.solid_px(tx as i32, ty as i32) {
                assert(is_solid(*world, tx as int, ty as int));
                return true;
            }
            tx = tx + 1;
        }
        ty = ty + 1;
    }
    false
}

} // verus!
