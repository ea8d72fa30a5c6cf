//! The tool in the player's hand, one logic frame at a time: the sword swings,
//! the pickaxe mines a round brush and scoops loose pixels, blocks of stone are
//! placed around the cursor (never inside the player), torches are placed, and
//! water or sand is poured.
use vstd::prelude::*;
use crate::game::{Tool, ToolCtx};
use crate::input::{Action, InputState, MouseButton};
use crate::rng::{output, xorshift};
use crate::scene::{
    World, WorldState, clear_effect, lemma_damage_small, mine_effect, same_ground, solid_in, spawn_effect, state_of,
    torch_supported,
};
use crate::world::{PixelWorld, SimState, id_or_zero};

verus! {

/// What the tools read of the cursor and the player, in whole simulation pixels
/// (the game's positions are floats; the front end rounds them as the game does).
#[derive(Clone, Copy, Debug)]
pub struct Aim {
    /// The cursor is within reach of the player.
    pub in_reach: bool,
    /// The cursor snapped to even coordinates (placing tools).
    pub cx: i32,
    pub cy: i32,
    /// The cursor itself (mining and pouring).
    pub free_x: i32,
    pub free_y: i32,
    /// Pixels under the player's body grown by one pixel: x from `body.0` to
    /// `body.1`, y from `body.2` to `body.3`, inclusive.
    pub body: (i32, i32, i32, i32),
}

/// Whether (x, y) is under the player.
pub open spec fn on_body(aim: Aim, x: int, y: int) -> bool {
    aim.body.0 <= x <= aim.body.1 && aim.body.2 <= y <= aim.body.3
}

/// The pickaxe's mining power per pixel.
pub const MINE_POWER: u16 = 3;

/// At most this many pixels break per click.
pub const MAX_BREAKS: u32 = 26;

/// Mining the brush cells in order (13 x 13 around (fx, fy), those within
/// radius 6), stopping once `MAX_BREAKS` pixels broke: the state after the
/// first `k` cells and how many broke.
pub open spec fn brush(w: World, s: WorldState, fx: int, fy: int, k: int) -> (WorldState, int)
    decreases k,
{
    if k <= 0 {
        (s, 0)
    } else {
        let prev = brush(w, s, fx, fy, k - 1);
        let dx = (k - 1) % 13 - 6;
        let dy = (k - 1) / 13 - 6;
        if prev.1 >= MAX_BREAKS || dx * dx + dy * dy > 36 {
            prev
        } else {
            let step = mine_effect(w, prev.0, fx + dx, fy + dy, MINE_POWER);
            (step.0, if step.1 { prev.1 + 1 } else { prev.1 })
        }
    }
}

/// Scooping: emptying the cells of the 7 x 7 square around (fx, fy) within
/// radius 3, after the first `k` of them.
pub open spec fn scoop(w: World, s: WorldState, fx: int, fy: int, k: int) -> WorldState
    decreases k,
{
    if k <= 0 {
        s
    } else {
        let prev = scoop(w, s, fx, fy, k - 1);
        let dx = (k - 1) % 7 - 3;
        let dy = (k - 1) / 7 - 3;
        if dx * dx + dy * dy <= 9 {
            clear_effect(w, prev, fx + dx, fy + dy)
        } else {
            prev
        }
    }
}

/// Placing material `m` on the 4 x 4 cells around the snapped cursor that are
/// empty, not solid and not under the player: the state after the first `k`
/// cells and whether any cell qualified.
pub open spec fn blocks(w: World, s: WorldState, aim: Aim, m: u8, k: int) -> (WorldState, bool)
    decreases k,
{
    if k <= 0 {
        (s, false)
    } else {
        let prev = blocks(w, s, aim, m, k - 1);
        let tx = aim.cx + (k - 1) % 4 - 2;
        let ty = aim.cy + (k - 1) / 4 - 2;
        if (prev.0.px.px)(tx, ty).mat == 0 && !solid_in(w, prev.0, tx, ty) && !on_body(aim, tx, ty) {
            (spawn_effect(w, prev.0, tx, ty, m), true)
        } else {
            prev
        }
    }
}

/// One draw of the tools' die: the next simulation draw's high half, mod 7.
pub open spec fn die(rng: u64) -> int {
    ((output(xorshift(rng)) >> 32u64) as u32 % 7) as int
}

/// Pouring material `m`: each of `k` drops lands at a random offset within
/// radius 3 of (fx, fy) unless that pixel is solid.
pub open spec fn pour(w: World, s: WorldState, fx: int, fy: int, m: u8, k: int) -> WorldState
    decreases k,
{
    if k <= 0 {
        s
    } else {
        let prev = pour(w, s, fx, fy, m, k - 1);
        let r1 = prev.px.rng;
        let dx = die(r1) % 7 - 3;
        let r2 = xorshift(r1);
        let dy = die(r2) % 7 - 3;
        let s1 = WorldState { px: SimState { rng: xorshift(r2), ..prev.px }, ..prev };
        if dx * dx + dy * dy <= 9 && !solid_in(w, s1, fx + dx, fy + dy) {
            spawn_effect(w, s1, fx + dx, fy + dy, m)
        } else {
            s1
        }
    }
}

/// One frame of tool use: the new tool state, the new world state, and
/// (whether the sword swings, whether the screen shakes).
pub open spec fn tool_outcome(t: ToolCtx, input: InputState, w: World, aim: Aim, busy: bool) -> (ToolCtx, WorldState, (bool, bool)) {
    let pc = if t.place_cooldown > 0 { (t.place_cooldown - 1) as u8 } else { t.place_cooldown };
    let sc = if t.scoop_cooldown > 0 { (t.scoop_cooldown - 1) as u8 } else { t.scoop_cooldown };
    let t1 = ToolCtx { tool: t.tool, place_cooldown: pc, scoop_cooldown: sc };
    let fire = input.fresh(Action::Attack) || input.button_fresh(MouseButton::Left);
    let s0 = state_of(w);
    let idle = (t1, s0, (false, false));
    match t.tool {
        Tool::Sword => (t1, s0, (fire, false)),
        Tool::Pickaxe => if aim.in_reach && !busy && fire {
            let mined = brush(w, s0, aim.free_x as int, aim.free_y as int, 169);
            let s2 = if sc == 0 { scoop(w, mined.0, aim.free_x as int, aim.free_y as int, 49) } else { mined.0 };
            (ToolCtx { scoop_cooldown: if sc == 0 { 5u8 } else { sc }, ..t1 }, s2, (false, mined.1 > 0))
        } else {
            idle
        },
        Tool::Block => if aim.in_reach && fire && pc == 0 {
            let placed = blocks(w, s0, aim, id_or_zero(w.mats, "stone"@), 16);
            if placed.1 {
                (ToolCtx { place_cooldown: 6u8, ..t1 }, WorldState { dirty: true, ..placed.0 }, (false, false))
            } else {
                (t1, placed.0, (false, false))
            }
        } else {
            idle
        },
        Tool::Torch => if aim.in_reach && fire && pc == 0 && (s0.px.px)(aim.cx as int, aim.cy as int).mat == 0
            && w.torch_mat != 0 && torch_supported(w.mats, w.pixels, aim.cx as int, aim.cy as int) {
            (
                ToolCtx { place_cooldown: 8u8, ..t1 },
                WorldState {
                    px: w.pixels.spawn_st(w.mats, s0.px, aim.cx as int, aim.cy as int, w.torch_mat),
                    rng: s0.rng,
                    torches: s0.torches.push((aim.cx, aim.cy)),
                    dirty: true,
                },
                (false, false),
            )
        } else {
            idle
        },
        Tool::Water => if aim.in_reach && fire {
            (t1, pour(w, s0, aim.free_x as int, aim.free_y as int, id_or_zero(w.mats, "water"@), 16), (false, false))
        } else {
            idle
        },
        Tool::Sand => if aim.in_reach && fire {
            (t1, pour(w, s0, aim.free_x as int, aim.free_y as int, id_or_zero(w.mats, "sand"@), 16), (false, false))
        } else {
            idle
        },
        _ => idle,
    }
}

/// The coordinates a tool computes with stay in `i32`.
pub open spec fn aim_ok(t: ToolCtx, w: World, aim: Aim) -> bool {
    match t.tool {
        Tool::Pickaxe => i32::MIN + 6 <= aim.free_x <= i32::MAX - 6 && i32::MIN + 6 <= aim.free_y <= i32::MAX - 6,
        Tool::Block => i32::MIN + 2 <= aim.cx <= i32::MAX - 1 && i32::MIN + 2 <= aim.cy <= i32::MAX - 1,
        Tool::Torch => w.pixels.pixel(aim.cx as int, aim.cy as int).mat == 0 && w.torch_mat != 0 ==> aim.cy > i32::MIN,
        Tool::Water | Tool::Sand => i32::MIN + 3 <= aim.free_x <= i32::MAX - 3 && i32::MIN + 3 <= aim.free_y <= i32::MAX - 3,
        _ => true,
    }
}

/// Once `MAX_BREAKS` pixels broke, the rest of the brush changes nothing.
proof fn lemma_brush_done(w: World, s: WorldState, fx: int, fy: int, i: int, n: int)
    requires
        0 <= i <= n,
        brush(w, s, fx, fy, i).1 >= MAX_BREAKS,
    ensures
        brush(w, s, fx, fy, n) == brush(w, s, fx, fy, i),
    decreases n - i,
{
    if n > i {
        lemma_brush_done(w, s, fx, fy, i, n - 1);
    }
}

/// A draw of the tools' die from the simulation's random stream.
fn world_rng(world: &mut World) -> (r: i32)
    requires
        old(world).wf(),
    ensures
        final(world).wf(),
        same_ground(*final(world), *old(world)),
        r == die(old(world).pixels.state().rng),
        state_of(*final(world)) == (WorldState {
            px: SimState { rng: xorshift(old(world).pixels.state().rng), ..old(world).pixels.state() },
            ..state_of(*old(world))
        }),
{
    let r = world.pixels.rng().next_u32();
    (r % 7) as i32
}

/// One frame of the current tool; returns (whether the sword swings, whether
/// the screen shakes). `busy` is true while an attack animation runs.
pub fn update(t: &mut ToolCtx, input: &InputState, world: &mut World, aim: &Aim, busy: bool) -> (r: (bool, bool))
    requires
        old(world).wf(),
        aim_ok(*old(t), *old(world), *aim),
    ensures
        final(world).wf(),
        same_ground(*final(world), *old(world)),
        (*final(t), state_of(*final(world)), r) == tool_outcome(*old(t), *input, *old(world), *aim, busy),
{
    let ghost w0 = *world;
    let ghost s0 = state_of(*world);
    let mut shake = false;
    let mut sword_swing = false;
    if t.place_cooldown > 0 {
        t.place_cooldown = t.place_cooldown - 1;
    }
    if t.scoop_cooldown > 0 {
        t.scoop_cooldown = t.scoop_cooldown - 1;
    }
    let fire = input.just_pressed(Action::Attack);
    match t.tool {
        Tool::Sword => {
            sword_swing = fire;
        },
        Tool::Pickaxe => {
            if aim.in_reach && !busy && fire {
                let fx = aim.free_x;
                let fy = aim.free_y;
                let mut breaks: u32 = 0;
                let mut k: u32 = 0;
                while k < 169 && breaks < MAX_BREAKS
                    invariant
                        world.wf(),
                        same_ground(*world, w0),
                        w0.wf(),
                        fx == aim.free_x,
                        fy == aim.free_y,
                        i32::MIN + 6 <= fx <= i32::MAX - 6,
                        i32::MIN + 6 <= fy <= i32::MAX - 6,
                        k <= 169,
                        (state_of(*world), breaks as int) == brush(w0, s0, fx as int, fy as int, k as int),
                    decreases 169 - k,
                {
                    assert(k % 13 < 13 && k / 13 < 13);
                    let dx = (k % 13) as i32 - 6;
                    let dy = (k / 13) as i32 - 6;
                    assert(-6 <= dx <= 6 && -6 <= dy <= 6);
                    assert(0 <= dx * dx <= 36 && 0 <= dy * dy <= 36) by (nonlinear_arith)
                        requires
                            -6 <= dx <= 6,
                            -6 <= dy <= 6,
                    ;
                    if dx * dx + dy * dy <= 36 {
                        proof {
                            lemma_damage_small(world.pixels.pixel((fx + dx) as int, (fy + dy) as int));
                        }
                        let ghost before = *world;
                        let broke = world.mine_px(fx + dx, fy + dy, MINE_POWER);
                        proof {
                            assert(mine_effect(before, state_of(before), (fx + dx) as int, (fy + dy) as int, MINE_POWER)
                                == mine_effect(w0, state_of(before), (fx + dx) as int, (fy + dy) as int, MINE_POWER));
                        }
                        if broke {
                            breaks = breaks + 1;
                        }
                    }
                    k = k + 1;
                }
                proof {
                    if k < 169 {
                        lemma_brush_done(w0, s0, fx as int, fy as int, k as int, 169);
                    }
                }
                shake = breaks > 0;
                if t.scoop_cooldown == 0 {
                    let ghost s1 = state_of(*world);
                    let mut j: u32 = 0;
                    while j < 49
                        invariant
                            world.wf(),
                            same_ground(*world, w0),
                            fx == aim.free_x,
                            fy == aim.free_y,
                            i32::MIN + 6 <= fx <= i32::MAX - 6,
                            i32::MIN + 6 <= fy <= i32::MAX - 6,
                            j <= 49,
                            state_of(*world) == scoop(w0, s1, fx as int, fy as int, j as int),
                        decreases 49 - j,
                    {
                        assert(j % 7 < 7 && j / 7 < 7);
                        let dx = (j % 7) as i32 - 3;
                        let dy = (j / 7) as i32 - 3;
                        assert(-3 <= dx <= 3 && -3 <= dy <= 3);
                        assert(0 <= dx * dx <= 9 && 0 <= dy * dy <= 9) by (nonlinear_arith)
                            requires
                                -3 <= dx <= 3,
                                -3 <= dy <= 3,
                        ;
                        if dx * dx + dy * dy <= 9 {
                            world.pixels.clear_px(fx + dx, fy + dy);
                        }
                        j = j + 1;
                    }
                    t.scoop_cooldown = 5;
                }
            }
        },
        Tool::Block => {
            if aim.in_reach && fire && t.place_cooldown == 0 {
                let m: u8 = match world.mats.id("stone") {
                    Some(id) => id,
                    None => 0,
                };
                let mut placed = false;
                let mut k: u32 = 0;
                while k < 16
                    invariant
                        world.wf(),
                        same_ground(*world, w0),
                        i32::MIN + 2 <= aim.cx <= i32::MAX - 1,
                        i32::MIN + 2 <= aim.cy <= i32::MAX - 1,
                        m == id_or_zero(w0.mats, "stone"@),
                        k <= 16,
                        (state_of(*world), placed) == blocks(w0, s0, *aim, m, k as int),
                    decreases 16 - k,
                {
                    assert(k % 4 < 4 && k / 4 < 4);
                    let ox = (k % 4) as i32 - 2;
                    let oy = (k / 4) as i32 - 2;
                    let tx = aim.cx + ox;
                    let ty = aim.cy + oy;
                    if world.pixels.get(tx, ty).mat == 0 && !world.solid_px(tx, ty) && !(aim.body.0 <= tx && tx
                        <= aim.body.1 && aim.body.2 <= ty && ty <= aim.body.3) {
                        world.pixels.spawn(tx, ty, m, &world.mats);
                        placed = true;
                    }
                    k = k + 1;
                }
                if placed {
                    world.mark_terrain_dirty();
                    t.place_cooldown = 6;
                }
            }
        },
        Tool::Torch => {
            if aim.in_reach && fire && t.place_cooldown == 0 && world.place_torch(aim.cx, aim.cy) {
                t.place_cooldown = 8;
            }
        },
        Tool::Water | Tool::Sand => {
            if aim.in_reach && fire {
                let name = match t.tool {
                    Tool::Water => "water",
                    _ => "sand",
                };
                let m: u8 = match world.mats.id(name) {
                    Some(id) => id,
                    None => 0,
                };
                let fx = aim.free_x;
                let fy = aim.free_y;
                let mut n: u32 = 0;
                while n < 16
                    invariant
                        world.wf(),
                        same_ground(*world, w0),
                        fx == aim.free_x,
                        fy == aim.free_y,
                        i32::MIN + 3 <= fx <= i32::MAX - 3,
                        i32::MIN + 3 <= fy <= i32::MAX - 3,
                        n <= 16,
                        state_of(*world) == pour(w0, s0, fx as int, fy as int, m, n as int),
                    decreases 16 - n,
                {
                    let a = world_rng(world);
                    let b = world_rng(world);
                    let dx = (a % 7) - 3;
                    let dy = (b % 7) - 3;
                    assert(-3 <= dx <= 3 && -3 <= dy <= 3);
                    assert(0 <= dx * dx <= 9 && 0 <= dy * dy <= 9) by (nonlinear_arith)
                        requires
                            -3 <= dx <= 3,
                            -3 <= dy <= 3,
                    ;
                    if dx * dx + dy * dy <= 9 && !world.solid_px(fx + dx, fy + dy) {
                        world.pixels.spawn(fx + dx, fy + dy, m, &world.mats);
                    }
                    n = n + 1;
                }
            }
        },
        _ => {},
    }
    (sword_swing, shake)
}


/// Spawning changes at most the one pixel spawned on, and only to the spawned material.
proof fn lemma_spawn_mats(w: World, s: WorldState, x: int, y: int, m: u8)
    ensures
        forall|a: int, b: int| #[trigger] (spawn_effect(w, s, x, y, m).px.px)(a, b).mat != (s.px.px)(a, b).mat
            ==> a == x && b == y && (spawn_effect(w, s, x, y, m).px.px)(a, b).mat == m,
{
    let r = spawn_effect(w, s, x, y, m);
    assert forall|a: int, b: int| #[trigger] (r.px.px)(a, b).mat != (s.px.px)(a, b).mat
        implies a == x && b == y && (r.px.px)(a, b).mat == m by {}
}

/// Pouring only spawns: every pixel whose material the first `k` drops changed lies
/// within radius 3 of (fx, fy) and now holds the poured material.
proof fn lemma_pour_only_spawns(w: World, s: WorldState, fx: int, fy: int, m: u8, k: int)
    ensures
        forall|x: int, y: int| #[trigger] (pour(w, s, fx, fy, m, k).px.px)(x, y).mat != (s.px.px)(x, y).mat ==> {
            &&& (pour(w, s, fx, fy, m, k).px.px)(x, y).mat == m
            &&& (x - fx) * (x - fx) + (y - fy) * (y - fy) <= 9
        },
    decreases k,
{
    if k > 0 {
        lemma_pour_only_spawns(w, s, fx, fy, m, k - 1);
        let prev = pour(w, s, fx, fy, m, k - 1);
        let r1 = prev.px.rng;
        let dx = die(r1) % 7 - 3;
        let r2 = xorshift(r1);
        let dy = die(r2) % 7 - 3;
        let s1 = WorldState { px: SimState { rng: xorshift(r2), ..prev.px }, ..prev };
        lemma_spawn_mats(w, s1, fx + dx, fy + dy, m);
        let now = pour(w, s, fx, fy, m, k);
        assert forall|x: int, y: int| #[trigger] (now.px.px)(x, y).mat != (s.px.px)(x, y).mat implies {
            &&& (now.px.px)(x, y).mat == m
            &&& (x - fx) * (x - fx) + (y - fy) * (y - fy) <= 9
        } by {
            if (prev.px.px)(x, y).mat == (s.px.px)(x, y).mat {
                assert((now.px.px)(x, y).mat != (prev.px.px)(x, y).mat);
                assert((s1.px.px)(x, y) == (prev.px.px)(x, y));
                if dx * dx + dy * dy <= 9 && !solid_in(w, s1, fx + dx, fy + dy) {
                    assert((spawn_effect(w, s1, fx + dx, fy + dy, m).px.px)(x, y).mat != (s1.px.px)(x, y).mat);
                }
            } else {
                assert((prev.px.px)(x, y).mat == m);
                if dx * dx + dy * dy <= 9 && !solid_in(w, s1, fx + dx, fy + dy) {
                    if (now.px.px)(x, y).mat != (s1.px.px)(x, y).mat {
                        assert((spawn_effect(w, s1, fx + dx, fy + dy, m).px.px)(x, y).mat != (s1.px.px)(x, y).mat);
                    }
                }
            }
        }
    }
}

/// The sand and water tools pour what they are named for: in a frame of the sand tool
/// every pixel that changed material lies within radius 3 of the cursor and now holds
/// the material named "sand"; with the water tool, the one named "water".
pub proof fn law_pour_tools_pour_their_material(t: ToolCtx, input: InputState, w: World, aim: Aim, busy: bool, x: int, y: int)
    requires
        t.tool == Tool::Sand || t.tool == Tool::Water,
        (tool_outcome(t, input, w, aim, busy).1.px.px)(x, y).mat != (state_of(w).px.px)(x, y).mat,
    ensures
        t.tool == Tool::Sand ==> (tool_outcome(t, input, w, aim, busy).1.px.px)(x, y).mat == id_or_zero(w.mats, "sand"@),
        t.tool == Tool::Water ==> (tool_outcome(t, input, w, aim, busy).1.px.px)(x, y).mat == id_or_zero(w.mats, "water"@),
        (x - aim.free_x) * (x - aim.free_x) + (y - aim.free_y) * (y - aim.free_y) <= 9,
{
    let s0 = state_of(w);
    if t.tool == Tool::Sand {
        lemma_pour_only_spawns(w, s0, aim.free_x as int, aim.free_y as int, id_or_zero(w.mats, "sand"@), 16);
    } else {
        lemma_pour_only_spawns(w, s0, aim.free_x as int, aim.free_y as int, id_or_zero(w.mats, "water"@), 16);
    }
}

} // verus!
