use mge::game::{Tool, ToolCtx};
use mge::gen::GenResult;
use mge::input::{ElementState, InputState, MouseButton};
use mge::materials::Materials;
use mge::scene::World;
use mge::tools::{update, Aim};
use mge::world::{Pixel, PixelWorld};

fn world_with(mat: &str, x0: i32, x1: i32, y0: i32, y1: i32) -> World {
    let mats = Materials::embedded();
    let mut pixels = PixelWorld::new(3, 256, 256, &mats);
    let m = mats.id(mat).unwrap();
    let stone = mats.id("stone").unwrap();
    for x in 0..256 {
        pixels.set(x, 249, Pixel { mat: stone, shade: 127, life: 0, aux: 0 });
    }
    for y in y0..=y1 {
        for x in x0..=x1 {
            pixels.set(x, y, Pixel { mat: m, shade: 127, life: 0, aux: 0 });
        }
    }
    World::new(1, pixels, mats, GenResult { spawn_x: 0, spawn_y: 0 })
}

fn clicked() -> InputState {
    let mut input = InputState::new();
    input.mouse_event(MouseButton::Left, ElementState::Pressed);
    input
}

fn aim_at(x: i32, y: i32) -> Aim {
    Aim { in_reach: true, cx: (x >> 1) << 1, cy: (y >> 1) << 1, free_x: x, free_y: y, body: (200, 210, 200, 230) }
}

fn count(w: &World, mat: &str) -> usize {
    let m = w.mats.id(mat).unwrap();
    let mut n = 0;
    for y in 0..256 {
        for x in 0..256 {
            if w.pixels.get(x, y).mat == m {
                n += 1;
            }
        }
    }
    n
}

#[test]
fn sword_swings_on_click_and_cooldowns_run_down() {
    let mut w = world_with("leaf", 10, 12, 10, 12);
    let mut t = ToolCtx { tool: Tool::Sword, place_cooldown: 3, scoop_cooldown: 0 };
    assert_eq!(update(&mut t, &clicked(), &mut w, &aim_at(50, 50), false), (true, false));
    assert_eq!(t.place_cooldown, 2);
    assert_eq!(update(&mut t, &InputState::new(), &mut w, &aim_at(50, 50), false), (false, false));
    assert_eq!(t.place_cooldown, 1);
}

#[test]
fn pickaxe_mines_a_round_brush() {
    let mut w = world_with("leaf", 80, 120, 80, 120);
    let leaves = count(&w, "leaf");
    let mut t = ToolCtx { tool: Tool::Pickaxe, place_cooldown: 0, scoop_cooldown: 9 };
    assert_eq!(update(&mut t, &clicked(), &mut w, &aim_at(100, 100), false), (false, false));
    assert_eq!(count(&w, "leaf"), leaves);
    let (_, shake) = update(&mut t, &clicked(), &mut w, &aim_at(100, 100), false);
    assert!(shake);
    let broken = leaves - count(&w, "leaf");
    assert!(broken > 0 && broken <= 26);
    assert_eq!(w.pixels.get(100, 94).mat, 0);
    assert_eq!(w.pixels.get(100, 100).mat, w.mats.id("leaf").unwrap());
    assert!(w.terrain_dirty);
    // out of reach or busy: nothing happens
    let before = count(&w, "leaf");
    let mut far = aim_at(90, 90);
    far.in_reach = false;
    update(&mut t, &clicked(), &mut w, &far, false);
    update(&mut t, &clicked(), &mut w, &aim_at(90, 90), true);
    assert_eq!(count(&w, "leaf"), before);
}

#[test]
fn pickaxe_scoops_loose_pixels_when_ready() {
    let mut w = world_with("sand", 38, 46, 38, 46);
    let mut t = ToolCtx { tool: Tool::Pickaxe, place_cooldown: 0, scoop_cooldown: 1 };
    update(&mut t, &clicked(), &mut w, &aim_at(42, 42), false);
    assert_eq!(t.scoop_cooldown, 5);
    assert_eq!(w.pixels.get(42, 42).mat, 0);
    assert_eq!(w.pixels.get(40, 40).mat, 0);
    assert_eq!(w.pixels.get(39, 39).mat, w.mats.id("sand").unwrap());
}

#[test]
fn blocks_fill_empty_cells_but_not_the_player() {
    let mut w = world_with("leaf", 0, 0, 0, 0);
    let stone_before = count(&w, "stone");
    let mut t = ToolCtx { tool: Tool::Block, place_cooldown: 0, scoop_cooldown: 0 };
    w.terrain_dirty = false;
    update(&mut t, &clicked(), &mut w, &aim_at(60, 60), false);
    assert_eq!(count(&w, "stone"), stone_before + 16);
    assert_eq!(t.place_cooldown, 6);
    assert!(w.terrain_dirty);
    // cooling down: nothing placed
    update(&mut t, &clicked(), &mut w, &aim_at(120, 60), false);
    assert_eq!(count(&w, "stone"), stone_before + 16);
    // the player's body is protected
    let mut t2 = ToolCtx { tool: Tool::Block, place_cooldown: 0, scoop_cooldown: 0 };
    let mut aim = aim_at(160, 160);
    aim.body = (158, 159, 158, 161);
    update(&mut t2, &clicked(), &mut w, &aim, false);
    assert_eq!(count(&w, "stone"), stone_before + 16 + 8);
    assert_eq!(w.pixels.get(158, 159).mat, 0);
}

#[test]
fn torch_tool_places_a_supported_torch() {
    let mut w = world_with("leaf", 0, 0, 0, 0);
    let mut t = ToolCtx { tool: Tool::Torch, place_cooldown: 0, scoop_cooldown: 0 };
    update(&mut t, &clicked(), &mut w, &aim_at(30, 100), false);
    assert!(w.torches.is_empty());
    assert_eq!(t.place_cooldown, 0);
    update(&mut t, &clicked(), &mut w, &aim_at(30, 248), false);
    assert_eq!(w.torches, vec![(30, 248)]);
    assert_eq!(t.place_cooldown, 8);
}

#[test]
fn pouring_drops_some_water_near_the_cursor() {
    let mut w = world_with("leaf", 0, 0, 0, 0);
    let mut t = ToolCtx { tool: Tool::Water, place_cooldown: 0, scoop_cooldown: 0 };
    update(&mut t, &clicked(), &mut w, &aim_at(100, 100), false);
    let n = count(&w, "water");
    assert!(n > 0 && n <= 16);
    let mut t2 = ToolCtx { tool: Tool::Sand, place_cooldown: 0, scoop_cooldown: 0 };
    update(&mut t2, &InputState::new(), &mut w, &aim_at(100, 100), false);
    assert_eq!(count(&w, "sand"), 0);
}

#[test]
fn hot_bar_slots_map_to_tools() {
    assert_eq!(Tool::from_slot(1), Tool::Sword);
    assert_eq!(Tool::from_slot(2), Tool::Pickaxe);
    assert_eq!(Tool::from_slot(3), Tool::Block);
    assert_eq!(Tool::from_slot(4), Tool::Torch);
    assert_eq!(Tool::from_slot(5), Tool::Water);
    assert_eq!(Tool::from_slot(6), Tool::Sand);
    assert_eq!(Tool::from_slot(7), Tool::Bow);
    assert_eq!(Tool::from_slot(8), Tool::Fireball);
    assert_eq!(Tool::from_slot(0), Tool::Fireball);
}
