use mge::gen::GenResult;
use mge::materials::Materials;
use mge::scene::{solid_in_box, surface_y, World, WorldEvent};
use mge::world::{Pixel, PixelWorld};

fn stone_floor_world() -> World {
    let mats = Materials::embedded();
    let mut pixels = PixelWorld::new(9, 256, 256, &mats);
    let stone = mats.id("stone").unwrap();
    for x in 0..256 {
        pixels.set(x, 200, Pixel { mat: stone, shade: 127, life: 0, aux: 0 });
    }
    World::new(5, pixels, mats, GenResult { spawn_x: 40, spawn_y: 190 })
}

#[test]
fn new_world_starts_dirty_and_dark() {
    let w = stone_floor_world();
    assert_eq!(w.torch_mat, w.mats.id("torch").unwrap());
    assert!(w.torches.is_empty());
    assert!(w.terrain_dirty);
    assert!(!w.light_dirty);
    assert_eq!(w.light_frame, 0);
    assert_eq!((w.spawn_x, w.spawn_y), (40, 190));
    assert!(w.solid_px(10, 200));
    assert!(!w.solid_px(10, 199));
    assert!(!w.platform_px(10, 200));
    assert!(!w.climbable_px(10, 200));
}

#[test]
fn torch_needs_an_empty_supported_pixel() {
    let mut w = stone_floor_world();
    assert!(!w.place_torch(10, 150));
    assert!(!w.place_torch(10, 200));
    assert!(w.place_torch(10, 199));
    assert_eq!(w.torches, vec![(10, 199)]);
    assert_eq!(w.pixels.get(10, 199).mat, w.torch_mat);
    assert!(!w.place_torch(10, 199));
    assert!(w.place_torch(11, 201));
    assert_eq!(w.torches.len(), 2);
}

#[test]
fn mining_a_torch_removes_its_light() {
    let mut w = stone_floor_world();
    assert!(w.place_torch(20, 199));
    assert!(w.place_torch(21, 199));
    w.terrain_dirty = false;
    assert!(!w.mine_px(20, 150, 100));
    assert!(!w.terrain_dirty);
    assert!(w.mine_px(20, 199, 100));
    assert_eq!(w.torches, vec![(21, 199)]);
    assert!(w.terrain_dirty);
    assert_eq!(w.pixels.get(20, 199).mat, 0);
}

#[test]
fn mining_stone_takes_several_blows() {
    let mut w = stone_floor_world();
    assert!(!w.mine_px(30, 200, 20));
    assert!(!w.mine_px(30, 200, 20));
    assert!(w.mine_px(30, 200, 20));
    assert!(!w.solid_px(30, 200) || w.pixels.get(30, 200).mat != w.mats.id("stone").unwrap());
}

#[test]
fn update_relights_after_terrain_change() {
    let mut w = stone_floor_world();
    w.update();
    assert_eq!(w.light_frame, 1);
    assert!(!w.terrain_dirty);
    assert!(w.take_light_dirty());
    assert!(!w.take_light_dirty());
    for _ in 0..8 {
        w.update();
    }
    assert!(!w.light_dirty);
    w.update();
    assert_eq!(w.light_frame, 10);
    assert!(w.light_dirty);
    w.mark_terrain_dirty();
    w.update();
    assert!(!w.terrain_dirty);
}

#[test]
fn world_events_queue() {
    let mut w = stone_floor_world();
    w.events.send(WorldEvent::Explosion { x: 3, y: 4 });
    assert_eq!(w.events.drain(), vec![WorldEvent::Explosion { x: 3, y: 4 }]);
}

#[test]
fn surface_is_first_solid_row() {
    let mut w = stone_floor_world();
    assert_eq!(surface_y(&w, 10), 200);
    let stone = w.mats.id("stone").unwrap();
    w.pixels.set(10, 120, Pixel { mat: stone, shade: 127, life: 0, aux: 0 });
    assert_eq!(surface_y(&w, 10), 120);
    assert_eq!(surface_y(&w, 11), 200);
}

#[test]
fn surface_of_empty_column_is_mid_height() {
    let mut w = stone_floor_world();
    w.pixels.clear_px(30, 200);
    assert_eq!(surface_y(&w, 30), 128);
}

#[test]
fn box_touches_floor_only_when_it_reaches_it() {
    let w = stone_floor_world();
    assert!(!solid_in_box(&w, 5, 180, 15, 199));
    assert!(solid_in_box(&w, 5, 180, 15, 200));
    assert!(!solid_in_box(&w, 15, 200, 5, 200));
    assert!(solid_in_box(&w, 7, 200, 7, 200));
}

#[test]
fn moving_lava_glows_into_its_light_cell() {
    let mut w = stone_floor_world();
    let lava = w.mats.id("lava").unwrap();
    w.pixels.set(50, 199, Pixel { mat: lava, shade: 127, life: 0, aux: 0 });
    assert!(w.light.emissive.is_empty());
    w.update();
    assert!(w.light.emissive.iter().any(|&(key, v)| key == (12, 49) && v >= 150));
    assert!(w.light.emissive.iter().all(|&(_, v)| v >= 24));
}
