use mge::materials::Materials;
use mge::world::{Pixel, PixelWorld, Rect, SimHooks};

struct NoHooks;

impl SimHooks for NoHooks {
    fn add_emissive(&mut self, _x: i32, _y: i32, _amount: u8) {}
}

fn rect_parts(r: Rect) -> (i32, i32, i32, i32) {
    (r.x, r.y, r.w, r.h)
}

fn dirt_px(mat: u8) -> Pixel {
    Pixel { mat, shade: 128, life: 0, aux: 1 }
}

#[test]
fn floater_collapses_when_support_mined() {
    let mats = Materials::embedded();
    let mut w = PixelWorld::new(42, 512, 256, &mats);
    let dirt = mats.id("dirt").unwrap();
    let debris = mats.id("dirt_debris").unwrap();
    for x in 0..512 {
        for y in 128..130 {
            w.set(x, y, Pixel { mat: dirt, shade: 128, life: 0, aux: 1 });
        }
    }
    for dy in 1..=3 {
        w.set(100, 128 - dy, Pixel { mat: dirt, shade: 128, life: 0, aux: 1 });
    }
    let broken = w.mine_px(100, 128, 999, &mats);
    assert_eq!(broken, Some(dirt));
    for dy in 1..=3 {
        let p = w.get(100, 128 - dy);
        assert_ne!(p.mat, dirt, "column pixel is still dirt, it did not collapse");
        assert_eq!(p.mat, debris, "expected dirt_debris");
    }
    assert_eq!(w.get(300, 128).mat, dirt);
    assert_eq!(w.get(300, 129).mat, dirt);
}

#[test]
fn anchored_terrain_stays() {
    let mats = Materials::embedded();
    let mut w = PixelWorld::new(42, 512, 256, &mats);
    let dirt = mats.id("dirt").unwrap();
    for x in 0..512 {
        for y in 128..130 {
            w.set(x, y, Pixel { mat: dirt, shade: 128, life: 0, aux: 1 });
        }
    }
    let broken = w.mine_px(100, 129, 999, &mats);
    assert_eq!(broken, Some(dirt));
    assert_eq!(w.get(99, 129).mat, dirt);
    assert_eq!(w.get(101, 129).mat, dirt);
    assert_eq!(w.get(100, 128).mat, dirt);
}

#[test]
fn set_then_get_gives_the_pixel() {
    let mats = Materials::embedded();
    let mut w = PixelWorld::new(1, 256, 128, &mats);
    let stone = mats.id("stone").unwrap();
    let p = Pixel { mat: stone, shade: 77, life: 3, aux: 0 };
    w.set(200, 50, p);
    assert_eq!(w.get(200, 50), p);
    assert_eq!(w.get(199, 50).mat, 0);
}

#[test]
fn reads_outside_the_world() {
    let mats = Materials::embedded();
    let w = PixelWorld::new(1, 128, 128, &mats);
    assert_eq!(w.get(-1, 10).mat, 255);
    assert_eq!(w.get(128, 10).mat, 255);
    assert_eq!(w.get(10, 128).mat, 255);
    assert_eq!(w.get(10, -1).mat, 0);
}

#[test]
fn set_outside_changes_nothing() {
    let mats = Materials::embedded();
    let mut w = PixelWorld::new(1, 128, 128, &mats);
    let before = w.export_mat_shade();
    w.set(-5, 3, dirt_px(1));
    w.set(3, 300, dirt_px(1));
    assert_eq!(w.export_mat_shade(), before);
}

#[test]
fn spawn_fills_only_empty_pixels() {
    let mats = Materials::embedded();
    let mut w = PixelWorld::new(1, 128, 128, &mats);
    let sand = mats.id("sand").unwrap();
    let stone = mats.id("stone").unwrap();
    w.set(5, 5, dirt_px(stone));
    w.spawn(5, 5, sand, &mats);
    assert_eq!(w.get(5, 5).mat, stone);
    w.spawn(6, 5, sand, &mats);
    assert_eq!(w.get(6, 5).mat, sand);
}

#[test]
fn clear_px_empties() {
    let mats = Materials::embedded();
    let mut w = PixelWorld::new(1, 128, 128, &mats);
    w.set(7, 7, dirt_px(1));
    w.clear_px(7, 7);
    assert_eq!(w.get(7, 7), Pixel { mat: 0, shade: 0, life: 0, aux: 0 });
}

#[test]
fn export_import_round_trip() {
    let mats = Materials::embedded();
    let mut a = PixelWorld::new(3, 256, 128, &mats);
    let stone = mats.id("stone").unwrap();
    a.set(10, 20, Pixel { mat: stone, shade: 99, life: 4, aux: 1 });
    a.set(255, 127, Pixel { mat: 1, shade: 5, life: 0, aux: 0 });
    let data = a.export_mat_shade();
    assert_eq!(data.len(), 256 * 128 * 2);
    let mut b = PixelWorld::new(9, 256, 128, &mats);
    b.import_mat_shade(&data);
    assert_eq!(b.get(10, 20), Pixel { mat: stone, shade: 99, life: 0, aux: 0 });
    assert_eq!(b.get(255, 127), Pixel { mat: 1, shade: 5, life: 0, aux: 0 });
    assert_eq!(b.export_mat_shade(), data);
}

#[test]
fn dirty_chunks_are_taken_once() {
    let mats = Materials::embedded();
    let mut w = PixelWorld::new(1, 512, 256, &mats);
    assert_eq!(w.chunk_grid(), (4, 2));
    let first = w.take_dirty_chunks();
    assert_eq!(first.len(), 8);
    assert_eq!(first[0].0, 0);
    assert_eq!(rect_parts(first[0].1), (0, 0, 128, 128));
    assert_eq!(first[5].0, 5);
    assert_eq!(rect_parts(first[5].1), (128, 128, 128, 128));
    assert!(w.take_dirty_chunks().is_empty());
    w.set(300, 10, dirt_px(1));
    let again = w.take_dirty_chunks();
    assert_eq!(again.len(), 1);
    assert_eq!(again[0].0, 2);
    assert_eq!(rect_parts(again[0].1), (256, 0, 128, 128));
}

#[test]
fn export_chunk_data_holds_mat_and_shade() {
    let mats = Materials::embedded();
    let mut w = PixelWorld::new(1, 256, 128, &mats);
    w.set(130, 1, Pixel { mat: 3, shade: 44, life: 0, aux: 0 });
    let mut out = Vec::new();
    w.export_chunk_data(1, &mut out);
    assert_eq!(out.len(), 128 * 128 * 2);
    assert_eq!(out[(128 + 2) * 2], 3);
    assert_eq!(out[(128 + 2) * 2 + 1], 44);
}

#[test]
fn chunks_wake_when_touched() {
    let mats = Materials::embedded();
    let mut w = PixelWorld::new(1, 512, 128, &mats);
    assert!(w.chunk_asleep(3, 0));
    w.set(400, 10, dirt_px(1));
    assert!(!w.chunk_asleep(3, 0));
    assert!(!w.chunk_asleep(2, 0));
    assert!(w.chunk_asleep(0, 0));
    assert!(!w.chunk_asleep(99, 99));
}

#[test]
fn sand_falls_one_row_per_step() {
    let mats = Materials::embedded();
    let mut w = PixelWorld::new(5, 128, 128, &mats);
    let sand = mats.id("sand").unwrap();
    w.set(10, 10, Pixel { mat: sand, shade: 100, life: 0, aux: 0 });
    w.step(&mats, &mut NoHooks);
    assert_eq!(w.get(10, 10).mat, 0);
    assert_eq!(w.get(10, 11).mat, sand);
}

#[test]
fn sand_rests_on_stone() {
    let mats = Materials::embedded();
    let mut w = PixelWorld::new(5, 128, 128, &mats);
    let sand = mats.id("sand").unwrap();
    let stone = mats.id("stone").unwrap();
    for x in 0..128 {
        w.set(x, 100, dirt_px(stone));
    }
    w.set(50, 99, Pixel { mat: sand, shade: 100, life: 0, aux: 0 });
    for _ in 0..5 {
        w.step(&mats, &mut NoHooks);
    }
    assert_eq!(w.get(50, 99).mat, sand);
}

#[test]
fn mining_accumulates_damage() {
    let mats = Materials::embedded();
    let mut w = PixelWorld::new(1, 512, 256, &mats);
    let stone = mats.id("stone").unwrap();
    for x in 0..512 {
        for y in 128..130 {
            w.set(x, y, dirt_px(stone));
        }
    }
    assert_eq!(w.mine_px(200, 129, 30, &mats), None);
    assert_eq!(w.get(200, 129).mat, stone);
    assert_eq!(w.mine_px(200, 129, 30, &mats), Some(stone));
    assert_eq!(w.get(200, 129).mat, 0);
    assert_eq!(w.mine_px(200, 129, 30, &mats), None);
}

#[test]
fn bedrock_cannot_be_mined() {
    let mats = Materials::embedded();
    let mut w = PixelWorld::new(1, 128, 128, &mats);
    let bedrock = mats.id("bedrock").unwrap();
    w.set(3, 3, dirt_px(bedrock));
    assert_eq!(w.mine_px(3, 3, 999, &mats), None);
    assert_eq!(w.get(3, 3).mat, bedrock);
}

#[test]
fn resolve_floaters_drops_small_pieces() {
    let mats = Materials::embedded();
    let mut w = PixelWorld::new(1, 128, 128, &mats);
    let stone = mats.id("stone").unwrap();
    let debris = mats.id("stone_debris").unwrap();
    w.set(60, 40, dirt_px(stone));
    w.set(61, 40, dirt_px(stone));
    w.resolve_floaters(&mats, &[(60, 41)]);
    assert_eq!(w.get(60, 40).mat, debris);
    assert_eq!(w.get(61, 40).mat, debris);
}

#[test]
fn pixel_settled_bit() {
    assert!(Pixel { mat: 1, shade: 0, life: 0, aux: 1 }.is_settled());
    assert!(!Pixel { mat: 1, shade: 0, life: 0, aux: 2 }.is_settled());
}

#[test]
fn hard_ore_breaks_once_damage_reaches_its_hardness() {
    let mats = Materials::embedded();
    let ore = mats.id("iron_ore").unwrap();
    assert_eq!(mats.def(ore).hp, 100);
    let mut w = PixelWorld::new(1, 128, 128, &mats);
    w.set(5, 5, Pixel { mat: ore, shade: 0, life: 0, aux: 0 });
    for _ in 0..9 {
        assert_eq!(w.mine_px(5, 5, 10, &mats), None);
    }
    assert_eq!(w.mine_px(5, 5, 10, &mats), Some(ore));
    assert_eq!(w.get(5, 5).mat, 0);
}

#[test]
fn reads_outside_the_grid() {
    let mats = Materials::embedded();
    let w = PixelWorld::new(1, 128, 128, &mats);
    assert_eq!(w.get(-1, 5).mat, 255);
    assert_eq!(w.get(128, 5).mat, 255);
    assert_eq!(w.get(5, 128).mat, 255);
    assert_eq!(w.get(5, -1).mat, 0);
}

#[test]
fn liquids_exchange_places_without_loss() {
    let base = Materials::embedded();
    let water = base.def(base.id("water").unwrap()).clone();
    let mut heavy = water.clone();
    heavy.name = "heavy".to_string();
    heavy.density = 2000;
    let mut light = water.clone();
    light.name = "light".to_string();
    light.density = 1000;
    let stone = base.def(base.id("stone").unwrap()).clone();
    let mats = Materials::from_defs(vec![stone, heavy, light]).unwrap();
    let (s, h, l) = (1u8, 2u8, 3u8);
    let mut w = PixelWorld::new(7, 128, 128, &mats);
    for x in 0..128 {
        w.set(x, 100, Pixel { mat: s, shade: 0, life: 0, aux: 0 });
    }
    for x in 40..60 {
        w.set(x, 99, Pixel { mat: l, shade: 0, life: 0, aux: 0 });
        w.set(x, 98, Pixel { mat: l, shade: 0, life: 0, aux: 0 });
        w.set(x, 97, Pixel { mat: h, shade: 0, life: 0, aux: 0 });
    }
    let count = |w: &PixelWorld, m: u8| {
        let mut n = 0;
        for y in 0..128 {
            for x in 0..128 {
                if w.get(x, y).mat == m {
                    n += 1;
                }
            }
        }
        n
    };
    for _ in 0..60 {
        w.step(&mats, &mut NoHooks);
        assert_eq!(count(&w, h), 20);
        assert_eq!(count(&w, l), 40);
    }
}

#[test]
fn a_lifetime_on_a_static_pixel_is_not_damage() {
    let mats = Materials::embedded();
    let stone = mats.id("stone").unwrap();
    let mut w = PixelWorld::new(1, 128, 128, &mats);
    w.set(5, 5, Pixel { mat: stone, shade: 0, life: 200, aux: 0 });
    assert_eq!(w.mine_px(5, 5, 10, &mats), None);
    assert_eq!(w.get(5, 5).life, 200);
    assert_eq!(w.get(5, 5).aux >> 2, 10);
}

fn sand_and_water_world(seed: u64, mats: &Materials) -> PixelWorld {
    let sand = mats.id("sand").unwrap();
    let water = mats.id("water").unwrap();
    let mut w = PixelWorld::new(seed, 128, 128, mats);
    for x in 20..100 {
        for y in 10..30 {
            w.spawn(x, y, if (x + y) % 3 == 0 { water } else { sand }, mats);
        }
    }
    w
}

#[test]
fn a_step_keeps_every_powder_and_liquid_pixel() {
    let mats = Materials::embedded();
    let sand = mats.id("sand").unwrap();
    let water = mats.id("water").unwrap();
    let mut w = sand_and_water_world(3, &mats);
    let count = |w: &PixelWorld, m: u8| {
        let mut n = 0;
        for y in 0..128 {
            for x in 0..128 {
                if w.get(x, y).mat == m {
                    n += 1;
                }
            }
        }
        n
    };
    let (s0, w0) = (count(&w, sand), count(&w, water));
    assert_eq!(s0 + w0, 80 * 20);
    for _ in 0..80 {
        w.step(&mats, &mut NoHooks);
        assert_eq!(count(&w, sand), s0);
        assert_eq!(count(&w, water), w0);
    }
}

#[test]
fn the_same_seed_gives_the_same_world() {
    let mats = Materials::embedded();
    let mut a = sand_and_water_world(11, &mats);
    let mut b = sand_and_water_world(11, &mats);
    for _ in 0..50 {
        a.step(&mats, &mut NoHooks);
        b.step(&mats, &mut NoHooks);
    }
    assert_eq!(a.export_mat_shade(), b.export_mat_shade());
}

#[test]
fn importing_then_exporting_gives_the_bytes_back() {
    let mats = Materials::embedded();
    let mut w = PixelWorld::new(5, 128, 128, &mats);
    let data: Vec<u8> = (0..128 * 128 * 2).map(|i: usize| ((i * 7 + i / 3) % 251) as u8).collect();
    w.import_mat_shade(&data);
    assert_eq!(w.export_mat_shade(), data);
    assert_eq!(w.get(3, 0).life, 0);
    assert_eq!(w.get(3, 0).aux, 0);
}
