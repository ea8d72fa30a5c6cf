use mge::light::LightMap;
use mge::materials::Materials;
use mge::world::{Pixel, PixelWorld, Rect, SimHooks};

fn world(w: i32, h: i32) -> (PixelWorld, Materials) {
    let mats = Materials::embedded();
    let pw = PixelWorld::new(1, w, h, &mats);
    (pw, mats)
}

#[test]
fn new_map_is_dark() {
    let lm = LightMap::new(3, 2);
    assert_eq!(lm.sky, vec![0u8; 6]);
    assert_eq!(lm.block, vec![0u8; 6]);
    assert!(lm.emissive.is_empty());
    assert!(lm.player_glow.is_none());
}

#[test]
fn open_sky_lights_everything() {
    let (pw, mats) = world(128, 128);
    let mut lm = LightMap::new(32, 32);
    lm.relight(&pw, &mats, &[]);
    assert!(lm.sky.iter().all(|&v| v == 255));
    assert!(lm.block.iter().all(|&v| v == 0));
}

#[test]
fn torch_light_fades_with_distance() {
    let (mut pw, mats) = world(128, 128);
    let stone = mats.id("stone").unwrap();
    for x in 0..128 {
        for y in 0..4 {
            pw.set(x, y, Pixel { mat: stone, shade: 128, life: 0, aux: 0 });
        }
    }
    let mut lm = LightMap::new(32, 32);
    lm.relight(&pw, &mats, &[(65, 66)]);
    assert!(lm.sky.iter().all(|&v| v == 0));
    let at = |x: usize, y: usize| lm.block[y * 32 + x];
    assert_eq!(at(16, 16), 255);
    assert_eq!(at(17, 16), 248);
    assert_eq!(at(16, 18), 241);
    assert_eq!(at(17, 17), 245);
    assert_eq!(at(15, 15), 245);
    assert_eq!(at(16, 0), 255 - 24 - 7 * 15);
}

#[test]
fn sky_stops_under_a_roof_and_spreads_sideways() {
    let (mut pw, mats) = world(128, 128);
    let stone = mats.id("stone").unwrap();
    for x in 0..64 {
        for y in 40..44 {
            pw.set(x, y, Pixel { mat: stone, shade: 128, life: 0, aux: 0 });
        }
    }
    let mut lm = LightMap::new(32, 32);
    lm.relight(&pw, &mats, &[]);
    assert_eq!(lm.sky[5 * 32 + 3], 255);
    assert_eq!(lm.sky[20 * 32 + 20], 255);
    assert_eq!(lm.sky[20 * 32 + 15], 248);
    assert!(lm.sky[20 * 32 + 3] < 255);
}

#[test]
fn build_rg_interleaves_channels() {
    let mut lm = LightMap::new(2, 2);
    lm.sky[1] = 9;
    lm.block[1] = 4;
    lm.block[3] = 7;
    assert_eq!(lm.build_rg(), vec![0, 0, 9, 4, 0, 0, 0, 7]);
}

#[test]
fn build_rg_region_cuts_a_box() {
    let mut lm = LightMap::new(4, 3);
    for i in 0..12 {
        lm.sky[i] = i as u8;
        lm.block[i] = 100 + i as u8;
    }
    let (x, y, w, h, data) = lm.build_rg_region((1, 1, 2, 2));
    assert_eq!((x, y, w, h), (1, 1, 2, 2));
    assert_eq!(data, vec![5, 105, 6, 106, 9, 109, 10, 110]);
}

#[test]
fn glow_decays_and_fades_out() {
    let mut lm = LightMap::new(4, 4);
    lm.emissive = vec![((1, 1), 100), ((2, 2), 30)];
    lm.decay_emissive();
    assert_eq!(lm.emissive, vec![((1, 1), 75)]);
    lm.decay_emissive();
    assert_eq!(lm.emissive, vec![((1, 1), 56)]);
}

#[test]
fn glow_adds_per_light_cell() {
    let mut lm = LightMap::new(4, 4);
    lm.add_emissive(9, 9, 50);
    lm.add_emissive(10, 11, 20);
    lm.add_emissive(1, 1, 5);
    assert_eq!(lm.emissive, vec![((2, 2), 70), ((0, 0), 5)]);
}

#[test]
fn pending_regions_merge_when_close() {
    let (pw, mats) = world(4096, 128);
    let mut lm = LightMap::new(1024, 32);
    lm.relight(&pw, &mats, &[]);
    lm.mark_px_rect(&Rect { x: 0, y: 0, w: 4, h: 4 });
    lm.mark_px_rect(&Rect { x: 40, y: 0, w: 4, h: 4 });
    lm.mark_px_rect(&Rect { x: 2000, y: 0, w: 4, h: 4 });
    let done = lm.relight_regions(&pw, &mats, &[]);
    assert_eq!(done, vec![(460, 0, 540, 31), (0, 0, 50, 31)]);
    assert!(lm.relight_regions(&pw, &mats, &[]).is_empty());
    assert!(lm.sky.iter().all(|&v| v == 255));
}

#[test]
fn at_most_three_regions_per_pass() {
    let (pw, mats) = world(4096, 128);
    let mut lm = LightMap::new(1024, 32);
    for k in 0..5 {
        lm.mark_px_rect(&Rect { x: k * 800, y: 0, w: 4, h: 4 });
    }
    let first = lm.relight_regions(&pw, &mats, &[]);
    assert_eq!(first.len(), 3);
    assert_eq!(first[0], (760, 0, 840, 31));
    let second = lm.relight_regions(&pw, &mats, &[]);
    assert_eq!(second, vec![(160, 0, 240, 31), (0, 0, 40, 31)]);
}

#[test]
fn glow_change_recomputes_block_light() {
    let (pw, mats) = world(128, 128);
    let mut lm = LightMap::new(32, 32);
    lm.relight(&pw, &mats, &[]);
    lm.player_glow = Some((10, 10));
    lm.mark_glow();
    let done = lm.relight_regions(&pw, &mats, &[]);
    assert_eq!(done, vec![(0, 0, 31, 31)]);
    assert_eq!(lm.block[10 * 32 + 10], 72);
    assert_eq!(lm.block[10 * 32 + 11], 65);
    lm.mark_glow();
    assert!(lm.relight_regions(&pw, &mats, &[]).is_empty());
}

#[test]
fn glow_lights_the_cell_its_key_names() {
    let (pw, mats) = world(128, 128);
    let mut lm = LightMap::new(32, 32);
    lm.emissive.push(((16, 16), 255));
    lm.relight(&pw, &mats, &[]);
    assert_eq!(lm.block[16 * 32 + 16], 255);
}

#[test]
fn empty_map_is_allowed_and_relights_to_nothing() {
    let (pw, mats) = world(128, 128);
    let mut lm = LightMap::new(0, 0);
    assert_eq!((lm.cw, lm.ch), (0, 0));
    assert!(lm.sky.is_empty() && lm.block.is_empty());
    assert!(lm.emissive.is_empty() && lm.player_glow.is_none() && lm.moving_lights.is_empty());
    lm.relight(&pw, &mats, &[(5, 5)]);
    assert!(lm.sky.is_empty() && lm.block.is_empty());
    let lm2 = LightMap::new(7, 0);
    assert!(lm2.sky.is_empty());
}
