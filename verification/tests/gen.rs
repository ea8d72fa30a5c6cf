use mge::gen::{clear, put, put_if_empty, put_shade_if_empty};
use mge::materials::Materials;
use mge::rng::Rng;
use mge::world::{Pixel, PixelWorld};

#[test]
fn put_jitters_around_127() {
    let mats = Materials::embedded();
    let mut w = PixelWorld::new(1, 128, 128, &mats);
    let mut rng = Rng::new(3);
    let mut twin = Rng::new(3);
    put(&mut w, &mats, &mut rng, 4, 5, 1);
    let p = w.get(4, 5);
    assert_eq!(p.mat, 1);
    assert_eq!(p.shade as i32, 127 + twin.range_i32(-10, 10));
    assert_eq!((p.life, p.aux), (0, 0));
}

#[test]
fn put_without_jitter_draws_nothing() {
    let mats = Materials::embedded();
    let torch = mats.id("torch").unwrap();
    let mut w = PixelWorld::new(1, 128, 128, &mats);
    let mut rng = Rng::new(3);
    put(&mut w, &mats, &mut rng, 4, 5, torch);
    assert_eq!(w.get(4, 5).shade, 127);
    let mut twin = Rng::new(3);
    assert_eq!(rng.next_u64(), twin.next_u64());
}

#[test]
fn put_ignores_empty_material_and_outside() {
    let mats = Materials::embedded();
    let mut w = PixelWorld::new(1, 128, 128, &mats);
    let mut rng = Rng::new(3);
    put(&mut w, &mats, &mut rng, 4, 5, 0);
    put(&mut w, &mats, &mut rng, -1, 5, 1);
    put(&mut w, &mats, &mut rng, 4, 128, 1);
    assert_eq!(w.get(4, 5).mat, 0);
    let mut twin = Rng::new(3);
    assert_eq!(rng.next_u64(), twin.next_u64());
}

#[test]
fn put_if_empty_keeps_what_is_there() {
    let mats = Materials::embedded();
    let mut w = PixelWorld::new(1, 128, 128, &mats);
    let mut rng = Rng::new(3);
    let stone = mats.id("stone").unwrap();
    let water = mats.id("water").unwrap();
    w.set(8, 8, Pixel { mat: stone, shade: 1, life: 0, aux: 0 });
    put_if_empty(&mut w, &mats, &mut rng, 8, 8, water);
    assert_eq!(w.get(8, 8).mat, stone);
    put_if_empty(&mut w, &mats, &mut rng, 9, 8, water);
    assert_eq!(w.get(9, 8).mat, water);
}

#[test]
fn put_shade_if_empty_clamps_brightness() {
    let mats = Materials::embedded();
    let mut w = PixelWorld::new(1, 128, 128, &mats);
    let leaf = mats.id("leaf").unwrap();
    put_shade_if_empty(&mut w, 1, 1, leaf, 300);
    put_shade_if_empty(&mut w, 2, 1, leaf, -4);
    put_shade_if_empty(&mut w, 3, 1, leaf, 118);
    assert_eq!(w.get(1, 1), Pixel { mat: leaf, shade: 255, life: 0, aux: 0 });
    assert_eq!(w.get(2, 1).shade, 0);
    assert_eq!(w.get(3, 1).shade, 118);
    put_shade_if_empty(&mut w, 3, 1, 1, 50);
    assert_eq!(w.get(3, 1).mat, leaf);
}

#[test]
fn clear_empties_a_pixel() {
    let mats = Materials::embedded();
    let mut w = PixelWorld::new(1, 128, 128, &mats);
    w.set(8, 8, Pixel { mat: 3, shade: 1, life: 0, aux: 0 });
    clear(&mut w, 8, 8);
    assert_eq!(w.get(8, 8).mat, 0);
}
