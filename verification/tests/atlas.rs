use mge::atlas::{AtlasBuilder, AtlasSpace, Placement};

fn image(w: u32, h: u32, seed: u8) -> Vec<u8> {
    (0..w * h * 4).map(|i| (i as u8).wrapping_mul(7).wrapping_add(seed)).collect()
}

fn overlap(a: &Placement, b: &Placement) -> bool {
    a.x < b.x + b.w && b.x < a.x + a.w && a.y < b.y + b.h && b.y < a.y + a.h
}

#[test]
fn shelf_packing_positions() {
    let mut b = AtlasBuilder::new(64);
    assert_eq!(b.cursor(), ((1, 1), 0));
    let a = b.add("a", &image(10, 5, 1), 10, 5);
    assert_eq!(a, Placement { x: 1, y: 1, w: 10, h: 5 });
    assert_eq!(b.cursor(), ((12, 1), 6));
    let c = b.add("b", &image(50, 3, 2), 50, 3);
    assert_eq!(c, Placement { x: 12, y: 1, w: 50, h: 3 });
    assert_eq!(b.cursor(), ((63, 1), 6));
    let d = b.add("c", &image(5, 5, 3), 5, 5);
    assert_eq!(d, Placement { x: 1, y: 7, w: 5, h: 5 });
    assert_eq!(b.cursor(), ((7, 7), 6));
    assert_eq!(b.get("b"), Some(c));
    assert_eq!(b.get("zz"), None);
    let e = b.add("a", &image(2, 2, 4), 2, 2);
    assert_eq!(b.get("a"), Some(e));
}

#[test]
fn pixels_are_copied_in_place() {
    let mut b = AtlasBuilder::new(32);
    let img = image(3, 2, 9);
    let p = b.add("x", &img, 3, 2);
    let (bytes, size, entries) = b.flatten();
    assert_eq!(size, 32);
    assert_eq!(entries.len(), 1);
    assert_eq!(bytes.len(), 32 * 32 * 4);
    for y in 0..2u32 {
        for x in 0..3u32 {
            for c in 0..4u32 {
                let at = (((p.y + y) * 32 + p.x + x) * 4 + c) as usize;
                let from = ((y * 3 + x) * 4 + c) as usize;
                assert_eq!(bytes[at], img[from]);
            }
        }
    }
    assert_eq!(bytes[0], 0);
    assert_eq!(bytes[((5 * 32 + 5) * 4) as usize], 0);
}

#[test]
fn placements_never_overlap() {
    let mut b = AtlasBuilder::new(128);
    let mut placed = Vec::new();
    let sizes = [(30, 10), (40, 20), (50, 5), (10, 30), (60, 8), (7, 7), (20, 12), (90, 3)];
    for (i, (w, h)) in sizes.iter().enumerate() {
        placed.push(b.add(&format!("img{i}"), &image(*w, *h, i as u8), *w, *h));
    }
    for i in 0..placed.len() {
        assert!(placed[i].x + placed[i].w <= 128 && placed[i].y + placed[i].h <= 128);
        for j in 0..i {
            assert!(!overlap(&placed[i], &placed[j]));
        }
    }
}

#[test]
fn runtime_allocation_continues_after_packing() {
    let mut space = AtlasSpace::new();
    assert_eq!(space.atlas_size(), 0);
    assert_eq!(space.atlas_alloc(4, 4), None);
    let mut b = AtlasBuilder::new(32);
    let a = b.add("a", &image(10, 6, 0), 10, 6);
    let (bytes, size, entries) = space.adopt(b);
    assert_eq!(size, 32);
    assert_eq!(bytes.len(), 32 * 32 * 4);
    assert_eq!(entries.len(), 1);
    assert_eq!(space.atlas_size(), 32);
    let (x, y) = space.atlas_alloc(15, 3).unwrap();
    assert_eq!((x, y), (12, 1));
    let p = Placement { x, y, w: 15, h: 3 };
    assert!(!overlap(&a, &p));
    let (x2, y2) = space.atlas_alloc(10, 10).unwrap();
    assert_eq!((x2, y2), (1, 8));
    assert_eq!(space.atlas_alloc(10, 30), None);
    let (x3, y3) = space.atlas_alloc(10, 10).unwrap();
    assert_eq!((x3, y3), (12, 8));
}

#[test]
fn flatten_keeps_the_last_placement_of_a_name() {
    let mut b = AtlasBuilder::new(32);
    let first = b.add("a", &image(2, 2, 1), 2, 2);
    let other = b.add("b", &image(2, 2, 2), 2, 2);
    let second = b.add("a", &image(3, 3, 3), 3, 3);
    assert_ne!(first, second);
    let (_, _, entries) = b.flatten();
    assert_eq!(entries.len(), 2);
    assert_eq!(entries[0].0, "b");
    assert_eq!(entries[0].1, other);
    assert_eq!(entries[1].0, "a");
    assert_eq!(entries[1].1, second);
}
