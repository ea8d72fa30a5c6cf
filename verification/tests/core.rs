use mge::events::Events;
use mge::materials::{Kind, MaterialDef, Materials};
use mge::rng::Rng;

#[test]
fn rng_first_draw_is_fixed() {
    let mut r = Rng::new(42);
    assert_eq!(r.next_u64(), 14100574548354140678);
    assert_eq!(r.next_u32(), 3589475362);
}

#[test]
fn rng_zero_seed_uses_golden() {
    let mut a = Rng::new(0);
    let mut b = Rng::new(0x9E37_79B9_7F4A_7C15);
    assert_eq!(a.next_u64(), b.next_u64());
}

#[test]
fn rng_same_seed_same_stream() {
    let mut a = Rng::new(123);
    let mut b = Rng::new(123);
    for _ in 0..100 {
        assert_eq!(a.next_u64(), b.next_u64());
    }
}

#[test]
fn rng_range_stays_inside() {
    let mut r = Rng::new(7);
    assert_eq!(r.range_i32(-5, 5), -3);
    for _ in 0..1000 {
        let v = r.range_i32(-3, 9);
        assert!((-3..=9).contains(&v));
    }
    assert_eq!(r.range_i32(4, 4), 4);
    assert_eq!(r.range_i32(9, 2), 9);
}

#[test]
fn rng_fork_is_seeded_from_next_draw() {
    let mut a = Rng::new(5);
    let mut b = Rng::new(5);
    let mut f = a.fork();
    let seed = b.next_u64();
    let mut g = Rng::new(seed);
    assert_eq!(f.next_u64(), g.next_u64());
    assert_eq!(a.next_u64(), b.next_u64());
}

#[test]
fn rng_unit_bits_and_chance() {
    let mut a = Rng::new(11);
    let mut b = Rng::new(11);
    let u = a.unit_bits();
    assert!(u < 1 << 24);
    assert_eq!(u as u64, b.next_u64() >> 40);
    let mut c = Rng::new(11);
    assert!(!c.chance_below(0));
    let mut d = Rng::new(11);
    assert!(d.chance_below(1 << 24));
}

#[test]
fn rng_from_entropy_runs() {
    let mut r = Rng::from_entropy();
    let _ = r.next_u64();
}

#[test]
fn events_drain_in_order() {
    let mut e: Events<u32> = Events::new();
    assert!(e.is_empty());
    e.send(1);
    e.send(2);
    assert!(!e.is_empty());
    assert_eq!(e.drain(), vec![1, 2]);
    assert!(e.is_empty());
    assert!(e.drain().is_empty());
}

#[test]
fn embedded_materials_have_names() {
    let m = Materials::embedded();
    assert_eq!(m.len(), 28);
    assert!(!m.is_empty());
    assert_eq!(m.id("dirt"), Some(1));
    assert_eq!(m.id("wall_sand"), Some(27));
    assert_eq!(m.id("nope"), None);
    assert_eq!(m.def(14).name, "sand");
    assert_eq!(m.def(14).kind, Kind::Powder);
    assert_eq!(m.def(200).name, "empty");
}

fn def(name: &str) -> MaterialDef {
    let mut d = Materials::embedded().def(1).clone();
    d.name = name.to_string();
    d
}

#[test]
fn from_defs_puts_empty_first() {
    let m = Materials::from_defs(vec![def("a"), def("b")]).unwrap();
    assert_eq!(m.len(), 3);
    assert_eq!(m.id("empty"), Some(0));
    assert_eq!(m.id("b"), Some(2));
}

#[test]
fn from_defs_refuses_duplicates() {
    let r = Materials::from_defs(vec![def("a"), def("b"), def("a")]);
    assert_eq!(r.err(), Some("duplicate material name: a".to_string()));
}

#[test]
fn from_defs_refuses_more_than_254_materials() {
    let many: Vec<MaterialDef> = (0..255).map(|i| def(&format!("m{i}"))).collect();
    assert_eq!(Materials::from_defs(many).err(), Some("too many materials".to_string()));
    let most: Vec<MaterialDef> = (0..254).map(|i| def(&format!("m{i}"))).collect();
    let m = Materials::from_defs(most).unwrap();
    assert_eq!(m.len(), 255);
    assert_eq!(m.id("m253"), Some(254));
}

#[test]
fn range_takes_the_whole_i32_span() {
    let mut r = Rng::new(3);
    for _ in 0..100 {
        let _ = r.range_i32(i32::MIN, i32::MAX);
    }
    let mut r = Rng::new(3);
    for _ in 0..100 {
        let v = r.range_i32(-5, 5);
        assert!((-5..=5).contains(&v));
    }
}

#[test]
fn entropy_seed_mixes_the_reading() {
    let mut a = Rng::from_reading(Some(1234));
    let mut b = Rng::new(1234 ^ mge::rng::GOLDEN);
    assert_eq!(a.next_u64(), b.next_u64());
    let mut c = Rng::from_reading(None);
    let mut d = Rng::new(mge::rng::CLOCK_FALLBACK ^ mge::rng::GOLDEN);
    assert_eq!(c.next_u64(), d.next_u64());
}

#[test]
fn rng_draws_are_never_zero() {
    for seed in [0u64, 1, 42, u64::MAX] {
        let mut r = Rng::new(seed);
        for _ in 0..1000 {
            assert_ne!(r.next_u64(), 0);
        }
        let mut f = r.fork();
        assert_ne!(f.next_u64(), 0);
    }
}

#[test]
fn rng_copies_continue_the_same_stream() {
    let mut a = Rng::new(9);
    a.next_u64();
    let mut b = a;
    assert_eq!(a.next_u64(), b.next_u64());
}
