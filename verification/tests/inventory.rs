use mge::game::{key, loot_table, slot_label, Elite, Rarity, Recipe, Skills, Slot, Stat, SKILL_MAX_LV};
use mge::inventory::{
    Affix, AffixDef, Inventory, Item, ItemDb, ItemDef, LootDraw, LootEntry, BAG_SIZE, EQUIP_SLOTS,
};
use mge::rng::Rng;

fn def(id: &str, slot: Slot, stack: u16) -> ItemDef {
    ItemDef { id: id.to_string(), name: id.to_string(), slot, stack, lvl: 1, value: 0 }
}

fn db() -> ItemDb {
    ItemDb {
        defs: vec![
            def("wood", Slot::Trinket, 99),
            def("stone", Slot::Trinket, 99),
            def("torch", Slot::Trinket, 50),
            def("potion_hp", Slot::Trinket, 10),
            def("sword_iron", Slot::Weapon, 1),
            def("sword_gold", Slot::Weapon, 1),
            def("helm", Slot::Head, 1),
        ],
        affixes: vec![],
        tables: vec![],
        recipes: vec![
            Recipe { out: "torch".to_string(), count: 4, cost: vec![("wood".to_string(), 2)] },
            Recipe {
                out: "sword_iron".to_string(),
                count: 1,
                cost: vec![("wood".to_string(), 3), ("stone".to_string(), 5)],
            },
        ],
    }
}

fn item(id: &str, count: u16) -> Item {
    Item { def: id.to_string(), count, affixes: vec![] }
}

fn filled_cells(inv: &Inventory) -> usize {
    inv.bag.iter().filter(|c| c.is_some()).count()
}

#[test]
fn new_inventory_is_empty_at_level_one() {
    let inv = Inventory::new();
    assert_eq!(inv.bag.len(), BAG_SIZE);
    assert_eq!(inv.equip.len(), EQUIP_SLOTS);
    assert!(inv.bag.iter().all(|c| c.is_none()));
    assert_eq!(inv.level, 1);
    assert_eq!(inv.xp, 0);
    assert_eq!(inv.gold, 0);
    assert_eq!(inv.points, 0);
}

#[test]
fn stackable_items_merge_into_first_stack() {
    let db = db();
    let mut inv = Inventory::new();
    assert!(inv.add(item("wood", 5), &db));
    assert!(inv.add(item("stone", 2), &db));
    assert!(inv.add(item("wood", 3), &db));
    assert_eq!(inv.count_of("wood"), 8);
    assert_eq!(inv.count_of("stone"), 2);
    assert_eq!(filled_cells(&inv), 2);
    assert_eq!(inv.bag[0].as_ref().unwrap().count, 8);
}

#[test]
fn unstackable_items_take_separate_cells() {
    let db = db();
    let mut inv = Inventory::new();
    assert!(inv.add(item("sword_iron", 1), &db));
    assert!(inv.add(item("sword_iron", 1), &db));
    assert_eq!(filled_cells(&inv), 2);
    assert_eq!(inv.count_of("sword_iron"), 2);
}

#[test]
fn full_bag_refuses_new_items_but_still_stacks() {
    let db = db();
    let mut inv = Inventory::new();
    assert!(inv.add(item("wood", 1), &db));
    for _ in 1..BAG_SIZE {
        assert!(inv.add(item("helm", 1), &db));
    }
    assert!(!inv.add(item("helm", 1), &db));
    assert!(!inv.add(item("stone", 1), &db));
    assert_eq!(inv.count_of("helm"), (BAG_SIZE - 1) as u16);
    assert!(inv.add(item("wood", 4), &db));
    assert_eq!(inv.count_of("wood"), 5);
}

#[test]
fn take_removes_exactly_from_the_front() {
    let db = db();
    let mut inv = Inventory::new();
    inv.bag[0] = Some(item("wood", 2));
    inv.bag[3] = Some(item("wood", 5));
    assert!(inv.add(item("stone", 1), &db));
    assert!(!inv.take("wood", 8));
    assert_eq!(inv.count_of("wood"), 7);
    assert!(inv.take("wood", 3));
    assert_eq!(inv.count_of("wood"), 4);
    assert!(inv.bag[0].is_none());
    assert_eq!(inv.bag[3].as_ref().unwrap().count, 4);
    assert_eq!(inv.count_of("stone"), 1);
    assert!(inv.take("wood", 4));
    assert_eq!(inv.count_of("wood"), 0);
    assert!(inv.bag[3].is_none());
}

#[test]
fn equipping_swaps_with_the_slot() {
    let db = db();
    let mut inv = Inventory::new();
    assert!(inv.add(item("sword_iron", 1), &db));
    assert!(inv.add(item("sword_gold", 1), &db));
    assert!(inv.equip_from_bag(0, &db));
    assert_eq!(inv.equip[0].as_ref().unwrap().def, "sword_iron");
    assert!(inv.bag[0].is_none());
    assert!(inv.equip_from_bag(1, &db));
    assert_eq!(inv.equip[0].as_ref().unwrap().def, "sword_gold");
    assert_eq!(inv.bag[0].as_ref().unwrap().def, "sword_iron");
    assert!(inv.bag[1].is_none());
    assert!(!inv.equip_from_bag(5, &db));
    assert!(!inv.equip_from_bag(BAG_SIZE + 3, &db));
}

#[test]
fn helmet_goes_to_head_slot() {
    let db = db();
    let mut inv = Inventory::new();
    assert!(inv.add(item("helm", 1), &db));
    assert!(inv.equip_from_bag(0, &db));
    assert!(inv.equip[1].is_some());
    assert!(inv.equip[0].is_none());
}

#[test]
fn unequip_needs_item_and_room() {
    let db = db();
    let mut inv = Inventory::new();
    assert!(!inv.unequip(0, &db));
    inv.equip[0] = Some(item("sword_iron", 1));
    for _ in 0..BAG_SIZE {
        assert!(inv.add(item("helm", 1), &db));
    }
    assert!(!inv.unequip(0, &db));
    assert!(inv.equip[0].is_some());
    assert!(inv.take("helm", 1));
    assert!(inv.unequip(0, &db));
    assert!(inv.equip[0].is_none());
    assert_eq!(inv.count_of("sword_iron"), 1);
}

#[test]
fn craft_pays_costs_and_adds_product() {
    let db = db();
    let mut inv = Inventory::new();
    assert!(inv.add(item("wood", 5), &db));
    assert!(inv.craft(0, &db, vec![]));
    assert_eq!(inv.count_of("wood"), 3);
    assert_eq!(inv.count_of("torch"), 4);
    assert!(!inv.craft(1, &db, vec![]));
    assert_eq!(inv.count_of("wood"), 3);
    assert!(inv.add(item("stone", 5), &db));
    let rolled = vec![Affix { id: "sharp".to_string(), value_bits: 0x4040_0000 }];
    assert!(inv.craft(1, &db, rolled));
    assert_eq!(inv.count_of("wood"), 0);
    assert_eq!(inv.count_of("stone"), 0);
    let sword = inv.bag.iter().flatten().find(|i| i.def == "sword_iron").unwrap();
    assert_eq!(sword.count, 1);
    assert_eq!(sword.affixes.len(), 1);
    assert_eq!(db.rarity(sword), Rarity::Magic);
    assert!(!inv.craft(7, &db, vec![]));
}

#[test]
fn consume_one_uses_first_potion() {
    let db = db();
    let mut inv = Inventory::new();
    assert!(!inv.consume_one("potion_hp"));
    assert!(inv.add(item("potion_hp", 2), &db));
    assert!(inv.consume_one("potion_hp"));
    assert_eq!(inv.count_of("potion_hp"), 1);
    assert!(inv.consume_one("potion_hp"));
    assert!(inv.bag[0].is_none());
    assert!(!inv.consume_one("potion_hp"));
}

#[test]
fn later_definition_wins_and_rarity_tiers() {
    let mut db = db();
    db.defs.push(def("wood", Slot::Trinket, 7));
    assert_eq!(db.def("wood").stack, 7);
    let mut it = item("helm", 1);
    assert_eq!(db.rarity(&it), Rarity::Common);
    for k in 0..5u32 {
        it.affixes.push(Affix { id: format!("a{k}"), value_bits: k });
    }
    assert_eq!(db.rarity(&it), Rarity::Legendary);
}

#[test]
fn skills_learn_spends_points() {
    let mut s = Skills { pts: 2, learned: [0, SKILL_MAX_LV, 0] };
    assert!(!s.learn(1));
    assert_eq!(s.pts, 2);
    assert!(s.learn(0));
    assert!(s.learn(0));
    assert_eq!(s.learned, [2, SKILL_MAX_LV, 0]);
    assert_eq!(s.pts, 0);
    assert!(!s.learn(2));
    assert_eq!(s.learned[2], 0);
}

#[test]
fn slot_label_matches_slot_name() {
    assert_eq!(slot_label(Slot::Weapon), "武器");
    assert_eq!(slot_label(Slot::Trinket), Slot::Trinket.name());
}

#[test]
fn path_cell_keys_pack_both_coordinates() {
    assert_eq!(key((0, 0)), 0);
    assert_eq!(key((5, 0)), 5);
    assert_eq!(key((0, 1)), 1i64 << 32);
    assert_eq!(key((-1, 0)), 0xFFFF_FFFF);
    assert_eq!(key((-1, -1)), -1);
    assert_ne!(key((3, 7)), key((7, 3)));
}

const ALWAYS: u32 = 1 << 24;

fn entry(item: &str, weight: u32, min: u16, max: u16, chance: u32) -> LootEntry {
    LootEntry { item: item.to_string(), weight, min, max, chance }
}

fn affix(id: &str, prefix: bool) -> AffixDef {
    AffixDef {
        id: id.to_string(),
        name: id.to_string(),
        stat: Stat::Armor,
        min_bits: 1.0f32.to_bits(),
        max_bits: 2.0f32.to_bits(),
        per_lvl_bits: 0.0f32.to_bits(),
        prefix,
    }
}

#[test]
fn loot_from_unknown_table_is_nothing() {
    let d = db();
    let mut rng = Rng::new(7);
    let before = rng.clone().next_u64();
    assert!(matches!(d.roll_loot(&mut rng, "nope"), LootDraw::Nothing));
    assert_eq!(rng.next_u64(), before);
}

#[test]
fn loot_fixed_count_drops_that_many() {
    let mut d = db();
    d.tables.push(("t".to_string(), vec![entry("wood", 10, 3, 3, ALWAYS)]));
    let mut rng = Rng::new(11);
    match d.roll_loot(&mut rng, "t") {
        LootDraw::Drop(it) => {
            assert_eq!(it.def, "wood");
            assert_eq!(it.count, 3);
            assert!(it.affixes.is_empty());
        }
        _ => panic!("expected a drop"),
    }
}

#[test]
fn loot_gear_item_drops_singly() {
    let mut d = db();
    d.tables.push(("t".to_string(), vec![entry("sword_iron", 10, 2, 5, ALWAYS)]));
    for seed in 1..20u64 {
        let mut rng = Rng::new(seed);
        match d.roll_loot(&mut rng, "t") {
            LootDraw::Drop(it) => {
                assert_eq!(it.def, "sword_iron");
                assert_eq!(it.count, 1);
            }
            _ => panic!("expected a drop"),
        }
    }
}

#[test]
fn loot_count_within_range() {
    let mut d = db();
    d.tables.push(("t".to_string(), vec![entry("stone", 10, 2, 5, ALWAYS)]));
    for seed in 1..50u64 {
        let mut rng = Rng::new(seed);
        match d.roll_loot(&mut rng, "t") {
            LootDraw::Drop(it) => assert!((2..=5).contains(&it.count)),
            _ => panic!("expected a drop"),
        }
    }
}

#[test]
fn loot_with_no_chance_is_nothing() {
    let mut d = db();
    d.tables.push(("t".to_string(), vec![entry("wood", 10, 1, 1, 0), entry("stone", 5, 1, 1, 0)]));
    let mut rng = Rng::new(3);
    assert!(matches!(d.roll_loot(&mut rng, "t"), LootDraw::Nothing));
}

#[test]
fn loot_later_table_of_same_name_wins() {
    let mut d = db();
    d.tables.push(("t".to_string(), vec![entry("wood", 10, 1, 1, ALWAYS)]));
    d.tables.push(("t".to_string(), vec![entry("stone", 10, 1, 1, ALWAYS)]));
    let mut rng = Rng::new(5);
    match d.roll_loot(&mut rng, "t") {
        LootDraw::Drop(it) => assert_eq!(it.def, "stone"),
        _ => panic!("expected a drop"),
    }
}

#[test]
fn loot_random_gear_picks_a_non_stacking_def() {
    let mut d = db();
    d.tables.push(("t".to_string(), vec![entry("GEAR_RANDOM", 10, 1, 1, ALWAYS)]));
    for seed in 1..30u64 {
        let mut rng = Rng::new(seed);
        match d.roll_loot(&mut rng, "t") {
            LootDraw::Gear(g) => assert_eq!(d.defs[g].stack, 1),
            _ => panic!("expected gear"),
        }
    }
}

#[test]
fn roll_without_affixes_picks_none() {
    let d = db();
    let mut rng = Rng::new(9);
    assert!(d.roll(&mut rng, "sword_iron", 4).is_empty());
}

#[test]
fn roll_legendary_alternates_pools_without_repeats() {
    let mut d = db();
    d.affixes = vec![affix("p0", true), affix("s0", false), affix("p1", true), affix("s1", false), affix("p2", true)];
    for seed in 1..40u64 {
        let mut rng = Rng::new(seed);
        let picks = d.roll(&mut rng, "sword_iron", 4);
        assert_eq!(picks.len(), 4);
        assert!(d.affixes[picks[0].0].prefix);
        assert!(!d.affixes[picks[1].0].prefix);
        assert!(d.affixes[picks[2].0].prefix);
        assert!(!d.affixes[picks[3].0].prefix);
        assert_ne!(picks[0].0, picks[2].0);
        assert_ne!(picks[1].0, picks[3].0);
        for p in &picks {
            assert!(p.1 < (1 << 24));
        }
    }
}

#[test]
fn roll_common_floor_zero_can_pick_none() {
    let mut d = db();
    d.affixes = vec![affix("p0", true), affix("s0", false)];
    let mut saw_none = false;
    for seed in 1..200u64 {
        let mut rng = Rng::new(seed);
        let picks = d.roll(&mut rng, "sword_iron", 0);
        assert!(picks.len() <= 2);
        if picks.is_empty() {
            saw_none = true;
        }
    }
    assert!(saw_none);
}

#[test]
fn monster_loot_tables() {
    assert_eq!(loot_table(true, Some(Elite::Tank)), "boss_loot");
    assert_eq!(loot_table(false, Some(Elite::Swift)), "elite_loot");
    assert_eq!(loot_table(false, None), "monster_loot");
}

#[test]
fn add_tops_up_then_uses_an_empty_cell() {
    let mut d = db();
    d.defs.push(def("ore", Slot::Trinket, 10));
    let mut inv = Inventory::new();
    inv.bag[0] = Some(item("ore", 8));
    assert!(inv.add(item("ore", 5), &d));
    assert_eq!(inv.bag[0].as_ref().map(|i| i.count), Some(10));
    assert_eq!(inv.bag[1].as_ref().map(|i| (i.def.clone(), i.count)), Some(("ore".to_string(), 3)));
    assert_eq!(inv.count_of("ore"), 13);
}

#[test]
fn add_fills_several_stacks_in_order() {
    let mut d = db();
    d.defs.push(def("ore", Slot::Trinket, 10));
    let mut inv = Inventory::new();
    inv.bag[2] = Some(item("ore", 9));
    inv.bag[4] = Some(item("ore", 6));
    assert!(inv.add(item("ore", 5), &d));
    assert_eq!(inv.bag[2].as_ref().map(|i| i.count), Some(10));
    assert_eq!(inv.bag[4].as_ref().map(|i| i.count), Some(10));
    assert!(inv.bag[0].is_none());
    assert_eq!(inv.count_of("ore"), 20);
}

#[test]
fn add_without_room_keeps_the_top_ups() {
    let mut d = db();
    d.defs.push(def("ore", Slot::Trinket, 10));
    let mut inv = Inventory::new();
    for c in inv.bag.iter_mut() {
        *c = Some(item("stone", 1));
    }
    inv.bag[0] = Some(item("ore", 8));
    assert!(!inv.add(item("ore", 5), &d));
    assert_eq!(inv.count_of("ore"), 10);
}
