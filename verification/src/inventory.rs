//! The bag and the equipment slots: stacking, counting, taking materials,
//! equipping and crafting.
use vstd::prelude::*;
use crate::game::{Attr, Rarity, Recipe, Slot, Stat, slot_index};
use crate::materials::str_eq;
use crate::rng::{Rng, chance_next, output, range_next, xorshift};

verus! {

/// Number of bag cells.
pub const BAG_SIZE: usize = 30;

/// Number of equipment slots (weapon, head, chest, legs, trinket).
pub const EQUIP_SLOTS: usize = 5;

/// A rolled affix. The rolled value is a float in the game; here it is carried
/// as the bit pattern of that `f32`, since nothing in this module reads it.
#[derive(Clone, Debug)]
pub struct Affix {
    pub id: String,
    pub value_bits: u32,
}

/// An item instance: which definition, how many, and its affixes.
#[derive(Clone, Debug)]
pub struct Item {
    pub def: String,
    pub count: u16,
    pub affixes: Vec<Affix>,
}

/// The integer part of an item definition: what the bag logic reads.
#[derive(Clone, Debug)]
pub struct ItemDef {
    pub id: String,
    pub name: String,
    pub slot: Slot,
    /// Stack limit (more than one means a material or a consumable).
    pub stack: u16,
    pub lvl: u8,
    pub value: u32,
}

/// An affix definition. Its value range is floats in the game; the bit patterns
/// of those `f32`s are carried here.
#[derive(Clone, Debug)]
pub struct AffixDef {
    pub id: String,
    pub name: String,
    pub stat: Stat,
    pub min_bits: u32,
    pub max_bits: u32,
    pub per_lvl_bits: u32,
    pub prefix: bool,
}

/// A loot table entry: an item id (or `GEAR_RANDOM` for a random piece of gear),
/// its weight, its count range, and the chance that it takes part in a roll as a
/// threshold on the generator's 24-bit draw (`chance(p)` is a draw below the least
/// integer not under `p * 2^24`).
#[derive(Clone, Debug)]
pub struct LootEntry {
    pub item: String,
    pub weight: u32,
    pub min: u16,
    pub max: u16,
    pub chance: u32,
}

/// Item definitions, affixes, loot tables and crafting recipes. When two
/// definitions (or tables) share a name, the later one is the one in force (as
/// when a map is filled in order).
pub struct ItemDb {
    pub defs: Vec<ItemDef>,
    pub affixes: Vec<AffixDef>,
    pub tables: Vec<(String, Vec<LootEntry>)>,
    pub recipes: Vec<Recipe>,
}

/// Bag, equipment, gold, level, experience and attribute points.
pub struct Inventory {
    /// `BAG_SIZE` cells.
    pub bag: Vec<Option<Item>>,
    /// `EQUIP_SLOTS` cells, indexed by `Slot::equip_index`.
    pub equip: Vec<Option<Item>>,
    pub gold: u32,
    pub level: u32,
    pub xp: u32,
    /// Unassigned attribute points.
    pub points: u8,
    pub attr: Attr,
    /// Whether the bag window is open.
    pub ui_open: bool,
}

// ---------------------------------------------------------------- definitions

/// Index of the definition in force for `id` among the first `n` definitions, or -1.
pub open spec fn def_index_upto(defs: Seq<ItemDef>, id: Seq<char>, n: int) -> int
    decreases n,
{
    if n <= 0 {
        -1
    } else if defs[n - 1].id@ == id {
        n - 1
    } else {
        def_index_upto(defs, id, n - 1)
    }
}

/// Index of the definition in force for `id`, or -1 when there is none.
pub open spec fn def_index(defs: Seq<ItemDef>, id: Seq<char>) -> int {
    def_index_upto(defs, id, defs.len() as int)
}

proof fn lemma_def_index_upto(defs: Seq<ItemDef>, id: Seq<char>, n: int)
    requires
        0 <= n <= defs.len(),
    ensures
        -1 <= def_index_upto(defs, id, n) < n,
        def_index_upto(defs, id, n) >= 0 ==> defs[def_index_upto(defs, id, n)].id@ == id,
        def_index_upto(defs, id, n) == -1 ==> forall|j: int| 0 <= j < n ==> defs[j].id@ != id,
    decreases n,
{
    if n > 0 {
        lemma_def_index_upto(defs, id, n - 1);
    }
}

impl ItemDb {
    /// Whether some definition has this id.
    pub open spec fn knows(&self, id: Seq<char>) -> bool {
        def_index(self.defs@, id) >= 0
    }

    /// The definition in force for a known id.
    pub open spec fn def_of(&self, id: Seq<char>) -> ItemDef {
        self.defs@[def_index(self.defs@, id)]
    }

    /// Stack limit of a known id.
    pub open spec fn stack_of(&self, id: Seq<char>) -> u16 {
        self.def_of(id).stack
    }

    /// The definition for `id`; the id must be known.
    pub fn def(&self, id: &str) -> (d: &ItemDef)
        requires
            self.knows(id@),
        ensures
            *d == self.def_of(id@),
    {
        proof {
            lemma_def_index_upto(self.defs@, id@, self.defs@.len() as int);
        }
        let mut i: usize = self.defs.len();
        while i > 0
            invariant
                i <= self.defs.len(),
                def_index(self.defs@, id@) < i,
                def_index(self.defs@, id@) == def_index_upto(self.defs@, id@, i as int),
            decreases i,
        {
            if str_eq(self.defs[i - 1].id.as_str(), id) {
                return &self.defs[i - 1];
            }
            proof {
                lemma_def_index_upto(self.defs@, id@, i as int - 1);
            }
            i = i - 1;
        }
        &self.defs[0]
    }

    /// Rolls the affixes of a piece of gear based on `base`: a rarity tier (at
    /// least `min_rarity`), then as many affixes as the tier (magic one, rare two,
    /// masterwork three, legendary four), alternating prefix and suffix pools
    /// without repeats, as long as the pools last. Returns each affix's index in `affixes`
    /// with the 24-bit draw its value is computed from.
    pub fn roll(&self, rng: &mut Rng, base: &str, min_rarity: usize) -> (picks: Vec<(usize, u32)>)
        requires
            self.knows(base@),
            self.affixes@.len() < i32::MAX,
        ensures
            ({
                let (r1, d) = range_next(old(rng)@, 0, 99);
                let out = pick_affixes(
                    pool_of(self.affixes@, true),
                    pool_of(self.affixes@, false),
                    r1,
                    affix_count(d, min_rarity as int),
                );
                &&& final(rng)@ == out.2
                &&& picks@.len() == out.3.len()
                &&& forall|j: int| 0 <= j < picks@.len() ==> (#[trigger] picks@[j]).0 == out.3[j].0 && picks@[j].1 == out.3[j].1
            }),
    {
        let d = rng.range_i32(0, 99);
        let t: usize = if d < 45 {
            0
        } else if d < 75 {
            1
        } else if d < 91 {
            2
        } else if d < 97 {
            3
        } else {
            4
        };
        let tier = if t >= min_rarity { t } else { min_rarity };
        let n = tier;
        let mut pre: Vec<usize> = Vec::new();
        let mut suf: Vec<usize> = Vec::new();
        let mut a: usize = 0;
        while a < self.affixes.len()
            invariant
                a <= self.affixes@.len(),
                self.affixes@.len() < i32::MAX,
                pre@.len() == pool_of(self.affixes@.take(a as int), true).len(),
                suf@.len() == pool_of(self.affixes@.take(a as int), false).len(),
                forall|j: int| 0 <= j < pre@.len() ==> pre@[j] == pool_of(self.affixes@.take(a as int), true)[j],
                forall|j: int| 0 <= j < suf@.len() ==> suf@[j] == pool_of(self.affixes@.take(a as int), false)[j],
            decreases self.affixes.len() - a,
        {
            proof {
                assert(self.affixes@.take(a as int + 1).drop_last() =~= self.affixes@.take(a as int));
            }
            if self.affixes[a].prefix {
                pre.push(a);
            } else {
                suf.push(a);
            }
            a = a + 1;
        }
        proof {
            assert(self.affixes@.take(self.affixes@.len() as int) =~= self.affixes@);
            lemma_pool_of(self.affixes@, true);
            lemma_pool_of(self.affixes@, false);
        }
        let ghost pre0 = pool_of(self.affixes@, true);
        let ghost suf0 = pool_of(self.affixes@, false);
        let ghost r1 = rng@;
        let mut picks: Vec<(usize, u32)> = Vec::new();
        let mut i: usize = 0;
        while i < n
            invariant
                i <= n,
                ({
                    let st = pick_affixes(pre0, suf0, r1, i as int);
                    &&& pre@.len() == st.0.len()
                    &&& suf@.len() == st.1.len()
                    &&& forall|j: int| 0 <= j < pre@.len() ==> pre@[j] == st.0[j]
                    &&& forall|j: int| 0 <= j < suf@.len() ==> suf@[j] == st.1[j]
                    &&& rng@ == st.2
                    &&& picks@.len() == st.3.len()
                    &&& forall|j: int| 0 <= j < picks@.len() ==> (#[trigger] picks@[j]).0 == st.3[j].0 && picks@[j].1 == st.3[j].1
                }),
                pre@.len() <= self.affixes@.len(),
                suf@.len() <= self.affixes@.len(),
                self.affixes@.len() < i32::MAX,
            decreases n - i,
        {
            let ghost st = pick_affixes(pre0, suf0, r1, i as int);
            let use_pre = i % 2 == 0;
            let len = if use_pre { pre.len() } else { suf.len() };
            if len > 0 {
                let ghost pool = if use_pre { st.0 } else { st.1 };
                let ghost pre_b = pre@;
                let ghost suf_b = suf@;
                let ghost rb = rng@;
                let k = rng.range_i32(0, len as i32 - 1) as usize;
                proof {
                    assert(pool.len() == len);
                    assert(0 <= k < len);
                    assert((rng@, k as int) == range_next(rb, 0, pool.len() - 1));
                }
                let chosen = if use_pre { pre.swap_remove(k) } else { suf.swap_remove(k) };
                proof {
                    assert(chosen as int == pool[k as int]);
                }
                let unit = rng.unit_bits();
                let ghost before = picks@;
                picks.push((chosen, unit));
                proof {
                    let nst = pick_affixes(pre0, suf0, r1, i as int + 1);
                    assert(nst.2 == rng@);
                    assert(nst.3 == st.3.push((pool[k as int], unit)));
                    if use_pre {
                        assert(nst.0 == pool.update(k as int, pool.last()).drop_last());
                        assert(pre@.len() == nst.0.len());
                        assert forall|j: int| 0 <= j < pre@.len() implies pre@[j] == nst.0[j] by {
                            if j == k {
                                assert(pre@[j] == pre_b[pre_b.len() - 1]);
                            } else {
                                assert(pre@[j] == pre_b[j]);
                            }
                        }
                        assert(suf@ == suf_b);
                    } else {
                        assert(nst.1 == pool.update(k as int, pool.last()).drop_last());
                        assert(suf@.len() == nst.1.len());
                        assert forall|j: int| 0 <= j < suf@.len() implies suf@[j] == nst.1[j] by {
                            if j == k {
                                assert(suf@[j] == suf_b[suf_b.len() - 1]);
                            } else {
                                assert(suf@[j] == suf_b[j]);
                            }
                        }
                        assert(pre@ == pre_b);
                    }
                    assert forall|j: int| 0 <= j < picks@.len() implies (#[trigger] picks@[j]).0 == nst.3[j].0 && picks@[j].1 == nst.3[j].1 by {
                        if j < before.len() {
                            assert(picks@[j] == before[j]);
                        } else {
                            assert(picks@[j] == (chosen, unit));
                        }
                    }
                }
            }
            i = i + 1;
        }
        picks
    }

    /// Rolls loot table `table`: every entry takes part with its chance; of those,
    /// one is drawn by weight and its count drawn from its range. A random-gear
    /// entry picks one of the definitions that do not stack; an item that does not
    /// stack drops singly. Nothing drops from an unknown table or when no entry
    /// takes part.
    pub fn roll_loot(&self, rng: &mut Rng, table: &str) -> (r: LootDraw)
        requires
            ({
                let t = table_upto(self.tables@, table@, self.tables@.len() as int);
                t >= 0 ==> {
                    let entries = self.tables@[t].1@;
                    &&& weight_sum(entries) <= i32::MAX
                    &&& self.defs@.len() < i32::MAX
                }
            }),
        ensures
            ({
                let t = table_upto(self.tables@, table@, self.tables@.len() as int);
                if t < 0 {
                    r is Nothing && final(rng)@ == old(rng)@
                } else {
                    let out = loot_outcome(*self, self.tables@[t].1@, old(rng)@);
                    &&& final(rng)@ == out.0
                    &&& match r {
                        LootDraw::Nothing => out.1 < 0 && out.2 is None,
                        LootDraw::Gear(g) => out.1 == g && out.2 is None,
                        LootDraw::Drop(it) => out.1 < 0 && out.2 == Some((it.def@, it.count as int)) && it.affixes@.len() == 0,
                    }
                }
            }),
    {
        let ti = match self.table_index(table) {
            Some(t) => t,
            None => {
                return LootDraw::Nothing;
            },
        };
        let entries = &self.tables[ti].1;
        let ghost r0 = rng@;
        let pool = passing_entries(rng, entries);
        if pool.len() == 0 {
            return LootDraw::Nothing;
        }
        proof {
            lemma_weight_sub(entries@, r0, entries@.len() as int);
            assert(entries@.take(entries@.len() as int) =~= entries@);
        }
        let total = weight_total(&pool);
        let d = rng.range_i32(0, total as i32 - 1);
        let picked = pick_index(&pool, d as u32);
        let e = &pool[picked];
        let count = rng.range_i32(e.min as i32, e.max as i32);
        if str_eq(e.item.as_str(), "GEAR_RANDOM") {
            let gear = self.gear_defs();
            let idx = rng.range_i32(0, gear.len() as i32 - 1);
            if 0 <= idx && (idx as usize) < gear.len() {
                return LootDraw::Gear(gear[idx as usize]);
            }
            return LootDraw::Nothing;
        }
        let stack_one = match self.find(e.item.as_str()) {
            Some(dix) => self.defs[dix].stack == 1,
            None => false,
        };
        if stack_one {
            LootDraw::Drop(Item { def: e.item.clone(), count: 1, affixes: Vec::new() })
        } else {
            LootDraw::Drop(Item { def: e.item.clone(), count: count as u16, affixes: Vec::new() })
        }
    }

    /// Index of the table in force named `name`, if any.
    fn table_index(&self, name: &str) -> (r: Option<usize>)
        ensures
            match r {
                Some(t) => t == table_upto(self.tables@, name@, self.tables@.len() as int) && t < self.tables@.len(),
                None => table_upto(self.tables@, name@, self.tables@.len() as int) < 0,
            },
    {
        let mut ti: usize = self.tables.len();
        while ti > 0
            invariant
                ti <= self.tables@.len(),
                table_upto(self.tables@, name@, self.tables@.len() as int) == table_upto(self.tables@, name@, ti as int),
            decreases ti,
        {
            if str_eq(self.tables[ti - 1].0.as_str(), name) {
                return Some(ti - 1);
            }
            ti = ti - 1;
        }
        None
    }

    /// Indices of the definitions in force that do not stack, in order.
    fn gear_defs(&self) -> (gear: Vec<usize>)
        requires
            self.defs@.len() < i32::MAX,
        ensures
            gear@.len() == gear_upto(self.defs@, self.defs@.len() as int).len(),
            gear@.len() <= self.defs@.len(),
            forall|m: int| 0 <= m < gear@.len() ==> gear@[m] == gear_upto(self.defs@, self.defs@.len() as int)[m],
    {
        let mut gear: Vec<usize> = Vec::new();
        let mut g: usize = 0;
        while g < self.defs.len()
            invariant
                g <= self.defs@.len(),
                gear@.len() == gear_upto(self.defs@, g as int).len(),
                forall|m: int| 0 <= m < gear@.len() ==> gear@[m] == gear_upto(self.defs@, g as int)[m],
                gear@.len() <= g,
            decreases self.defs.len() - g,
        {
            let ghost before = gear@;
            if self.defs[g].stack == 1 && self.def_index_of(self.defs[g].id.as_str()) == g {
                gear.push(g);
                proof {
                    assert forall|m: int| 0 <= m < gear@.len() implies gear@[m] == gear_upto(self.defs@, g as int + 1)[m] by {
                        if m < before.len() {
                            assert(gear@[m] == before[m]);
                        }
                    }
                }
            }
            g = g + 1;
        }
        gear
    }

    /// Index of the definition in force for `id`, if any.
    fn find(&self, id: &str) -> (r: Option<usize>)
        ensures
            match r {
                Some(k) => k == def_index(self.defs@, id@) && k < self.defs@.len(),
                None => def_index(self.defs@, id@) < 0,
            },
    {
        proof {
            lemma_def_index_upto(self.defs@, id@, self.defs@.len() as int);
        }
        let mut i: usize = self.defs.len();
        while i > 0
            invariant
                i <= self.defs@.len(),
                def_index(self.defs@, id@) < i,
                def_index(self.defs@, id@) == def_index_upto(self.defs@, id@, i as int),
            decreases i,
        {
            if str_eq(self.defs[i - 1].id.as_str(), id) {
                return Some(i - 1);
            }
            proof {
                lemma_def_index_upto(self.defs@, id@, i as int - 1);
            }
            i = i - 1;
        }
        None
    }

    /// Index of the definition in force for `id` (`usize::MAX` when none).
    fn def_index_of(&self, id: &str) -> (r: usize)
        ensures
            def_index(self.defs@, id@) >= 0 ==> r == def_index(self.defs@, id@),
            def_index(self.defs@, id@) < 0 ==> r == usize::MAX,
    {
        match self.find(id) {
            Some(k) => k,
            None => usize::MAX,
        }
    }

    /// Rarity by the number of affixes: none is common, four or more legendary.
    pub fn rarity(&self, item: &Item) -> (r: Rarity)
        ensures
            r == rarity_of(item.affixes@.len()),
    {
        let n = item.affixes.len();
        if n == 0 {
            Rarity::Common
        } else if n == 1 {
            Rarity::Magic
        } else if n == 2 {
            Rarity::Rare
        } else if n == 3 {
            Rarity::Masterwork
        } else {
            Rarity::Legendary
        }
    }
}

/// Rarity tier of an item with `n` affixes.
pub open spec fn rarity_of(n: nat) -> Rarity {
    if n == 0 {
        Rarity::Common
    } else if n == 1 {
        Rarity::Magic
    } else if n == 2 {
        Rarity::Rare
    } else if n == 3 {
        Rarity::Masterwork
    } else {
        Rarity::Legendary
    }
}

// ---------------------------------------------------------------- rolls

/// The id loot tables use for "a random piece of gear".
pub open spec fn gear_random() -> Seq<char> {
    "GEAR_RANDOM"@
}

/// Rarity tier of a draw in 0..=99: common 45, magic 30, rare 16, masterwork 6,
/// legendary 3.
pub open spec fn tier_of(r: int) -> int {
    if r < 45 {
        0
    } else if r < 75 {
        1
    } else if r < 91 {
        2
    } else if r < 97 {
        3
    } else {
        4
    }
}

/// Indices of the affixes that are prefixes (`prefix`) or suffixes, in order.
pub open spec fn pool_of(affixes: Seq<AffixDef>, prefix: bool) -> Seq<int>
    decreases affixes.len(),
{
    if affixes.len() == 0 {
        Seq::empty()
    } else {
        let p = pool_of(affixes.drop_last(), prefix);
        if affixes.last().prefix == prefix { p.push(affixes.len() - 1) } else { p }
    }
}

proof fn lemma_pool_of(affixes: Seq<AffixDef>, prefix: bool)
    ensures
        pool_of(affixes, prefix).len() <= affixes.len(),
        forall|j: int| 0 <= j < pool_of(affixes, prefix).len() ==> 0 <= #[trigger] pool_of(affixes, prefix)[j] < affixes.len(),
    decreases affixes.len(),
{
    if affixes.len() > 0 {
        lemma_pool_of(affixes.drop_last(), prefix);
    }
}

/// Picking affixes, alternating prefix and suffix pools (prefix first): after
/// `i` rounds, the pools left, the random state, and each pick with the 24-bit
/// draw its value comes from. A round whose pool is empty picks nothing.
pub open spec fn pick_affixes(pre: Seq<int>, suf: Seq<int>, r: u64, i: int) -> (Seq<int>, Seq<int>, u64, Seq<(int, u32)>)
    decreases i,
{
    if i <= 0 {
        (pre, suf, r, Seq::empty())
    } else {
        let p = pick_affixes(pre, suf, r, i - 1);
        let pool = if (i - 1) % 2 == 0 { p.0 } else { p.1 };
        if pool.len() == 0 {
            p
        } else {
            let (r1, k) = range_next(p.2, 0, pool.len() - 1);
            let rest = pool.update(k, pool.last()).drop_last();
            let r2 = xorshift(r1);
            let pick = (pool[k], (output(r2) >> 40u64) as u32);
            if (i - 1) % 2 == 0 {
                (rest, p.1, r2, p.3.push(pick))
            } else {
                (p.0, rest, r2, p.3.push(pick))
            }
        }
    }
}

/// How many affixes a roll with draw `d` and floor `min_rarity` asks for: its tier.
pub open spec fn affix_count(d: int, min_rarity: int) -> int {
    let tier = if tier_of(d) >= min_rarity { tier_of(d) } else { min_rarity };
    tier
}

/// Sum of the weights.
pub open spec fn weight_sum(pool: Seq<LootEntry>) -> int
    decreases pool.len(),
{
    if pool.len() == 0 {
        0
    } else {
        weight_sum(pool.drop_last()) + pool.last().weight
    }
}

/// The entries of a table that pass their chance, each drawing once, in order.
pub open spec fn passing(entries: Seq<LootEntry>, r: u64, j: int) -> (Seq<LootEntry>, u64)
    decreases j,
{
    if j <= 0 {
        (Seq::empty(), r)
    } else {
        let p = passing(entries, r, j - 1);
        let (r1, ok) = chance_next(p.1, entries[j - 1].chance);
        (if ok { p.0.push(entries[j - 1]) } else { p.0 }, r1)
    }
}

/// The entry a draw `r` picks by weight, scanning from entry `j` (the first
/// entry when the draw runs past the end).
pub open spec fn pick_from(pool: Seq<LootEntry>, r: int, j: int) -> int
    decreases pool.len() - j,
{
    if j >= pool.len() || j < 0 {
        0
    } else if r < pool[j].weight {
        j
    } else {
        pick_from(pool, r - pool[j].weight, j + 1)
    }
}

/// Index of the table in force named `name`, or -1.
pub open spec fn table_upto(tables: Seq<(String, Vec<LootEntry>)>, name: Seq<char>, n: int) -> int
    decreases n,
{
    if n <= 0 {
        -1
    } else if tables[n - 1].0@ == name {
        n - 1
    } else {
        table_upto(tables, name, n - 1)
    }
}

/// Indices of the definitions in force that do not stack (gear), in order.
pub open spec fn gear_upto(defs: Seq<ItemDef>, n: int) -> Seq<int>
    decreases n,
{
    if n <= 0 {
        Seq::empty()
    } else {
        let g = gear_upto(defs, n - 1);
        if def_index(defs, defs[n - 1].id@) == n - 1 && defs[n - 1].stack == 1 { g.push(n - 1) } else { g }
    }
}

/// What a loot roll yields.
pub enum LootDraw {
    /// Nothing dropped.
    Nothing,
    /// This item dropped.
    Drop(Item),
    /// A random piece of gear dropped: the definition to roll it from.
    Gear(usize),
}

/// The outcome of a loot roll on table `entries` from random state `r`: what
/// drops (an item id and count, or a gear definition index, or nothing) and the
/// random state after.
pub open spec fn loot_outcome(db: ItemDb, entries: Seq<LootEntry>, r: u64) -> (u64, int, Option<(Seq<char>, int)>) {
    let (pool, r1) = passing(entries, r, entries.len() as int);
    if pool.len() == 0 {
        (r1, -1, None)
    } else {
        let total = weight_sum(pool);
        let (r2, d) = range_next(r1, 0, total - 1);
        let picked = pool[pick_from(pool, d, 0)];
        let (r3, count) = range_next(r2, picked.min as int, picked.max as int);
        if picked.item@ == gear_random() {
            let gear = gear_upto(db.defs@, db.defs@.len() as int);
            let (r4, g) = range_next(r3, 0, gear.len() - 1);
            if 0 <= g < gear.len() { (r4, gear[g], None) } else { (r4, -1, None) }
        } else if db.knows(picked.item@) && db.stack_of(picked.item@) == 1 {
            (r3, -1, Some((picked.item@, 1int)))
        } else {
            (r3, -1, Some((picked.item@, count)))
        }
    }
}

/// A field-for-field copy of a loot entry.
fn copy_entry(e: &LootEntry) -> (c: LootEntry)
    ensures
        c == *e,
{
    LootEntry { item: e.item.clone(), weight: e.weight, min: e.min, max: e.max, chance: e.chance }
}

/// The entries that pass their chance, each drawing once, in order.
fn passing_entries(rng: &mut Rng, entries: &Vec<LootEntry>) -> (pool: Vec<LootEntry>)
    ensures
        pool@ == passing(entries@, old(rng)@, entries@.len() as int).0,
        final(rng)@ == passing(entries@, old(rng)@, entries@.len() as int).1,
{
    let ghost r0 = rng@;
    let mut pool: Vec<LootEntry> = Vec::new();
    let mut j: usize = 0;
    while j < entries.len()
        invariant
            j <= entries@.len(),
            pool@ == passing(entries@, r0, j as int).0,
            rng@ == passing(entries@, r0, j as int).1,
        decreases entries.len() - j,
    {
        if rng.chance_below(entries[j].chance) {
            pool.push(copy_entry(&entries[j]));
        }
        j = j + 1;
    }
    pool
}

/// Sum of the weights of `pool`.
fn weight_total(pool: &Vec<LootEntry>) -> (t: u32)
    requires
        weight_sum(pool@) <= i32::MAX,
    ensures
        t == weight_sum(pool@),
{
    let mut total: u32 = 0;
    let mut q: usize = 0;
    while q < pool.len()
        invariant
            q <= pool@.len(),
            weight_sum(pool@) <= i32::MAX,
            total == weight_sum(pool@.take(q as int)),
        decreases pool.len() - q,
    {
        proof {
            assert(pool@.take(q as int + 1).drop_last() =~= pool@.take(q as int));
            lemma_weight_prefix(pool@, q as int + 1);
        }
        total = total + pool[q].weight;
        q = q + 1;
    }
    proof {
        assert(pool@.take(pool@.len() as int) =~= pool@);
    }
    total
}

/// The entry a draw `d` picks by weight.
fn pick_index(pool: &Vec<LootEntry>, d: u32) -> (k: usize)
    requires
        pool@.len() > 0,
    ensures
        k == pick_from(pool@, d as int, 0),
        k < pool@.len(),
{
    let ghost d0 = d as int;
    let mut rest = d;
    let mut k: usize = 0;
    while k < pool.len()
        invariant
            k <= pool@.len(),
            pool@.len() > 0,
            d0 == d as int,
            pick_from(pool@, rest as int, k as int) == pick_from(pool@, d0, 0),
        decreases pool.len() - k,
    {
        if rest < pool[k].weight {
            assert(pick_from(pool@, rest as int, k as int) == k);
            return k;
        }
        rest = rest - pool[k].weight;
        k = k + 1;
    }
    0
}

/// The weights of the first `k` entries.
proof fn lemma_weight_sum_take(pool: Seq<LootEntry>, k: int)
    requires
        0 <= k < pool.len(),
    ensures
        weight_sum(pool.take(k + 1)) == weight_sum(pool.take(k)) + pool[k].weight,
{
    assert(pool.take(k + 1).drop_last() =~= pool.take(k));
}

proof fn lemma_pick_in_share(pool: Seq<LootEntry>, d: int, k: int)
    requires
        0 <= k <= pool.len(),
        weight_sum(pool.take(k)) <= d < weight_sum(pool),
    ensures
        k <= pick_from(pool, d - weight_sum(pool.take(k)), k) < pool.len(),
        weight_sum(pool.take(pick_from(pool, d - weight_sum(pool.take(k)), k))) <= d,
        d < weight_sum(pool.take(pick_from(pool, d - weight_sum(pool.take(k)), k))) + pool[pick_from(pool, d - weight_sum(pool.take(k)), k)].weight,
    decreases pool.len() - k,
{
    if k == pool.len() {
        assert(pool.take(k) =~= pool);
    } else {
        lemma_weight_sum_take(pool, k);
        let r = d - weight_sum(pool.take(k));
        if r >= pool[k].weight {
            lemma_pick_in_share(pool, d, k + 1);
            assert(r - pool[k].weight == d - weight_sum(pool.take(k + 1)));
        }
    }
}

/// Picking by weight: a draw `d` below the total weight picks the entry whose share
/// holds it, the entry `j` with (weights before `j`) <= `d` < (weights before `j`) +
/// (weight of `j`); so each entry is picked for as many draws as its weight.
pub proof fn law_pick_by_weight(pool: Seq<LootEntry>, d: int)
    requires
        0 <= d < weight_sum(pool),
    ensures
        0 <= pick_from(pool, d, 0) < pool.len(),
        weight_sum(pool.take(pick_from(pool, d, 0))) <= d < weight_sum(pool.take(pick_from(pool, d, 0))) + pool[pick_from(pool, d, 0)].weight,
{
    assert(pool.take(0) =~= Seq::<LootEntry>::empty());
    lemma_pick_in_share(pool, d, 0);
}

// ---------------------------------------------------------------- bag model

/// Whether a cell holds items of `id`.
pub open spec fn holds(cell: Option<Item>, id: Seq<char>) -> bool {
    cell is Some && cell->0.def@ == id
}

/// How many items of `id` a cell contributes.
pub open spec fn cell_count(cell: Option<Item>, id: Seq<char>) -> int {
    if holds(cell, id) {
        cell->0.count as int
    } else {
        0
    }
}

/// Total number of items of `id` in the bag.
pub open spec fn bag_count(bag: Seq<Option<Item>>, id: Seq<char>) -> int
    decreases bag.len(),
{
    if bag.len() == 0 {
        0
    } else {
        bag_count(bag.drop_last(), id) + cell_count(bag.last(), id)
    }
}

/// Index of the first cell holding `id`, or -1.
pub open spec fn find_match(bag: Seq<Option<Item>>, id: Seq<char>) -> int
    decreases bag.len(),
{
    if bag.len() == 0 {
        -1
    } else if find_match(bag.drop_last(), id) >= 0 {
        find_match(bag.drop_last(), id)
    } else if holds(bag.last(), id) {
        bag.len() - 1
    } else {
        -1
    }
}

/// Index of the first empty cell, or -1.
pub open spec fn find_empty(bag: Seq<Option<Item>>) -> int
    decreases bag.len(),
{
    if bag.len() == 0 {
        -1
    } else if find_empty(bag.drop_last()) >= 0 {
        find_empty(bag.drop_last())
    } else if bag.last() is None {
        bag.len() - 1
    } else {
        -1
    }
}

/// The item with another count.
pub open spec fn with_count(it: Item, c: u16) -> Item {
    Item { def: it.def, count: c, affixes: it.affixes }
}

/// Whether `add` tops up existing stacks: the kind stacks and the bag holds some.
pub open spec fn stacks(bag: Seq<Option<Item>>, db: ItemDb, item: Item) -> bool {
    db.stack_of(item.def@) > 1 && find_match(bag, item.def@) >= 0
}

/// Topping up the stacks of `id` among the first `i` cells, in order, from `rem`
/// items, each up to `stack`: the bag so far and the items still left.
pub open spec fn fill_upto(bag: Seq<Option<Item>>, id: Seq<char>, stack: int, rem: int, i: int) -> (Seq<Option<Item>>, int)
    decreases i,
{
    if i <= 0 {
        (bag, rem)
    } else {
        let (b, r) = fill_upto(bag, id, stack, rem, i - 1);
        if holds(bag[i - 1], id) && r > 0 {
            let it = bag[i - 1]->0;
            let mv = if stack - it.count < r { stack - it.count } else { r };
            (b.update(i - 1, Some(with_count(it, (it.count + mv) as u16))), r - mv)
        } else {
            (b, r)
        }
    }
}

/// The bag with every stack of the item's kind topped up, and the items left.
pub open spec fn filled(bag: Seq<Option<Item>>, db: ItemDb, item: Item) -> (Seq<Option<Item>>, int) {
    fill_upto(bag, item.def@, db.stack_of(item.def@) as int, item.count as int, bag.len() as int)
}

/// The inputs on which `add` is defined: the kind is known, and no stack of a
/// stacking kind already holds more than its limit.
pub open spec fn add_ok(bag: Seq<Option<Item>>, db: ItemDb, item: Item) -> bool {
    &&& db.knows(item.def@)
    &&& db.stack_of(item.def@) > 1 ==> forall|j: int| 0 <= j < bag.len() && holds(#[trigger] bag[j], item.def@)
        ==> bag[j]->0.count <= db.stack_of(item.def@)
}

/// Whether `add` succeeds: everything went onto stacks, or what is left found an
/// empty cell.
pub open spec fn added(bag: Seq<Option<Item>>, db: ItemDb, item: Item) -> bool {
    if stacks(bag, db, item) {
        filled(bag, db, item).1 == 0 || find_empty(filled(bag, db, item).0) >= 0
    } else {
        find_empty(bag) >= 0
    }
}

/// What `add` could not place: the items left after topping up the stacks, or
/// the whole item when there were none.
pub open spec fn add_rest(bag: Seq<Option<Item>>, db: ItemDb, item: Item) -> Item {
    if stacks(bag, db, item) {
        with_count(item, filled(bag, db, item).1 as u16)
    } else {
        item
    }
}

/// The bag after `add`: the stacks of the kind topped up in order and the rest in
/// the first empty cell; without stacks, the item in the first empty cell. When
/// the rest finds no cell the topped-up stacks stay.
pub open spec fn add_bag(bag: Seq<Option<Item>>, db: ItemDb, item: Item) -> Seq<Option<Item>> {
    if stacks(bag, db, item) {
        let (b, r) = filled(bag, db, item);
        if r == 0 {
            b
        } else if find_empty(b) >= 0 {
            b.update(find_empty(b), Some(with_count(item, r as u16)))
        } else {
            b
        }
    } else if find_empty(bag) >= 0 {
        bag.update(find_empty(bag), Some(item))
    } else {
        bag
    }
}

/// Topping up keeps the length and the empty cells, touches no cell at or after
/// `i`, keeps stacks within the limit, and moves `rem - r` items of `id` in.
proof fn lemma_fill(bag: Seq<Option<Item>>, id: Seq<char>, stack: int, rem: int, i: int, other: Seq<char>)
    requires
        0 <= i <= bag.len(),
        0 <= rem,
        stack <= u16::MAX,
        forall|j: int| 0 <= j < bag.len() && holds(#[trigger] bag[j], id) ==> bag[j]->0.count <= stack,
    ensures
        ({
            let (b, r) = fill_upto(bag, id, stack, rem, i);
            &&& b.len() == bag.len()
            &&& 0 <= r <= rem
            &&& forall|j: int| i <= j < bag.len() ==> #[trigger] b[j] == bag[j]
            &&& forall|j: int| 0 <= j < bag.len() ==> (#[trigger] b[j] is None <==> bag[j] is None)
            &&& forall|j: int| 0 <= j < bag.len() && holds(#[trigger] b[j], id) ==> b[j]->0.count <= stack
            &&& bag_count(b, id) == bag_count(bag, id) + rem - r
            &&& other != id ==> bag_count(b, other) == bag_count(bag, other)
            &&& (forall|j: int| 0 <= j < i ==> !holds(#[trigger] bag[j], id)) ==> r == rem && b == bag
        }),
    decreases i,
{
    if i > 0 {
        lemma_fill(bag, id, stack, rem, i - 1, other);
        let (b, r) = fill_upto(bag, id, stack, rem, i - 1);
        if holds(bag[i - 1], id) && r > 0 {
            let it = bag[i - 1]->0;
            let mv = if stack - it.count < r { stack - it.count } else { r };
            let cell = Some(with_count(it, (it.count + mv) as u16));
            assert(b[i - 1] == bag[i - 1]);
            lemma_count_update(b, id, i - 1, cell);
            lemma_count_update(b, other, i - 1, cell);
        }
    }
}

/// With an empty cell in the bag, `add` succeeds.
proof fn lemma_added_with_room(bag: Seq<Option<Item>>, db: ItemDb, item: Item)
    requires
        add_ok(bag, db, item),
        find_empty(bag) >= 0,
    ensures
        added(bag, db, item),
{
    if stacks(bag, db, item) {
        lemma_fill(bag, item.def@, db.stack_of(item.def@) as int, item.count as int, bag.len() as int, item.def@);
        lemma_find_empty_same(filled(bag, db, item).0, bag);
    }
}

/// Two bags with the same empty cells have the same first empty cell.
proof fn lemma_find_empty_same(a: Seq<Option<Item>>, b: Seq<Option<Item>>)
    requires
        a.len() == b.len(),
        forall|j: int| 0 <= j < a.len() ==> (#[trigger] a[j] is None <==> b[j] is None),
    ensures
        find_empty(a) == find_empty(b),
    decreases a.len(),
{
    if a.len() > 0 {
        assert forall|j: int| 0 <= j < a.len() - 1 implies (#[trigger] a.drop_last()[j] is None <==> b.drop_last()[j] is None) by {
            assert(a.drop_last()[j] == a[j] && b.drop_last()[j] == b[j]);
        }
        lemma_find_empty_same(a.drop_last(), b.drop_last());
        assert(a.last() is None <==> b.last() is None);
    }
}

proof fn lemma_find_match(bag: Seq<Option<Item>>, id: Seq<char>)
    ensures
        -1 <= find_match(bag, id) < bag.len(),
        find_match(bag, id) >= 0 ==> holds(bag[find_match(bag, id)], id),
        forall|j: int| 0 <= j < bag.len() && (find_match(bag, id) == -1 || j < find_match(bag, id))
            ==> !holds(#[trigger] bag[j], id),
    decreases bag.len(),
{
    if bag.len() > 0 {
        lemma_find_match(bag.drop_last(), id);
        assert forall|j: int| 0 <= j < bag.len() && (find_match(bag, id) == -1 || j < find_match(bag, id))
            implies !holds(#[trigger] bag[j], id) by {
            if j < bag.len() - 1 {
                assert(bag[j] == bag.drop_last()[j]);
            }
        }
    }
}

proof fn lemma_find_empty(bag: Seq<Option<Item>>)
    ensures
        -1 <= find_empty(bag) < bag.len(),
        find_empty(bag) >= 0 ==> bag[find_empty(bag)] is None,
        forall|j: int| 0 <= j < bag.len() && (find_empty(bag) == -1 || j < find_empty(bag))
            ==> #[trigger] bag[j] is Some,
    decreases bag.len(),
{
    if bag.len() > 0 {
        lemma_find_empty(bag.drop_last());
        assert forall|j: int| 0 <= j < bag.len() && (find_empty(bag) == -1 || j < find_empty(bag))
            implies #[trigger] bag[j] is Some by {
            if j < bag.len() - 1 {
                assert(bag[j] == bag.drop_last()[j]);
            }
        }
    }
}

/// A prefix that contains the first match has the same first match.
proof fn lemma_find_match_prefix(bag: Seq<Option<Item>>, id: Seq<char>, i: int)
    requires
        0 <= i < bag.len(),
        find_match(bag.take(i), id) == -1,
    ensures
        find_match(bag.take(i + 1), id) == (if holds(bag[i], id) { i } else { -1 }),
{
    assert(bag.take(i + 1).drop_last() =~= bag.take(i));
}

proof fn lemma_find_empty_prefix(bag: Seq<Option<Item>>, i: int)
    requires
        0 <= i < bag.len(),
        find_empty(bag.take(i)) == -1,
    ensures
        find_empty(bag.take(i + 1)) == (if bag[i] is None { i } else { -1 }),
{
    assert(bag.take(i + 1).drop_last() =~= bag.take(i));
}

/// The first match of a prefix with none is the first match of the whole bag.
proof fn lemma_find_match_extend(bag: Seq<Option<Item>>, id: Seq<char>, i: int)
    requires
        0 <= i <= bag.len(),
        find_match(bag.take(i), id) >= 0,
    ensures
        find_match(bag, id) == find_match(bag.take(i), id),
    decreases bag.len() - i,
{
    if i < bag.len() {
        assert(bag.take(i + 1).drop_last() =~= bag.take(i));
        lemma_find_match_extend(bag, id, i + 1);
    } else {
        assert(bag.take(i) =~= bag);
    }
}

proof fn lemma_find_empty_extend(bag: Seq<Option<Item>>, i: int)
    requires
        0 <= i <= bag.len(),
        find_empty(bag.take(i)) >= 0,
    ensures
        find_empty(bag) == find_empty(bag.take(i)),
    decreases bag.len() - i,
{
    if i < bag.len() {
        assert(bag.take(i + 1).drop_last() =~= bag.take(i));
        lemma_find_empty_extend(bag, i + 1);
    } else {
        assert(bag.take(i) =~= bag);
    }
}

proof fn lemma_count_prefix(bag: Seq<Option<Item>>, id: Seq<char>, i: int)
    requires
        0 <= i < bag.len(),
    ensures
        bag_count(bag.take(i + 1), id) == bag_count(bag.take(i), id) + cell_count(bag[i], id),
{
    assert(bag.take(i + 1).drop_last() =~= bag.take(i));
}

proof fn lemma_count_nonneg(bag: Seq<Option<Item>>, id: Seq<char>)
    ensures
        bag_count(bag, id) >= 0,
    decreases bag.len(),
{
    if bag.len() > 0 {
        lemma_count_nonneg(bag.drop_last(), id);
    }
}

/// Replacing one cell changes the count by the difference of the two cells.
pub proof fn lemma_count_update(bag: Seq<Option<Item>>, id: Seq<char>, k: int, cell: Option<Item>)
    requires
        0 <= k < bag.len(),
    ensures
        bag_count(bag.update(k, cell), id) == bag_count(bag, id) - cell_count(bag[k], id)
            + cell_count(cell, id),
    decreases bag.len(),
{
    let b2 = bag.update(k, cell);
    if k == bag.len() - 1 {
        assert(b2.drop_last() =~= bag.drop_last());
    } else {
        assert(b2.drop_last() =~= bag.drop_last().update(k, cell));
        lemma_count_update(bag.drop_last(), id, k, cell);
    }
}

impl Inventory {
    /// An empty bag and no equipment, at level 1.
    pub fn new() -> (inv: Self)
        ensures
            inv.bag@ == Seq::new(BAG_SIZE as nat, |i: int| None::<Item>),
            inv.equip@ == Seq::new(EQUIP_SLOTS as nat, |i: int| None::<Item>),
            inv.gold == 0,
            inv.level == 1,
            inv.xp == 0,
            inv.points == 0,
            inv.attr == (Attr { str_: 0, agi: 0, vit: 0 }),
            !inv.ui_open,
    {
        let mut bag: Vec<Option<Item>> = Vec::new();
        let mut i: usize = 0;
        while i < BAG_SIZE
            invariant
                i <= BAG_SIZE,
                bag@ == Seq::new(i as nat, |j: int| None::<Item>),
            decreases BAG_SIZE - i,
        {
            bag.push(None);
            i = i + 1;
        }
        let mut equip: Vec<Option<Item>> = Vec::new();
        let mut e: usize = 0;
        while e < EQUIP_SLOTS
            invariant
                e <= EQUIP_SLOTS,
                equip@ == Seq::new(e as nat, |j: int| None::<Item>),
            decreases EQUIP_SLOTS - e,
        {
            equip.push(None);
            e = e + 1;
        }
        Inventory {
            bag,
            equip,
            gold: 0,
            level: 1,
            xp: 0,
            points: 0,
            attr: Attr { str_: 0, agi: 0, vit: 0 },
            ui_open: false,
        }
    }

    /// How many items of `id` the bag holds.
    pub fn count_of(&self, id: &str) -> (n: u16)
        requires
            bag_count(self.bag@, id@) <= u16::MAX,
        ensures
            n == bag_count(self.bag@, id@),
    {
        let mut n: u16 = 0;
        let mut i: usize = 0;
        while i < self.bag.len()
            invariant
                i <= self.bag.len(),
                n == bag_count(self.bag@.take(i as int), id@),
                bag_count(self.bag@, id@) <= u16::MAX,
            decreases self.bag.len() - i,
        {
            proof {
                lemma_count_prefix(self.bag@, id@, i as int);
                lemma_count_prefix_le(self.bag@, id@, i as int + 1);
            }
            match &self.bag[i] {
                Some(it) => {
                    if str_eq(it.def.as_str(), id) {
                        n = n + it.count;
                    }
                },
                None => {},
            }
            i = i + 1;
        }
        proof {
            assert(self.bag@.take(self.bag@.len() as int) =~= self.bag@);
        }
        n
    }

    /// Takes `amount` items of `id` (crafting materials) from the first cells
    /// that hold them; false, with the bag unchanged, when there are too few.
    pub fn take(&mut self, id: &str, amount: u16) -> (ok: bool)
        requires
            bag_count(old(self).bag@, id@) <= u16::MAX,
        ensures
            ok == (bag_count(old(self).bag@, id@) >= amount),
            ok ==> final(self).bag@ == take_bag(old(self).bag@, id@, amount as int),
            !ok ==> final(self).bag@ == old(self).bag@,
            final(self).equip == old(self).equip,
            final(self).gold == old(self).gold,
            final(self).level == old(self).level,
            final(self).xp == old(self).xp,
            final(self).points == old(self).points,
            final(self).attr == old(self).attr,
            final(self).ui_open == old(self).ui_open,
    {
        if self.count_of(id) < amount {
            return false;
        }
        take_in(&mut self.bag, id, amount)
    }

    /// Equips the item in bag cell `idx`; what was in its slot goes back into
    /// the bag (and if it cannot, both stay where they were).
    pub fn equip_from_bag(&mut self, idx: usize, db: &ItemDb) -> (ok: bool)
        requires
            old(self).equip@.len() == EQUIP_SLOTS,
            equip_ok(old(self).bag@, old(self).equip@, *db, idx as int),
        ensures
            ok == (idx < old(self).bag@.len() && old(self).bag@[idx as int] is Some),
            ok ==> {
                let ei = slot_for(*db, old(self).bag@, idx as int);
                let b1 = old(self).bag@.update(idx as int, None);
                &&& final(self).equip@ == old(self).equip@.update(ei, old(self).bag@[idx as int])
                &&& final(self).bag@ == match old(self).equip@[ei] {
                    Some(o) => add_bag(b1, *db, o),
                    None => b1,
                }
            },
            !ok ==> final(self).bag@ == old(self).bag@ && final(self).equip@ == old(self).equip@,
            final(self).gold == old(self).gold,
            final(self).level == old(self).level,
            final(self).xp == old(self).xp,
            final(self).points == old(self).points,
            final(self).attr == old(self).attr,
            final(self).ui_open == old(self).ui_open,
    {
        if idx >= self.bag.len() || self.bag[idx].is_none() {
            return false;
        }
        let ghost bag0 = self.bag@;
        let ghost equip0 = self.equip@;
        let ei = match &self.bag[idx] {
            Some(it) => db.def(it.def.as_str()).slot.equip_index(),
            None => 0,
        };
        let mut prev: Option<Item> = None;
        std::mem::swap(&mut prev, &mut self.equip[ei]);
        let mut cur: Option<Item> = None;
        std::mem::swap(&mut cur, &mut self.bag[idx]);
        self.equip.set(ei, cur);
        proof {
            assert(self.bag@ == bag0.update(idx as int, None));
            lemma_room_after_removal(self.bag@, idx as int);
            if equip0[ei as int] is Some {
                lemma_added_with_room(self.bag@, *db, equip0[ei as int]->0);
            }
        }
        match prev {
            Some(o) => {
                match place_in(&mut self.bag, o, db) {
                    None => true,
                    Some(o) => {
                        let mut back: Option<Item> = None;
                        std::mem::swap(&mut back, &mut self.equip[ei]);
                        self.bag.set(idx, back);
                        self.equip.set(ei, Some(o));
                        proof {
                            assert(self.bag@ =~= bag0);
                            assert(self.equip@ =~= equip0);
                        }
                        false
                    },
                }
            },
            None => true,
        }
    }

    /// Moves the item in equipment slot `ei` into the bag; false when the slot is
    /// empty or the bag has no room, and then what did not fit stays in the slot.
    pub fn unequip(&mut self, ei: usize, db: &ItemDb) -> (ok: bool)
        requires
            ei < old(self).equip@.len(),
            old(self).equip@[ei as int] is Some ==> add_ok(old(self).bag@, *db, old(self).equip@[ei as int]->0),
        ensures
            ok == (old(self).equip@[ei as int] is Some && added(old(self).bag@, *db, old(self).equip@[ei as int]->0)),
            ok ==> final(self).bag@ == add_bag(old(self).bag@, *db, old(self).equip@[ei as int]->0)
                && final(self).equip@ == old(self).equip@.update(ei as int, None),
            !ok && old(self).equip@[ei as int] is Some ==> final(self).bag@ == add_bag(old(self).bag@, *db, old(self).equip@[ei as int]->0)
                && final(self).equip@ == old(self).equip@.update(ei as int, Some(add_rest(old(self).bag@, *db, old(self).equip@[ei as int]->0))),
            old(self).equip@[ei as int] is None ==> final(self).bag@ == old(self).bag@ && final(self).equip@ == old(self).equip@,
            final(self).gold == old(self).gold,
            final(self).level == old(self).level,
            final(self).xp == old(self).xp,
            final(self).points == old(self).points,
            final(self).attr == old(self).attr,
            final(self).ui_open == old(self).ui_open,
    {
        let ghost equip0 = self.equip@;
        let mut cell: Option<Item> = None;
        std::mem::swap(&mut cell, &mut self.equip[ei]);
        match cell {
            None => {
                proof {
                    assert(self.equip@ =~= equip0);
                }
                false
            },
            Some(item) => {
                match place_in(&mut self.bag, item, db) {
                    None => true,
                    Some(item) => {
                        self.equip.set(ei, Some(item));
                        proof {
                            assert(self.equip@ =~= equip0.update(ei as int, Some(item)));
                        }
                        false
                    },
                }
            },
        }
    }

    /// Crafts recipe `ri`: when the bag holds every cost, pays them and adds the
    /// product. `rolled` are the affixes rolled for the product; they are used
    /// only when the product does not stack.
    pub fn craft(&mut self, ri: usize, db: &ItemDb, rolled: Vec<Affix>) -> (ok: bool)
        requires
            craft_ok(old(self).bag@, *db, ri as int, rolled),
        ensures
            ({
                let can = ri < db.recipes@.len() && costs_met(old(self).bag@, db.recipes@[ri as int].cost@);
                let r = db.recipes@[ri as int];
                let paid = pay_costs(old(self).bag@, r.cost@, r.cost@.len() as int);
                &&& !can ==> !ok && final(self).bag@ == old(self).bag@
                &&& can ==> exists|made: Item| #[trigger] is_crafted(*db, r, rolled, made)
                    && ok == added(paid, *db, made)
                    && final(self).bag@ == add_bag(paid, *db, made)
            }),
            final(self).equip == old(self).equip,
            final(self).gold == old(self).gold,
            final(self).level == old(self).level,
            final(self).xp == old(self).xp,
            final(self).points == old(self).points,
            final(self).attr == old(self).attr,
            final(self).ui_open == old(self).ui_open,
    {
        if ri >= db.recipes.len() {
            return false;
        }
        let r = &db.recipes[ri];
        let ghost bag0 = self.bag@;
        let mut j: usize = 0;
        while j < r.cost.len()
            invariant
                self.bag@ == bag0,
                *r == db.recipes@[ri as int],
                craft_ok(bag0, *db, ri as int, rolled),
                ri < db.recipes@.len(),
                j <= r.cost@.len(),
                costs_met_upto(bag0, r.cost@, j as int),
            decreases r.cost.len() - j,
        {
            assert(bag_count(bag0, r.cost@[j as int].0@) <= u16::MAX);
            if self.count_of(r.cost[j].0.as_str()) < r.cost[j].1 {
                return false;
            }
            j = j + 1;
        }
        let mut j: usize = 0;
        while j < r.cost.len()
            invariant
                *r == db.recipes@[ri as int],
                ri < db.recipes@.len(),
                costs_met(bag0, r.cost@),
                craft_ok(bag0, *db, ri as int, rolled),
                j <= r.cost@.len(),
                self.bag@ == pay_costs(bag0, r.cost@, j as int),
                self.equip == old(self).equip,
                self.gold == old(self).gold,
                self.level == old(self).level,
                self.xp == old(self).xp,
                self.points == old(self).points,
                self.attr == old(self).attr,
                self.ui_open == old(self).ui_open,
            decreases r.cost.len() - j,
        {
            proof {
                lemma_pay_costs_le(bag0, r.cost@, j as int, r.cost@[j as int].0@);
                assert(bag_count(bag0, r.cost@[j as int].0@) >= r.cost@[j as int].1);
                assert(costs_met_upto(bag0, r.cost@, j as int));
                assert(bag_count(bag0, r.cost@[j as int].0@) <= u16::MAX);
            }
            self.take(r.cost[j].0.as_str(), r.cost[j].1);
            j = j + 1;
        }
        let d = db.def(r.out.as_str());
        let item = if d.stack > 1 {
            Item { def: r.out.clone(), count: r.count, affixes: Vec::new() }
        } else {
            Item { def: r.out.clone(), count: 1, affixes: rolled }
        };
        let ghost made = item;
        assert(is_crafted(*db, *r, rolled, made));
        self.add(item, db)
    }

    /// Uses one item of `id` from the first cell holding it (the bag half of
    /// drinking a potion); false when the bag holds none.
    pub fn consume_one(&mut self, id: &str) -> (ok: bool)
        ensures
            ok == (find_match(old(self).bag@, id@) >= 0),
            ok ==> {
                let k = find_match(old(self).bag@, id@);
                let it = old(self).bag@[k]->0;
                final(self).bag@ == old(self).bag@.update(
                    k,
                    if it.count > 1 { Some(with_count(it, (it.count - 1) as u16)) } else { None },
                )
            },
            !ok ==> final(self).bag@ == old(self).bag@,
            final(self).equip == old(self).equip,
            final(self).gold == old(self).gold,
            final(self).level == old(self).level,
            final(self).xp == old(self).xp,
            final(self).points == old(self).points,
            final(self).attr == old(self).attr,
            final(self).ui_open == old(self).ui_open,
    {
        consume_in(&mut self.bag, id)
    }

    /// Puts the item in the bag: onto the first stack of the same kind when it
    /// stacks, else into the first empty cell. False when the bag is full.
    pub fn add(&mut self, item: Item, db: &ItemDb) -> (ok: bool)
        requires
            add_ok(old(self).bag@, *db, item),
        ensures
            ok == added(old(self).bag@, *db, item),
            final(self).bag@ == add_bag(old(self).bag@, *db, item),
            final(self).equip == old(self).equip,
            final(self).gold == old(self).gold,
            final(self).level == old(self).level,
            final(self).xp == old(self).xp,
            final(self).points == old(self).points,
            final(self).attr == old(self).attr,
            final(self).ui_open == old(self).ui_open,
    {
        let back = place_in(&mut self.bag, item, db);
        back.is_none()
    }
}

/// Puts the item in the bag: tops up its stacks, then puts the rest in the first
/// empty cell; hands back what found no room.
fn place_in(bag: &mut Vec<Option<Item>>, item: Item, db: &ItemDb) -> (back: Option<Item>)
    requires
        add_ok(old(bag)@, *db, item),
    ensures
        final(bag)@ == add_bag(old(bag)@, *db, item),
        back == (if added(old(bag)@, *db, item) { None } else { Some(add_rest(old(bag)@, *db, item)) }),
{
    let ghost bag0 = bag@;
    let ghost id = item.def@;
    proof {
        lemma_find_match(bag0, id);
        lemma_find_empty(bag0);
    }
    let stack = db.def(item.def.as_str()).stack;
    if stack > 1 {
        let mut rem: u16 = item.count;
        let mut found = false;
        let mut i: usize = 0;
        while i < bag.len()
            invariant
                bag0 == old(bag)@,
                id == item.def@,
                stack == db.stack_of(id),
                stack > 1,
                add_ok(bag0, *db, item),
                i <= bag0.len(),
                bag@ == fill_upto(bag0, id, stack as int, item.count as int, i as int).0,
                rem == fill_upto(bag0, id, stack as int, item.count as int, i as int).1,
                found <==> exists|j: int| 0 <= j < i && holds(#[trigger] bag0[j], id),
            decreases bag0.len() - i,
        {
            proof {
                lemma_fill(bag0, id, stack as int, item.count as int, i as int, id);
                assert(bag@[i as int] == bag0[i as int]);
            }
            let hit = match &bag[i] {
                Some(s) => str_eq(s.def.as_str(), item.def.as_str()),
                None => false,
            };
            if hit {
                found = true;
                if rem > 0 {
                    let mut cell: Option<Item> = None;
                    std::mem::swap(&mut cell, &mut bag[i]);
                    let mut s = cell.unwrap();
                    let mv = if stack - s.count < rem { stack - s.count } else { rem };
                    s.count = s.count + mv;
                    bag.set(i, Some(s));
                    rem = rem - mv;
                }
            }
            proof {
                assert(holds(bag0[i as int], id) == hit);
            }
            i = i + 1;
        }
        proof {
            lemma_fill(bag0, id, stack as int, item.count as int, i as int, id);
            assert(i == bag0.len());
            assert(filled(bag0, *db, item) == fill_upto(bag0, id, stack as int, item.count as int, i as int));
            if !found {
                if find_match(bag0, id) >= 0 {
                    assert(holds(bag0[find_match(bag0, id)], id));
                }
                assert(find_match(bag0, id) == -1);
            } else {
                let w = choose|j: int| 0 <= j < bag0.len() && holds(#[trigger] bag0[j], id);
                assert(holds(bag0[w], id));
                assert(find_match(bag0, id) >= 0);
            }
        }
        if found {
            if rem == 0 {
                return None;
            }
            let ghost b = bag@;
            proof {
                lemma_find_empty(b);
            }
            let mut rest = item;
            rest.count = rem;
            proof {
                assert(rest == with_count(item, rem));
                assert(stacks(bag0, *db, item));
            }
            let mut j: usize = 0;
            while j < bag.len()
                invariant
                    bag@ == b,
                    bag0 == old(bag)@,
                    add_bag(bag0, *db, item) == (if find_empty(b) >= 0 { b.update(find_empty(b), Some(rest)) } else { b }),
                    added(bag0, *db, item) == (find_empty(b) >= 0),
                    add_rest(bag0, *db, item) == rest,
                    j <= b.len(),
                    find_empty(b.take(j as int)) == -1,
                decreases b.len() - j,
            {
                proof {
                    lemma_find_empty_prefix(b, j as int);
                }
                if bag[j].is_none() {
                    proof {
                        lemma_find_empty_extend(b, j as int + 1);
                        assert(find_empty(b) == j);
                    }
                    bag.set(j, Some(rest));
                    return None;
                }
                j = j + 1;
            }
            proof {
                assert(b.take(b.len() as int) =~= b);
            }
            return Some(rest);
        }
    }
    proof {
        if stack > 1 {
            assert(!stacks(bag0, *db, item));
        }
    }
    assert(!stacks(bag0, *db, item));
    let mut j: usize = 0;
    while j < bag.len()
        invariant
            bag@ == bag0,
            bag0 == old(bag)@,
            !stacks(bag0, *db, item),
            j <= bag0.len(),
            find_empty(bag0.take(j as int)) == -1,
        decreases bag.len() - j,
    {
        proof {
            lemma_find_empty_prefix(bag0, j as int);
        }
        if bag[j].is_none() {
            proof {
                lemma_find_empty_extend(bag0, j as int + 1);
            }
            bag.set(j, Some(item));
            return None;
        }
        j = j + 1;
    }
    proof {
        assert(bag0.take(bag0.len() as int) =~= bag0);
    }
    Some(item)
}

/// Taking `amount` items of `id` from the bag, cell by cell from the front,
/// after the first `i` cells: the bag so far, how many are still to take, and
/// whether the taking has stopped because nothing is left to take.
pub open spec fn take_upto(bag: Seq<Option<Item>>, id: Seq<char>, amount: int, i: int) -> (Seq<Option<Item>>, int, bool)
    decreases i,
{
    if i <= 0 {
        (bag, amount, false)
    } else {
        let prev = take_upto(bag, id, amount, i - 1);
        let b = prev.0;
        let left = prev.1;
        if prev.2 || !holds(b[i - 1], id) {
            prev
        } else {
            let it = b[i - 1]->0;
            let t = if (it.count as int) < left { it.count as int } else { left };
            let c = it.count - t;
            let cell = if c == 0 { None } else { Some(with_count(it, c as u16)) };
            (b.update(i - 1, cell), left - t, left - t == 0)
        }
    }
}

/// The bag after taking `amount` items of `id`: the first cells holding `id`
/// give up their items in order, and a cell left with none becomes empty.
pub open spec fn take_bag(bag: Seq<Option<Item>>, id: Seq<char>, amount: int) -> Seq<Option<Item>> {
    take_upto(bag, id, amount, bag.len() as int).0
}

proof fn lemma_take_upto(bag: Seq<Option<Item>>, id: Seq<char>, amount: int, i: int)
    requires
        0 <= i <= bag.len(),
        0 <= amount,
    ensures
        take_upto(bag, id, amount, i).0.len() == bag.len(),
        forall|j: int| i <= j < bag.len() ==> #[trigger] take_upto(bag, id, amount, i).0[j] == bag[j],
        0 <= take_upto(bag, id, amount, i).1 <= amount,
        bag_count(take_upto(bag, id, amount, i).0, id) == bag_count(bag, id) - (amount - take_upto(bag, id, amount, i).1),
        take_upto(bag, id, amount, i).2 ==> take_upto(bag, id, amount, i).1 == 0,
        !take_upto(bag, id, amount, i).2 ==> take_upto(bag, id, amount, i).1 == amount - bag_count(bag.take(i), id),
    decreases i,
{
    if i > 0 {
        lemma_take_upto(bag, id, amount, i - 1);
        lemma_count_prefix(bag, id, i - 1);
        let prev = take_upto(bag, id, amount, i - 1);
        let b = prev.0;
        if !prev.2 && holds(b[i - 1], id) {
            let it = b[i - 1]->0;
            let t = if (it.count as int) < prev.1 { it.count as int } else { prev.1 };
            let c = it.count - t;
            let cell = if c == 0 { None } else { Some(with_count(it, c as u16)) };
            lemma_count_update(b, id, i - 1, cell);
        }
    } else {
        assert(bag.take(0) =~= Seq::<Option<Item>>::empty());
    }
}

/// Taking items of `id` leaves every other kind as it was.
proof fn lemma_take_other(bag: Seq<Option<Item>>, id: Seq<char>, amount: int, i: int, other: Seq<char>)
    requires
        0 <= i <= bag.len(),
        other != id,
    ensures
        bag_count(take_upto(bag, id, amount, i).0, other) == bag_count(bag, other),
    decreases i,
{
    if i > 0 {
        lemma_take_other(bag, id, amount, i - 1, other);
        let prev = take_upto(bag, id, amount, i - 1);
        let b = prev.0;
        if !prev.2 && holds(b[i - 1], id) {
            let it = b[i - 1]->0;
            let t = if (it.count as int) < prev.1 { it.count as int } else { prev.1 };
            let c = it.count - t;
            let cell = if c == 0 { None } else { Some(with_count(it, c as u16)) };
            lemma_take_len(bag, id, amount, i - 1);
            lemma_count_update(b, other, i - 1, cell);
        }
    }
}

proof fn lemma_take_len(bag: Seq<Option<Item>>, id: Seq<char>, amount: int, i: int)
    requires
        0 <= i <= bag.len(),
    ensures
        take_upto(bag, id, amount, i).0.len() == bag.len(),
    decreases i,
{
    if i > 0 {
        lemma_take_len(bag, id, amount, i - 1);
    }
}

/// Once the taking has stopped, later cells are left as they are.
proof fn lemma_take_done(bag: Seq<Option<Item>>, id: Seq<char>, amount: int, i: int, n: int)
    requires
        0 <= i <= n,
        take_upto(bag, id, amount, i).2,
    ensures
        take_upto(bag, id, amount, n) == take_upto(bag, id, amount, i),
    decreases n - i,
{
    if n > i {
        lemma_take_done(bag, id, amount, i, n - 1);
    }
}

/// Taking succeeds exactly when the bag holds enough, and then removes exactly
/// `amount` items of `id` and no item of any other kind.
pub proof fn law_take_removes(bag: Seq<Option<Item>>, id: Seq<char>, amount: u16, other: Seq<char>)
    requires
        bag_count(bag, id) >= amount,
        other != id,
    ensures
        bag_count(take_bag(bag, id, amount as int), id) == bag_count(bag, id) - amount,
        bag_count(take_bag(bag, id, amount as int), other) == bag_count(bag, other),
        take_bag(bag, id, amount as int).len() == bag.len(),
{
    lemma_take_upto(bag, id, amount as int, bag.len() as int);
    lemma_take_other(bag, id, amount as int, bag.len() as int, other);
    assert(bag.take(bag.len() as int) =~= bag);
}

fn take_in(bag: &mut Vec<Option<Item>>, id: &str, amount: u16) -> (ok: bool)
    requires
        bag_count(old(bag)@, id@) >= amount,
    ensures
        ok,
        final(bag)@ == take_bag(old(bag)@, id@, amount as int),
{
    let ghost bag0 = bag@;
    let mut left: u16 = amount;
    let mut i: usize = 0;
    while i < bag.len()
        invariant
            bag0 == old(bag)@,
            bag_count(bag0, id@) >= amount,
            i <= bag0.len(),
            bag@.len() == bag0.len(),
            take_upto(bag0, id@, amount as int, i as int) == (bag@, left as int, false),
        decreases bag.len() - i,
    {
        proof {
            lemma_take_upto(bag0, id@, amount as int, i as int);
        }
        let hit = match &bag[i] {
            Some(it) => str_eq(it.def.as_str(), id),
            None => false,
        };
        if hit {
            let mut cell: Option<Item> = None;
            std::mem::swap(&mut cell, &mut bag[i]);
            let mut it = cell.unwrap();
            let t = if it.count < left { it.count } else { left };
            it.count = it.count - t;
            left = left - t;
            if it.count == 0 {
                bag.set(i, None);
            } else {
                bag.set(i, Some(it));
            }
            if left == 0 {
                proof {
                    lemma_take_done(bag0, id@, amount as int, i as int + 1, bag0.len() as int);
                }
                return true;
            }
        }
        i = i + 1;
    }
    proof {
        lemma_take_upto(bag0, id@, amount as int, bag0.len() as int);
        assert(bag0.take(bag0.len() as int) =~= bag0);
    }
    left == 0
}

/// Add's law: a successful add puts exactly `item.count` more items of its kind
/// in the bag, a failed one all but what it hands back, and neither changes any
/// other kind; a failed add that had no stacks to top up changes nothing.
pub proof fn law_add_counts(bag: Seq<Option<Item>>, db: ItemDb, item: Item, other: Seq<char>)
    requires
        add_ok(bag, db, item),
        other != item.def@,
    ensures
        add_bag(bag, db, item).len() == bag.len(),
        added(bag, db, item) ==> bag_count(add_bag(bag, db, item), item.def@) == bag_count(bag, item.def@)
            + item.count,
        !added(bag, db, item) ==> bag_count(add_bag(bag, db, item), item.def@) == bag_count(bag, item.def@)
            + item.count - add_rest(bag, db, item).count,
        bag_count(add_bag(bag, db, item), other) == bag_count(bag, other),
        !added(bag, db, item) && !stacks(bag, db, item) ==> add_bag(bag, db, item) == bag,
{
    let id = item.def@;
    lemma_find_match(bag, id);
    lemma_find_empty(bag);
    if stacks(bag, db, item) {
        let stack = db.stack_of(id) as int;
        lemma_fill(bag, id, stack, item.count as int, bag.len() as int, other);
        let (b, r) = filled(bag, db, item);
        lemma_find_empty(b);
        if r != 0 && find_empty(b) >= 0 {
            let cell = Some(with_count(item, r as u16));
            lemma_count_update(b, id, find_empty(b), cell);
            lemma_count_update(b, other, find_empty(b), cell);
        }
    } else if find_empty(bag) >= 0 {
        lemma_count_update(bag, id, find_empty(bag), Some(item));
        lemma_count_update(bag, other, find_empty(bag), Some(item));
    }
}

/// A bag with an empty cell always takes an item that does not stack.
proof fn lemma_room_after_removal(bag: Seq<Option<Item>>, idx: int)
    requires
        0 <= idx < bag.len(),
        bag[idx] is None,
    ensures
        find_empty(bag) >= 0,
{
    lemma_find_empty(bag);
}

/// Equipment slot of the item in a bag cell.
pub open spec fn slot_for(db: ItemDb, bag: Seq<Option<Item>>, idx: int) -> int {
    slot_index(db.def_of(bag[idx]->0.def@).slot)
}

/// The inputs on which `equip_from_bag` returns: the item's kind is known, and
/// the item it replaces can go back into the bag.
pub open spec fn equip_ok(bag: Seq<Option<Item>>, equip: Seq<Option<Item>>, db: ItemDb, idx: int) -> bool {
    0 <= idx < bag.len() && bag[idx] is Some ==> {
        &&& db.knows(bag[idx]->0.def@)
        &&& equip[slot_for(db, bag, idx)] is Some ==> add_ok(
            bag.update(idx, None),
            db,
            equip[slot_for(db, bag, idx)]->0,
        )
    }
}

/// The total still to pay for a recipe's costs before cost `j` is reached.
pub open spec fn costs_met_upto(bag: Seq<Option<Item>>, costs: Seq<(String, u16)>, j: int) -> bool {
    forall|k: int| 0 <= k < j ==> bag_count(bag, (#[trigger] costs[k]).0@) >= costs[k].1
}

/// Whether the bag holds every cost of a recipe.
pub open spec fn costs_met(bag: Seq<Option<Item>>, costs: Seq<(String, u16)>) -> bool {
    costs_met_upto(bag, costs, costs.len() as int)
}

/// The bag after paying the first `j` costs one after another (a cost that can
/// no longer be paid is skipped).
pub open spec fn pay_costs(bag: Seq<Option<Item>>, costs: Seq<(String, u16)>, j: int) -> Seq<Option<Item>>
    decreases j,
{
    if j <= 0 {
        bag
    } else {
        let b = pay_costs(bag, costs, j - 1);
        let c = costs[j - 1];
        if bag_count(b, c.0@) >= c.1 {
            take_bag(b, c.0@, c.1 as int)
        } else {
            b
        }
    }
}

/// Whether `made` is the item a recipe makes: a stack of the recipe's count
/// with no affixes when its kind stacks, else one piece carrying the rolled affixes.
pub open spec fn is_crafted(db: ItemDb, r: Recipe, rolled: Vec<Affix>, made: Item) -> bool {
    &&& made.def@ == r.out@
    &&& if db.stack_of(r.out@) > 1 {
        made.count == r.count && made.affixes@.len() == 0
    } else {
        made.count == 1 && made.affixes == rolled
    }
}

/// Paying costs never raises the count of any kind.
proof fn lemma_pay_costs_le(bag: Seq<Option<Item>>, costs: Seq<(String, u16)>, j: int, id: Seq<char>)
    requires
        0 <= j <= costs.len(),
    ensures
        bag_count(pay_costs(bag, costs, j), id) <= bag_count(bag, id),
        pay_costs(bag, costs, j).len() == bag.len(),
    decreases j,
{
    if j > 0 {
        lemma_pay_costs_le(bag, costs, j - 1, id);
        let b = pay_costs(bag, costs, j - 1);
        let c = costs[j - 1];
        if bag_count(b, c.0@) >= c.1 {
            lemma_take_upto(b, c.0@, c.1 as int, b.len() as int);
            if id != c.0@ {
                lemma_take_other(b, c.0@, c.1 as int, b.len() as int, id);
            }
        }
    }
}

/// The inputs on which `craft` returns: every count it reads fits in `u16`, and
/// when the costs are met the product is a known kind that `add` can place.
pub open spec fn craft_ok(bag: Seq<Option<Item>>, db: ItemDb, ri: int, rolled: Vec<Affix>) -> bool {
    0 <= ri < db.recipes@.len() ==> {
        let r = db.recipes@[ri];
        &&& forall|j: int| 0 <= j < r.cost@.len() && costs_met_upto(bag, r.cost@, j)
            ==> bag_count(bag, (#[trigger] r.cost@[j]).0@) <= u16::MAX
        &&& costs_met(bag, r.cost@) ==> db.knows(r.out@)
        &&& costs_met(bag, r.cost@) ==> forall|made: Item| #[trigger] is_crafted(db, r, rolled, made)
            ==> add_ok(pay_costs(bag, r.cost@, r.cost@.len() as int), db, made)
    }
}

fn consume_in(bag: &mut Vec<Option<Item>>, id: &str) -> (ok: bool)
    ensures
        ok == (find_match(old(bag)@, id@) >= 0),
        ok ==> {
            let k = find_match(old(bag)@, id@);
            let it = old(bag)@[k]->0;
            final(bag)@ == old(bag)@.update(
                k,
                if it.count > 1 { Some(with_count(it, (it.count - 1) as u16)) } else { None },
            )
        },
        !ok ==> final(bag)@ == old(bag)@,
{
    let ghost bag0 = bag@;
    proof {
        lemma_find_match(bag0, id@);
    }
    let mut i: usize = 0;
    while i < bag.len()
        invariant
            bag@ == bag0,
            bag0 == old(bag)@,
            i <= bag0.len(),
            find_match(bag0.take(i as int), id@) == -1,
        decreases bag.len() - i,
    {
        proof {
            lemma_find_match_prefix(bag0, id@, i as int);
        }
        let hit = match &bag[i] {
            Some(s) => str_eq(s.def.as_str(), id),
            None => false,
        };
        if hit {
            proof {
                lemma_find_match_extend(bag0, id@, i as int + 1);
            }
            let mut cell: Option<Item> = None;
            std::mem::swap(&mut cell, &mut bag[i]);
            let mut it = cell.unwrap();
            if it.count > 1 {
                it.count = it.count - 1;
                bag.set(i, Some(it));
            } else {
                bag.set(i, None);
            }
            return true;
        }
        i = i + 1;
    }
    proof {
        assert(bag0.take(bag0.len() as int) =~= bag0);
    }
    false
}

/// The weights of a prefix add up to no more than the whole.
proof fn lemma_weight_prefix(pool: Seq<LootEntry>, q: int)
    requires
        0 <= q <= pool.len(),
    ensures
        weight_sum(pool.take(q)) <= weight_sum(pool),
    decreases pool.len() - q,
{
    if q < pool.len() {
        assert(pool.take(q + 1).drop_last() =~= pool.take(q));
        lemma_weight_prefix(pool, q + 1);
    } else {
        assert(pool.take(q) =~= pool);
    }
}

/// The entries that pass are some of the table's, so their weights add up to no
/// more than the table's.
proof fn lemma_weight_sub(entries: Seq<LootEntry>, r: u64, j: int)
    requires
        0 <= j <= entries.len(),
    ensures
        weight_sum(passing(entries, r, j).0) <= weight_sum(entries.take(j)),
    decreases j,
{
    if j > 0 {
        lemma_weight_sub(entries, r, j - 1);
        assert(entries.take(j).drop_last() =~= entries.take(j - 1));
        let p = passing(entries, r, j - 1);
        let (r1, ok) = chance_next(p.1, entries[j - 1].chance);
        if ok {
            assert(p.0.push(entries[j - 1]).drop_last() =~= p.0);
        }
    }
}

/// A prefix holds no more items of `id` than the whole bag.
proof fn lemma_count_prefix_le(bag: Seq<Option<Item>>, id: Seq<char>, i: int)
    requires
        0 <= i <= bag.len(),
    ensures
        bag_count(bag.take(i), id) <= bag_count(bag, id),
    decreases bag.len() - i,
{
    if i < bag.len() {
        lemma_count_prefix(bag, id, i);
        lemma_count_prefix_le(bag, id, i + 1);
    } else {
        assert(bag.take(i) =~= bag);
    }
}

} // verus!
