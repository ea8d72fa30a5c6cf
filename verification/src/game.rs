//! Game-side data: item rarities, equipment slots and stats, monster kinds and elite
//! traits, tools, path-finding cell keys, the material palette, and small state records.
use vstd::prelude::*;
use crate::input::Action;
use crate::materials::Materials;

verus! {

/// Item rarity (white, blue, gold, green, unique).
#[derive(Clone, Copy, Debug, PartialEq, Eq, Structural)]
pub enum Rarity {
    Common,
    Magic,
    Rare,
    Masterwork,
    Legendary,
}

/// Display name of a rarity.
pub open spec fn rarity_name(x: Rarity) -> Seq<char> {
    match x {
        Rarity::Common => "普通"@,
        Rarity::Magic => "魔法"@,
        Rarity::Rare => "稀有"@,
        Rarity::Masterwork => "杰作"@,
        Rarity::Legendary => "传奇"@,
    }
}

impl Rarity {
    /// Display name.
    pub fn name(self) -> (r: &'static str)
        ensures
            r@ == rarity_name(self),
    {
        match self {
            Rarity::Common => "普通",
            Rarity::Magic => "魔法",
            Rarity::Rare => "稀有",
            Rarity::Masterwork => "杰作",
            Rarity::Legendary => "传奇",
        }
    }
}

/// Equipment slot.
#[derive(Clone, Copy, Debug, PartialEq, Eq, Structural)]
pub enum Slot {
    Weapon,
    Head,
    Chest,
    Legs,
    Trinket,
}

/// Display name of a slot.
pub open spec fn slot_name(x: Slot) -> Seq<char> {
    match x {
        Slot::Weapon => "武器"@,
        Slot::Head => "头盔"@,
        Slot::Chest => "胸甲"@,
        Slot::Legs => "护腿"@,
        Slot::Trinket => "饰品"@,
    }
}

/// Position of a slot in the equipment array.
pub open spec fn slot_index(x: Slot) -> int {
    match x {
        Slot::Weapon => 0,
        Slot::Head => 1,
        Slot::Chest => 2,
        Slot::Legs => 3,
        Slot::Trinket => 4,
    }
}

impl Slot {
    /// Display name.
    pub fn name(self) -> (r: &'static str)
        ensures
            r@ == slot_name(self),
    {
        match self {
            Slot::Weapon => "武器",
            Slot::Head => "头盔",
            Slot::Chest => "胸甲",
            Slot::Legs => "护腿",
            Slot::Trinket => "饰品",
        }
    }

    /// Position in the equipment array (weapon, head, chest, legs, trinket).
    pub fn equip_index(self) -> (r: usize)
        ensures
            r == slot_index(self),
            r < 5,
    {
        match self {
            Slot::Weapon => 0,
            Slot::Head => 1,
            Slot::Chest => 2,
            Slot::Legs => 3,
            Slot::Trinket => 4,
        }
    }
}

/// Label of an equipment slot in the inventory panel.
pub fn slot_label(s: Slot) -> (r: &'static str)
    ensures
        r@ == slot_name(s),
{
    s.name()
}

/// Affix and aggregate stat kinds.
#[derive(Clone, Copy, Debug, PartialEq, Eq, Structural)]
pub enum Stat {
    DmgFlat,
    DmgPct,
    Armor,
    MaxHp,
    MovePct,
    AtkPct,
    Crit,
    CritDmg,
}

/// Display name of a stat.
pub open spec fn stat_name(x: Stat) -> Seq<char> {
    match x {
        Stat::DmgFlat => "伤害"@,
        Stat::DmgPct => "伤害%"@,
        Stat::Armor => "护甲"@,
        Stat::MaxHp => "生命"@,
        Stat::MovePct => "移速%"@,
        Stat::AtkPct => "攻速%"@,
        Stat::Crit => "暴击率%"@,
        Stat::CritDmg => "暴击伤害%"@,
    }
}

impl Stat {
    /// Display name.
    pub fn name(self) -> (r: &'static str)
        ensures
            r@ == stat_name(self),
    {
        match self {
            Stat::DmgFlat => "伤害",
            Stat::DmgPct => "伤害%",
            Stat::Armor => "护甲",
            Stat::MaxHp => "生命",
            Stat::MovePct => "移速%",
            Stat::AtkPct => "攻速%",
            Stat::Crit => "暴击率%",
            Stat::CritDmg => "暴击伤害%",
        }
    }
}

/// Points spent on attributes.
#[derive(Clone, Copy, Debug, Default)]
pub struct Attr {
    pub str_: u8,
    pub agi: u8,
    pub vit: u8,
}

/// A crafting recipe: what it makes, how many, and what it costs (item id, count).
#[derive(Clone, Debug)]
pub struct Recipe {
    pub out: String,
    pub count: u16,
    pub cost: Vec<(String, u16)>,
}

/// Monster kind.
#[derive(Clone, Copy, Debug, PartialEq, Eq, Structural)]
pub enum Kind {
    /// Hops on the ground, hurts on contact.
    Slime,
    /// Flies straight at the player.
    Bat,
    /// Keeps its distance and shoots.
    Archer,
    /// Slow, sturdy melee.
    Zombie,
    /// Fast, frail melee.
    Hound,
    /// Several phases.
    Boss,
}

/// Monster behaviour state.
#[derive(Clone, Copy, Debug, PartialEq, Eq, Structural)]
pub enum AiState {
    Patrol,
    Chase,
    Flee,
}

/// Elite trait of a monster.
#[derive(Clone, Copy, Debug, PartialEq, Eq, Structural)]
pub enum Elite {
    /// Moves faster.
    Swift,
    /// Much more health.
    Tank,
    /// Faster and harder-hitting when hurt.
    Berserk,
}

/// Display name of an elite trait.
pub open spec fn elite_name(x: Elite) -> Seq<char> {
    match x {
        Elite::Swift => "迅捷"@,
        Elite::Tank => "坚韧"@,
        Elite::Berserk => "狂暴"@,
    }
}

impl Elite {
    /// Display name.
    pub fn name(self) -> (r: &'static str)
        ensures
            r@ == elite_name(self),
    {
        match self {
            Elite::Swift => "迅捷",
            Elite::Tank => "坚韧",
            Elite::Berserk => "狂暴",
        }
    }
}

/// The loot table a slain monster rolls: bosses, elites and the rest each
/// have their own.
pub fn loot_table(boss: bool, elite: Option<Elite>) -> (r: &'static str)
    ensures
        r@ == (if boss { "boss_loot"@ } else if elite is Some { "elite_loot"@ } else { "monster_loot"@ }),
{
    if boss {
        "boss_loot"
    } else if elite.is_some() {
        "elite_loot"
    } else {
        "monster_loot"
    }
}

/// What an NPC is doing (with frames left where it counts down).
#[derive(Clone, Copy, Debug, PartialEq, Eq, Structural)]
pub enum NpcState {
    Idle,
    SeekWater,
    Drink(u16),
    SeekFood,
    Eat(u16),
    Sleep,
    Work,
}

/// Kind of projectile.
#[derive(Clone, Copy, Debug, PartialEq, Eq, Structural)]
pub enum ProjKind {
    Arrow,
    Fireball,
}

/// Phase of an attack action.
#[derive(Clone, Copy, Debug, PartialEq, Eq, Structural)]
pub enum Phase {
    Windup,
    Active,
    Recovery,
}

/// Sound effects.
#[derive(Clone, Copy, Debug, PartialEq, Eq, Structural, Hash)]
pub enum Sfx {
    Jump,
    Swing,
    Hit,
    Crit,
    Mine,
    Place,
    Pickup,
    Hurt,
    LevelUp,
    Explode,
    Shoot,
}

/// Render pipelines.
#[derive(Clone, Copy, Debug, PartialEq, Eq, Structural)]
pub enum ShaderKind {
    Sprite,
    Pixels,
    Composite,
    Bloom,
}

/// A character part: atlas key, label, size and default colour.
pub struct PartDef {
    pub key: &'static str,
    pub label: &'static str,
    pub w: u32,
    pub h: u32,
    pub color: [u8; 3],
}

/// Effect blueprint names used by weapons.
#[derive(Clone, Debug)]
pub struct WeaponFx {
    pub slash: String,
    pub hit: String,
    pub crit: String,
    pub arrow_hit: String,
    pub hit_spark: String,
    pub explosion: String,
    pub fizz: String,
    pub death: String,
}

/// Skill points and learned levels, as saved.
#[derive(Clone, Copy, Debug, Default)]
pub struct SkillSave {
    pub pts: u8,
    pub learned: [u8; 3],
}

/// Highest level a skill can reach.
pub const SKILL_MAX_LV: u8 = 5;

/// Unspent skill points and the level of each skill (0 = not learned). The
/// cooldown timers are floats and are kept by the front end.
#[derive(Clone, Copy, Debug, Default)]
pub struct Skills {
    pub pts: u8,
    pub learned: [u8; 3],
}

impl Skills {
    /// Learns or levels up skill `i` for one point; false, with nothing spent,
    /// when there is no point left or the skill is at its highest level.
    pub fn learn(&mut self, i: usize) -> (ok: bool)
        requires
            i < 3,
        ensures
            ok == (old(self).pts > 0 && old(self).learned@[i as int] < SKILL_MAX_LV),
            ok ==> final(self).pts == old(self).pts - 1 && final(self).learned@ == old(self).learned@.update(
                i as int,
                (old(self).learned@[i as int] + 1) as u8,
            ),
            !ok ==> *final(self) == *old(self),
    {
        if self.pts == 0 || self.learned[i] >= SKILL_MAX_LV {
            return false;
        }
        let lv = self.learned[i];
        self.learned[i] = lv + 1;
        self.pts = self.pts - 1;
        true
    }
}

/// Settings panel state: whether it is open and which action waits for a new key.
pub struct SettingsUi {
    pub open: bool,
    pub listen: Option<Action>,
}

impl Default for SettingsUi {
    fn default() -> (s: SettingsUi)
        ensures
            !s.open,
            s.listen is None,
    {
        SettingsUi { open: false, listen: None }
    }
}

/// Interaction tool of the hot bar.
#[derive(Clone, Copy, Debug, PartialEq, Eq, Structural)]
pub enum Tool {
    Sword,
    Pickaxe,
    Block,
    Torch,
    Water,
    Sand,
    Bow,
    Fireball,
}

/// The tool on hot-bar slot `n` (1 to 7; anything else is the fireball).
pub open spec fn tool_of(n: u8) -> Tool {
    if n == 1 {
        Tool::Sword
    } else if n == 2 {
        Tool::Pickaxe
    } else if n == 3 {
        Tool::Block
    } else if n == 4 {
        Tool::Torch
    } else if n == 5 {
        Tool::Water
    } else if n == 6 {
        Tool::Sand
    } else if n == 7 {
        Tool::Bow
    } else {
        Tool::Fireball
    }
}

impl Tool {
    /// The tool on hot-bar slot `n`.
    pub fn from_slot(n: u8) -> (t: Tool)
        ensures
            t == tool_of(n),
    {
        match n {
            1 => Tool::Sword,
            2 => Tool::Pickaxe,
            3 => Tool::Block,
            4 => Tool::Torch,
            5 => Tool::Water,
            6 => Tool::Sand,
            7 => Tool::Bow,
            _ => Tool::Fireball,
        }
    }
}

/// The selected tool and the cooldowns of placing and scooping.
pub struct ToolCtx {
    pub tool: Tool,
    pub place_cooldown: u8,
    pub scoop_cooldown: u8,
}

impl Default for ToolCtx {
    fn default() -> (t: ToolCtx)
        ensures
            t.tool == Tool::Sword,
            t.place_cooldown == 0,
            t.scoop_cooldown == 0,
    {
        ToolCtx { tool: Tool::Sword, place_cooldown: 0, scoop_cooldown: 0 }
    }
}

/// The search key of a path-finding cell: row in the high half, column (as 32 bits) in the low half.
pub open spec fn cell_key(c: (i32, i32)) -> int {
    c.1 as int * 0x1_0000_0000 + if c.0 >= 0 { c.0 as int } else { c.0 as int + 0x1_0000_0000 }
}

/// Search key of a path-finding cell.
pub fn key(c: (i32, i32)) -> (k: i64)
    ensures
        k == cell_key(c),
{
    let hi = (c.1 as i64) << 32u64;
    let lo = c.0 as i64 & 0xFFFF_FFFF;
    let y = c.1;
    let x = c.0;
    assert(((y as i64) << 32u64) | ((x as i64) & 0xFFFF_FFFFi64) == (y as i64) * 0x1_0000_0000i64 + ((x as i64) & 0xFFFF_FFFFi64)) by (bit_vector);
    assert(0 <= x ==> ((x as i64) & 0xFFFF_FFFFi64) == x as i64) by (bit_vector);
    assert(x < 0 ==> ((x as i64) & 0xFFFF_FFFFi64) == x as i64 + 0x1_0000_0000i64) by (bit_vector);
    hi | lo
}

/// Different cells have different search keys.
pub proof fn law_cell_key_injective(a: (i32, i32), b: (i32, i32))
    requires
        a != b,
    ensures
        cell_key(a) != cell_key(b),
{
}

/// Material colours for rendering the pixel world: entry `id` is the colour of material
/// `id`, fully opaque, and entry 0 and unused ids are transparent black.
pub fn palette(mats: &Materials) -> (out: Vec<[u8; 4]>)
    requires
        mats.wf(),
        mats@.len() <= 256,
    ensures
        out@.len() == 256,
        forall|i: int|
            0 <= i < 256 ==> #[trigger] out@[i] == if 1 <= i < mats@.len() {
                let c = mats@[i].color;
                [c.0, c.1, c.2, 255u8]
            } else {
                [0u8, 0u8, 0u8, 0u8]
            },
{
    let n = mats.len();
    let mut out: Vec<[u8; 4]> = Vec::new();
    let mut i: usize = 0;
    while i < 256
        invariant
            mats.wf(),
            n == mats@.len(),
            n <= 256,
            i <= 256,
            out@.len() == i,
            forall|j: int|
                0 <= j < i ==> #[trigger] out@[j] == if 1 <= j < n {
                    let c = mats@[j].color;
                    [c.0, c.1, c.2, 255u8]
                } else {
                    [0u8, 0u8, 0u8, 0u8]
                },
        decreases 256 - i,
    {
        if i >= 1 && i < n {
            let d = mats.def(i as u8);
            out.push([d.color.0, d.color.1, d.color.2, 255]);
        } else {
            out.push([0, 0, 0, 0]);
        }
        i = i + 1;
    }
    out
}

} // verus!
