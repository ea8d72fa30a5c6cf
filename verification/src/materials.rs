//! The material table: every pixel holds the id of one entry.
use vstd::prelude::*;

verus! {

pub type MaterialId = u8;

/// Id 0 is always the empty material.
pub const EMPTY: MaterialId = 0;
/// Out-of-bounds / static placeholder (never moves).
pub const OOB: MaterialId = 255;

#[derive(Debug, Clone, Copy, PartialEq, Eq, Structural)]
pub enum Kind {
    /// Falls under gravity and piles up (sand, ash, debris).
    Powder,
    /// Falls under gravity and spreads sideways (water, oil, lava, acid).
    Liquid,
    /// Rises and drifts, with a lifetime (smoke, steam).
    Gas,
    /// Static terrain: not simulated; can be mined, corroded or burnt.
    Static,
}

#[derive(Debug, Clone, Copy, PartialEq, Eq, Structural)]
pub enum Special {
    /// Ignites neighbours, turns to steam in water.
    Fire,
    /// Ignites neighbours, hardens to stone debris in water.
    Lava,
    /// Corrodes soluble static pixels.
    Acid,
}

#[derive(Debug)]
pub struct MaterialDef {
    pub name: String,
    pub kind: Kind,
    pub color: (u8, u8, u8),
    /// Colour jitter amplitude (0..=64).
    pub jitter: u8,
    /// Density: heavier sinks, lighter floats.
    pub density: u16,
    /// Horizontal spreading steps of a liquid.
    pub dispersal: u8,
    /// Ignition weight 0..=255 (0 = not flammable).
    pub flammable: u8,
    /// Ticks a pixel burns once it turned to fire.
    pub burn_life: u8,
    /// Lifetime at birth (gases); 0 = forever.
    pub life: u8,
    /// Light contribution (0..=255).
    pub emissive: u8,
    pub special: Option<Special>,
    /// Solid for collision.
    pub solid: bool,
    /// One-way platform.
    pub platform: bool,
    /// Climbable (rope).
    pub climbable: bool,
    /// Mining hardness: damage needed per pixel (0 = cannot be mined).
    pub hp: u16,
    /// Self light (torch).
    pub light: u8,
    /// Immune to acid.
    pub acid_proof: bool,
    /// Name of the debris material left when destroyed.
    pub drop: Option<String>,
}

impl Clone for MaterialDef {
    fn clone(&self) -> (c: Self)
        ensures
            c == *self,
    {
        let drop = match &self.drop {
            Some(s) => Some(s.clone()),
            None => None,
        };
        MaterialDef {
            name: self.name.clone(),
            kind: self.kind,
            color: self.color,
            jitter: self.jitter,
            density: self.density,
            dispersal: self.dispersal,
            flammable: self.flammable,
            burn_life: self.burn_life,
            life: self.life,
            emissive: self.emissive,
            special: self.special,
            solid: self.solid,
            platform: self.platform,
            climbable: self.climbable,
            hp: self.hp,
            light: self.light,
            acid_proof: self.acid_proof,
            drop,
        }
    }
}

pub open spec fn opt_str_view(o: Option<String>) -> Option<Seq<char>> {
    match o {
        Some(s) => Some(s@),
        None => None,
    }
}

/// `d` has exactly the given field values.
pub open spec fn def_is(
    d: MaterialDef,
    name: Seq<char>,
    kind: Kind,
    color: (u8, u8, u8),
    jitter: u8,
    density: u16,
    dispersal: u8,
    flammable: u8,
    burn_life: u8,
    life: u8,
    emissive: u8,
    special: Option<Special>,
    solid: bool,
    platform: bool,
    climbable: bool,
    hp: u16,
    light: u8,
    acid_proof: bool,
    drop: Option<Seq<char>>,
) -> bool {
    &&& d.name@ == name
    &&& d.kind == kind
    &&& d.color == color
    &&& d.jitter == jitter
    &&& d.density == density
    &&& d.dispersal == dispersal
    &&& d.flammable == flammable
    &&& d.burn_life == burn_life
    &&& d.life == life
    &&& d.emissive == emissive
    &&& d.special == special
    &&& d.solid == solid
    &&& d.platform == platform
    &&& d.climbable == climbable
    &&& d.hp == hp
    &&& d.light == light
    &&& d.acid_proof == acid_proof
    &&& opt_str_view(d.drop) == drop
}

/// The definition every table holds at id 0.
pub open spec fn is_empty_def(d: MaterialDef) -> bool {
    def_is(d, "empty"@, Kind::Static, (0, 0, 0), 0, 0, 0, 0, 0, 0, 0, None, false, false, false, 0, 0, false, None)
}

/// No two entries share a name.
pub open spec fn names_distinct(s: Seq<MaterialDef>) -> bool {
    forall|i: int, j: int| 0 <= i < j < s.len() ==> s[i].name@ != s[j].name@
}

/// Entry `k` of a definition list repeats a name already taken (by "empty" or an earlier entry).
pub open spec fn dup_at(defs: Seq<MaterialDef>, k: int) -> bool {
    &&& 0 <= k < defs.len()
    &&& (defs[k].name@ == "empty"@ || exists|j: int| 0 <= j < k && defs[j].name@ == defs[k].name@)
}

/// Most definitions a table can hold besides "empty": ids run from 0 to 254, and
/// 255 stands for outside the world.
pub const MAX_MATERIALS: usize = 254;

/// `<str as PartialEq>::eq`: true exactly when both strings hold the same characters.
#[verifier::external_body]
pub(crate) fn str_eq(a: &str, b: &str) -> (r: bool)
    ensures
        r == (a@ == b@),
{
    a == b
}

fn def_of(
    name: &str,
    kind: Kind,
    color: (u8, u8, u8),
    jitter: u8,
    density: u16,
    dispersal: u8,
    flammable: u8,
    burn_life: u8,
    life: u8,
    emissive: u8,
    special: Option<Special>,
    solid: bool,
    platform: bool,
    climbable: bool,
    hp: u16,
    light: u8,
    acid_proof: bool,
    drop: Option<&str>,
) -> (d: MaterialDef)
    ensures
        def_is(d, name@, kind, color, jitter, density, dispersal, flammable, burn_life, life, emissive,
            special, solid, platform, climbable, hp, light, acid_proof,
            (match drop { Some(s) => Some(s@), None => None })),
{
    let drop_name = match drop {
        Some(s) => Some(s.to_owned()),
        None => None,
    };
    MaterialDef {
        name: name.to_owned(),
        kind,
        color,
        jitter,
        density,
        dispersal,
        flammable,
        burn_life,
        life,
        emissive,
        special,
        solid,
        platform,
        climbable,
        hp,
        light,
        acid_proof,
        drop: drop_name,
    }
}

/// The built-in table: entry `i + 1` of `s` for each line.
pub open spec fn is_builtin_table(s: Seq<MaterialDef>) -> bool {
    &&& s.len() == 28
    &&& is_empty_def(s[0])
    &&& def_is(s[1], "dirt"@, Kind::Static, (121, 85, 58), 10, 1000, 0, 0, 60, 0, 0, None, true, false, false, 20, 0, false, Some("dirt_debris"@))
    &&& def_is(s[2], "grass"@, Kind::Static, (86, 140, 60), 10, 1000, 0, 0, 60, 0, 0, None, true, false, false, 20, 0, false, Some("dirt_debris"@))
    &&& def_is(s[3], "stone"@, Kind::Static, (110, 110, 118), 8, 1000, 0, 0, 60, 0, 0, None, true, false, false, 60, 0, false, Some("stone_debris"@))
    &&& def_is(s[4], "bedrock"@, Kind::Static, (50, 48, 56), 6, 1000, 0, 0, 60, 0, 0, None, true, false, false, 0, 0, true, None)
    &&& def_is(s[5], "sandstone"@, Kind::Static, (196, 170, 112), 8, 1000, 0, 0, 60, 0, 0, None, true, false, false, 35, 0, false, Some("sand"@))
    &&& def_is(s[6], "snowpack"@, Kind::Static, (226, 234, 244), 6, 1000, 0, 0, 60, 0, 0, None, true, false, false, 12, 0, false, Some("snow"@))
    &&& def_is(s[7], "coal_ore"@, Kind::Static, (58, 56, 60), 10, 1000, 0, 0, 60, 0, 0, None, true, false, false, 80, 0, false, Some("stone_debris"@))
    &&& def_is(s[8], "iron_ore"@, Kind::Static, (150, 120, 100), 10, 1000, 0, 0, 60, 0, 0, None, true, false, false, 100, 0, false, Some("stone_debris"@))
    &&& def_is(s[9], "gold_ore"@, Kind::Static, (214, 176, 64), 10, 1000, 0, 0, 60, 0, 0, None, true, false, false, 130, 0, false, Some("stone_debris"@))
    &&& def_is(s[10], "wood"@, Kind::Static, (120, 84, 50), 10, 1000, 0, 70, 90, 0, 0, None, false, false, false, 25, 0, false, None)
    &&& def_is(s[11], "leaf"@, Kind::Static, (70, 130, 58), 14, 1000, 0, 140, 30, 0, 0, None, false, false, false, 5, 0, false, None)
    &&& def_is(s[12], "rope"@, Kind::Static, (160, 130, 80), 4, 1000, 0, 90, 40, 0, 0, None, false, false, true, 5, 0, false, None)
    &&& def_is(s[13], "torch"@, Kind::Static, (255, 200, 90), 0, 1000, 0, 0, 60, 0, 0, None, false, false, false, 5, 255, false, None)
    &&& def_is(s[14], "sand"@, Kind::Powder, (214, 190, 120), 10, 1500, 0, 0, 60, 0, 0, None, false, false, false, 0, 0, false, None)
    &&& def_is(s[15], "snow"@, Kind::Powder, (236, 242, 250), 6, 500, 0, 0, 60, 0, 0, None, false, false, false, 0, 0, false, None)
    &&& def_is(s[16], "dirt_debris"@, Kind::Powder, (112, 80, 54), 10, 1400, 0, 0, 60, 0, 0, None, false, false, false, 0, 0, false, None)
    &&& def_is(s[17], "stone_debris"@, Kind::Powder, (104, 104, 112), 10, 1800, 0, 0, 60, 0, 0, None, false, false, false, 0, 0, false, None)
    &&& def_is(s[18], "water"@, Kind::Liquid, (52, 110, 200), 6, 1000, 6, 0, 60, 0, 0, None, false, false, false, 0, 0, false, None)
    &&& def_is(s[19], "lava"@, Kind::Liquid, (240, 100, 30), 16, 2500, 2, 0, 60, 0, 200, Some(Special::Lava), false, false, false, 0, 0, false, None)
    &&& def_is(s[20], "acid"@, Kind::Liquid, (120, 230, 60), 10, 1050, 4, 0, 60, 0, 0, Some(Special::Acid), false, false, false, 0, 0, false, None)
    &&& def_is(s[21], "fire"@, Kind::Gas, (255, 140, 40), 30, 1000, 0, 0, 60, 40, 220, Some(Special::Fire), false, false, false, 0, 0, false, None)
    &&& def_is(s[22], "smoke"@, Kind::Gas, (70, 70, 74), 12, 1000, 0, 0, 60, 90, 0, None, false, false, false, 0, 0, false, None)
    &&& def_is(s[23], "steam"@, Kind::Gas, (200, 210, 220), 8, 1000, 0, 0, 60, 120, 0, None, false, false, false, 0, 0, false, None)
    &&& def_is(s[24], "wall_dirt"@, Kind::Static, (72, 52, 36), 8, 1000, 0, 0, 60, 0, 0, None, false, false, false, 0, 0, false, None)
    &&& def_is(s[25], "wall_stone"@, Kind::Static, (62, 62, 68), 8, 1000, 0, 0, 60, 0, 0, None, false, false, false, 0, 0, false, None)
    &&& def_is(s[26], "wall_snow"@, Kind::Static, (120, 130, 146), 8, 1000, 0, 0, 60, 0, 0, None, false, false, false, 0, 0, false, None)
    &&& def_is(s[27], "wall_sand"@, Kind::Static, (112, 98, 66), 8, 1000, 0, 0, 60, 0, 0, None, false, false, false, 0, 0, false, None)
}

/// The characters of the built-in material names.
proof fn lemma_builtin_names()
    ensures
        "empty"@ == seq!['e', 'm', 'p', 't', 'y'],
        "dirt"@ == seq!['d', 'i', 'r', 't'],
        "grass"@ == seq!['g', 'r', 'a', 's', 's'],
        "stone"@ == seq!['s', 't', 'o', 'n', 'e'],
        "bedrock"@ == seq!['b', 'e', 'd', 'r', 'o', 'c', 'k'],
        "sandstone"@ == seq!['s', 'a', 'n', 'd', 's', 't', 'o', 'n', 'e'],
        "snowpack"@ == seq!['s', 'n', 'o', 'w', 'p', 'a', 'c', 'k'],
        "coal_ore"@ == seq!['c', 'o', 'a', 'l', '_', 'o', 'r', 'e'],
        "iron_ore"@ == seq!['i', 'r', 'o', 'n', '_', 'o', 'r', 'e'],
        "gold_ore"@ == seq!['g', 'o', 'l', 'd', '_', 'o', 'r', 'e'],
        "wood"@ == seq!['w', 'o', 'o', 'd'],
        "leaf"@ == seq!['l', 'e', 'a', 'f'],
        "rope"@ == seq!['r', 'o', 'p', 'e'],
        "torch"@ == seq!['t', 'o', 'r', 'c', 'h'],
        "sand"@ == seq!['s', 'a', 'n', 'd'],
        "snow"@ == seq!['s', 'n', 'o', 'w'],
        "dirt_debris"@ == seq!['d', 'i', 'r', 't', '_', 'd', 'e', 'b', 'r', 'i', 's'],
        "stone_debris"@ == seq!['s', 't', 'o', 'n', 'e', '_', 'd', 'e', 'b', 'r', 'i', 's'],
        "water"@ == seq!['w', 'a', 't', 'e', 'r'],
        "lava"@ == seq!['l', 'a', 'v', 'a'],
        "acid"@ == seq!['a', 'c', 'i', 'd'],
        "fire"@ == seq!['f', 'i', 'r', 'e'],
        "smoke"@ == seq!['s', 'm', 'o', 'k', 'e'],
        "steam"@ == seq!['s', 't', 'e', 'a', 'm'],
        "wall_dirt"@ == seq!['w', 'a', 'l', 'l', '_', 'd', 'i', 'r', 't'],
        "wall_stone"@ == seq!['w', 'a', 'l', 'l', '_', 's', 't', 'o', 'n', 'e'],
        "wall_snow"@ == seq!['w', 'a', 'l', 'l', '_', 's', 'n', 'o', 'w'],
        "wall_sand"@ == seq!['w', 'a', 'l', 'l', '_', 's', 'a', 'n', 'd'],
{
    reveal_strlit("empty");
    reveal_strlit("dirt");
    reveal_strlit("grass");
    reveal_strlit("stone");
    reveal_strlit("bedrock");
    reveal_strlit("sandstone");
    reveal_strlit("snowpack");
    reveal_strlit("coal_ore");
    reveal_strlit("iron_ore");
    reveal_strlit("gold_ore");
    reveal_strlit("wood");
    reveal_strlit("leaf");
    reveal_strlit("rope");
    reveal_strlit("torch");
    reveal_strlit("sand");
    reveal_strlit("snow");
    reveal_strlit("dirt_debris");
    reveal_strlit("stone_debris");
    reveal_strlit("water");
    reveal_strlit("lava");
    reveal_strlit("acid");
    reveal_strlit("fire");
    reveal_strlit("smoke");
    reveal_strlit("steam");
    reveal_strlit("wall_dirt");
    reveal_strlit("wall_stone");
    reveal_strlit("wall_snow");
    reveal_strlit("wall_sand");
}

proof fn lemma_builtin_row_0(s: Seq<MaterialDef>)
    requires
        is_builtin_table(s),
    ensures
        forall|j: int| 0 < j < 28 ==> s[0].name@ != #[trigger] s[j].name@,
{
    lemma_builtin_names();
    assert("empty"@[0] != "grass"@[0]);
    assert("empty"@[0] != "stone"@[0]);
    assert("empty"@[0] != "torch"@[0]);
    assert("empty"@[0] != "water"@[0]);
    assert("empty"@[0] != "smoke"@[0]);
    assert("empty"@[0] != "steam"@[0]);
    assert("empty"@.len() != "dirt"@.len());
    assert("empty"@.len() != "bedrock"@.len());
    assert("empty"@.len() != "sandstone"@.len());
    assert("empty"@.len() != "snowpack"@.len());
    assert("empty"@.len() != "coal_ore"@.len());
    assert("empty"@.len() != "iron_ore"@.len());
    assert("empty"@.len() != "gold_ore"@.len());
    assert("empty"@.len() != "wood"@.len());
    assert("empty"@.len() != "leaf"@.len());
    assert("empty"@.len() != "rope"@.len());
    assert("empty"@.len() != "sand"@.len());
    assert("empty"@.len() != "snow"@.len());
    assert("empty"@.len() != "dirt_debris"@.len());
    assert("empty"@.len() != "stone_debris"@.len());
    assert("empty"@.len() != "lava"@.len());
    assert("empty"@.len() != "acid"@.len());
    assert("empty"@.len() != "fire"@.len());
    assert("empty"@.len() != "wall_dirt"@.len());
    assert("empty"@.len() != "wall_stone"@.len());
    assert("empty"@.len() != "wall_snow"@.len());
    assert("empty"@.len() != "wall_sand"@.len());
    assert forall|j: int| 0 < j < 28 implies s[0].name@ != #[trigger] s[j].name@ by {
        assert(j == 1 || j == 2 || j == 3 || j == 4 || j == 5 || j == 6 || j == 7 || j == 8 || j == 9 || j == 10 || j == 11 || j == 12 || j == 13 || j == 14 || j == 15 || j == 16 || j == 17 || j == 18 || j == 19 || j == 20 || j == 21 || j == 22 || j == 23 || j == 24 || j == 25 || j == 26 || j == 27);
    }
}

proof fn lemma_builtin_row_1(s: Seq<MaterialDef>)
    requires
        is_builtin_table(s),
    ensures
        forall|j: int| 1 < j < 28 ==> s[1].name@ != #[trigger] s[j].name@,
{
    lemma_builtin_names();
    assert("dirt"@[0] != "wood"@[0]);
    assert("dirt"@[0] != "leaf"@[0]);
    assert("dirt"@[0] != "rope"@[0]);
    assert("dirt"@[0] != "sand"@[0]);
    assert("dirt"@[0] != "snow"@[0]);
    assert("dirt"@[0] != "lava"@[0]);
    assert("dirt"@[0] != "acid"@[0]);
    assert("dirt"@[0] != "fire"@[0]);
    assert("dirt"@.len() != "grass"@.len());
    assert("dirt"@.len() != "stone"@.len());
    assert("dirt"@.len() != "bedrock"@.len());
    assert("dirt"@.len() != "sandstone"@.len());
    assert("dirt"@.len() != "snowpack"@.len());
    assert("dirt"@.len() != "coal_ore"@.len());
    assert("dirt"@.len() != "iron_ore"@.len());
    assert("dirt"@.len() != "gold_ore"@.len());
    assert("dirt"@.len() != "torch"@.len());
    assert("dirt"@.len() != "dirt_debris"@.len());
    assert("dirt"@.len() != "stone_debris"@.len());
    assert("dirt"@.len() != "water"@.len());
    assert("dirt"@.len() != "smoke"@.len());
    assert("dirt"@.len() != "steam"@.len());
    assert("dirt"@.len() != "wall_dirt"@.len());
    assert("dirt"@.len() != "wall_stone"@.len());
    assert("dirt"@.len() != "wall_snow"@.len());
    assert("dirt"@.len() != "wall_sand"@.len());
    assert forall|j: int| 1 < j < 28 implies s[1].name@ != #[trigger] s[j].name@ by {
        assert(j == 2 || j == 3 || j == 4 || j == 5 || j == 6 || j == 7 || j == 8 || j == 9 || j == 10 || j == 11 || j == 12 || j == 13 || j == 14 || j == 15 || j == 16 || j == 17 || j == 18 || j == 19 || j == 20 || j == 21 || j == 22 || j == 23 || j == 24 || j == 25 || j == 26 || j == 27);
    }
}

proof fn lemma_builtin_row_2(s: Seq<MaterialDef>)
    requires
        is_builtin_table(s),
    ensures
        forall|j: int| 2 < j < 28 ==> s[2].name@ != #[trigger] s[j].name@,
{
    lemma_builtin_names();
    assert("grass"@[0] != "stone"@[0]);
    assert("grass"@[0] != "torch"@[0]);
    assert("grass"@[0] != "water"@[0]);
    assert("grass"@[0] != "smoke"@[0]);
    assert("grass"@[0] != "steam"@[0]);
    assert("grass"@.len() != "bedrock"@.len());
    assert("grass"@.len() != "sandstone"@.len());
    assert("grass"@.len() != "snowpack"@.len());
    assert("grass"@.len() != "coal_ore"@.len());
    assert("grass"@.len() != "iron_ore"@.len());
    assert("grass"@.len() != "gold_ore"@.len());
    assert("grass"@.len() != "wood"@.len());
    assert("grass"@.len() != "leaf"@.len());
    assert("grass"@.len() != "rope"@.len());
    assert("grass"@.len() != "sand"@.len());
    assert("grass"@.len() != "snow"@.len());
    assert("grass"@.len() != "dirt_debris"@.len());
    assert("grass"@.len() != "stone_debris"@.len());
    assert("grass"@.len() != "lava"@.len());
    assert("grass"@.len() != "acid"@.len());
    assert("grass"@.len() != "fire"@.len());
    assert("grass"@.len() != "wall_dirt"@.len());
    assert("grass"@.len() != "wall_stone"@.len());
    assert("grass"@.len() != "wall_snow"@.len());
    assert("grass"@.len() != "wall_sand"@.len());
    assert forall|j: int| 2 < j < 28 implies s[2].name@ != #[trigger] s[j].name@ by {
        assert(j == 3 || j == 4 || j == 5 || j == 6 || j == 7 || j == 8 || j == 9 || j == 10 || j == 11 || j == 12 || j == 13 || j == 14 || j == 15 || j == 16 || j == 17 || j == 18 || j == 19 || j == 20 || j == 21 || j == 22 || j == 23 || j == 24 || j == 25 || j == 26 || j == 27);
    }
}

proof fn lemma_builtin_row_3(s: Seq<MaterialDef>)
    requires
        is_builtin_table(s),
    ensures
        forall|j: int| 3 < j < 28 ==> s[3].name@ != #[trigger] s[j].name@,
{
    lemma_builtin_names();
    assert("stone"@[0] != "torch"@[0]);
    assert("stone"@[0] != "water"@[0]);
    assert("stone"@[1] != "smoke"@[1]);
    assert("stone"@[2] != "steam"@[2]);
    assert("stone"@.len() != "bedrock"@.len());
    assert("stone"@.len() != "sandstone"@.len());
    assert("stone"@.len() != "snowpack"@.len());
    assert("stone"@.len() != "coal_ore"@.len());
    assert("stone"@.len() != "iron_ore"@.len());
    assert("stone"@.len() != "gold_ore"@.len());
    assert("stone"@.len() != "wood"@.len());
    assert("stone"@.len() != "leaf"@.len());
    assert("stone"@.len() != "rope"@.len());
    assert("stone"@.len() != "sand"@.len());
    assert("stone"@.len() != "snow"@.len());
    assert("stone"@.len() != "dirt_debris"@.len());
    assert("stone"@.len() != "stone_debris"@.len());
    assert("stone"@.len() != "lava"@.len());
    assert("stone"@.len() != "acid"@.len());
    assert("stone"@.len() != "fire"@.len());
    assert("stone"@.len() != "wall_dirt"@.len());
    assert("stone"@.len() != "wall_stone"@.len());
    assert("stone"@.len() != "wall_snow"@.len());
    assert("stone"@.len() != "wall_sand"@.len());
    assert forall|j: int| 3 < j < 28 implies s[3].name@ != #[trigger] s[j].name@ by {
        assert(j == 4 || j == 5 || j == 6 || j == 7 || j == 8 || j == 9 || j == 10 || j == 11 || j == 12 || j == 13 || j == 14 || j == 15 || j == 16 || j == 17 || j == 18 || j == 19 || j == 20 || j == 21 || j == 22 || j == 23 || j == 24 || j == 25 || j == 26 || j == 27);
    }
}

proof fn lemma_builtin_row_4(s: Seq<MaterialDef>)
    requires
        is_builtin_table(s),
    ensures
        forall|j: int| 4 < j < 28 ==> s[4].name@ != #[trigger] s[j].name@,
{
    lemma_builtin_names();
    assert("bedrock"@.len() != "sandstone"@.len());
    assert("bedrock"@.len() != "snowpack"@.len());
    assert("bedrock"@.len() != "coal_ore"@.len());
    assert("bedrock"@.len() != "iron_ore"@.len());
    assert("bedrock"@.len() != "gold_ore"@.len());
    assert("bedrock"@.len() != "wood"@.len());
    assert("bedrock"@.len() != "leaf"@.len());
    assert("bedrock"@.len() != "rope"@.len());
    assert("bedrock"@.len() != "torch"@.len());
    assert("bedrock"@.len() != "sand"@.len());
    assert("bedrock"@.len() != "snow"@.len());
    assert("bedrock"@.len() != "dirt_debris"@.len());
    assert("bedrock"@.len() != "stone_debris"@.len());
    assert("bedrock"@.len() != "water"@.len());
    assert("bedrock"@.len() != "lava"@.len());
    assert("bedrock"@.len() != "acid"@.len());
    assert("bedrock"@.len() != "fire"@.len());
    assert("bedrock"@.len() != "smoke"@.len());
    assert("bedrock"@.len() != "steam"@.len());
    assert("bedrock"@.len() != "wall_dirt"@.len());
    assert("bedrock"@.len() != "wall_stone"@.len());
    assert("bedrock"@.len() != "wall_snow"@.len());
    assert("bedrock"@.len() != "wall_sand"@.len());
    assert forall|j: int| 4 < j < 28 implies s[4].name@ != #[trigger] s[j].name@ by {
        assert(j == 5 || j == 6 || j == 7 || j == 8 || j == 9 || j == 10 || j == 11 || j == 12 || j == 13 || j == 14 || j == 15 || j == 16 || j == 17 || j == 18 || j == 19 || j == 20 || j == 21 || j == 22 || j == 23 || j == 24 || j == 25 || j == 26 || j == 27);
    }
}

proof fn lemma_builtin_row_5(s: Seq<MaterialDef>)
    requires
        is_builtin_table(s),
    ensures
        forall|j: int| 5 < j < 28 ==> s[5].name@ != #[trigger] s[j].name@,
{
    lemma_builtin_names();
    assert("sandstone"@[0] != "wall_dirt"@[0]);
    assert("sandstone"@[0] != "wall_snow"@[0]);
    assert("sandstone"@[0] != "wall_sand"@[0]);
    assert("sandstone"@.len() != "snowpack"@.len());
    assert("sandstone"@.len() != "coal_ore"@.len());
    assert("sandstone"@.len() != "iron_ore"@.len());
    assert("sandstone"@.len() != "gold_ore"@.len());
    assert("sandstone"@.len() != "wood"@.len());
    assert("sandstone"@.len() != "leaf"@.len());
    assert("sandstone"@.len() != "rope"@.len());
    assert("sandstone"@.len() != "torch"@.len());
    assert("sandstone"@.len() != "sand"@.len());
    assert("sandstone"@.len() != "snow"@.len());
    assert("sandstone"@.len() != "dirt_debris"@.len());
    assert("sandstone"@.len() != "stone_debris"@.len());
    assert("sandstone"@.len() != "water"@.len());
    assert("sandstone"@.len() != "lava"@.len());
    assert("sandstone"@.len() != "acid"@.len());
    assert("sandstone"@.len() != "fire"@.len());
    assert("sandstone"@.len() != "smoke"@.len());
    assert("sandstone"@.len() != "steam"@.len());
    assert("sandstone"@.len() != "wall_stone"@.len());
    assert forall|j: int| 5 < j < 28 implies s[5].name@ != #[trigger] s[j].name@ by {
        assert(j == 6 || j == 7 || j == 8 || j == 9 || j == 10 || j == 11 || j == 12 || j == 13 || j == 14 || j == 15 || j == 16 || j == 17 || j == 18 || j == 19 || j == 20 || j == 21 || j == 22 || j == 23 || j == 24 || j == 25 || j == 26 || j == 27);
    }
}

proof fn lemma_builtin_row_6(s: Seq<MaterialDef>)
    requires
        is_builtin_table(s),
    ensures
        forall|j: int| 6 < j < 28 ==> s[6].name@ != #[trigger] s[j].name@,
{
    lemma_builtin_names();
    assert("snowpack"@[0] != "coal_ore"@[0]);
    assert("snowpack"@[0] != "iron_ore"@[0]);
    assert("snowpack"@[0] != "gold_ore"@[0]);
    assert("snowpack"@.len() != "wood"@.len());
    assert("snowpack"@.len() != "leaf"@.len());
    assert("snowpack"@.len() != "rope"@.len());
    assert("snowpack"@.len() != "torch"@.len());
    assert("snowpack"@.len() != "sand"@.len());
    assert("snowpack"@.len() != "snow"@.len());
    assert("snowpack"@.len() != "dirt_debris"@.len());
    assert("snowpack"@.len() != "stone_debris"@.len());
    assert("snowpack"@.len() != "water"@.len());
    assert("snowpack"@.len() != "lava"@.len());
    assert("snowpack"@.len() != "acid"@.len());
    assert("snowpack"@.len() != "fire"@.len());
    assert("snowpack"@.len() != "smoke"@.len());
    assert("snowpack"@.len() != "steam"@.len());
    assert("snowpack"@.len() != "wall_dirt"@.len());
    assert("snowpack"@.len() != "wall_stone"@.len());
    assert("snowpack"@.len() != "wall_snow"@.len());
    assert("snowpack"@.len() != "wall_sand"@.len());
    assert forall|j: int| 6 < j < 28 implies s[6].name@ != #[trigger] s[j].name@ by {
        assert(j == 7 || j == 8 || j == 9 || j == 10 || j == 11 || j == 12 || j == 13 || j == 14 || j == 15 || j == 16 || j == 17 || j == 18 || j == 19 || j == 20 || j == 21 || j == 22 || j == 23 || j == 24 || j == 25 || j == 26 || j == 27);
    }
}

proof fn lemma_builtin_row_7(s: Seq<MaterialDef>)
    requires
        is_builtin_table(s),
    ensures
        forall|j: int| 7 < j < 28 ==> s[7].name@ != #[trigger] s[j].name@,
{
    lemma_builtin_names();
    assert("coal_ore"@[0] != "iron_ore"@[0]);
    assert("coal_ore"@[0] != "gold_ore"@[0]);
    assert("coal_ore"@.len() != "wood"@.len());
    assert("coal_ore"@.len() != "leaf"@.len());
    assert("coal_ore"@.len() != "rope"@.len());
    assert("coal_ore"@.len() != "torch"@.len());
    assert("coal_ore"@.len() != "sand"@.len());
    assert("coal_ore"@.len() != "snow"@.len());
    assert("coal_ore"@.len() != "dirt_debris"@.len());
    assert("coal_ore"@.len() != "stone_debris"@.len());
    assert("coal_ore"@.len() != "water"@.len());
    assert("coal_ore"@.len() != "lava"@.len());
    assert("coal_ore"@.len() != "acid"@.len());
    assert("coal_ore"@.len() != "fire"@.len());
    assert("coal_ore"@.len() != "smoke"@.len());
    assert("coal_ore"@.len() != "steam"@.len());
    assert("coal_ore"@.len() != "wall_dirt"@.len());
    assert("coal_ore"@.len() != "wall_stone"@.len());
    assert("coal_ore"@.len() != "wall_snow"@.len());
    assert("coal_ore"@.len() != "wall_sand"@.len());
    assert forall|j: int| 7 < j < 28 implies s[7].name@ != #[trigger] s[j].name@ by {
        assert(j == 8 || j == 9 || j == 10 || j == 11 || j == 12 || j == 13 || j == 14 || j == 15 || j == 16 || j == 17 || j == 18 || j == 19 || j == 20 || j == 21 || j == 22 || j == 23 || j == 24 || j == 25 || j == 26 || j == 27);
    }
}

proof fn lemma_builtin_row_8(s: Seq<MaterialDef>)
    requires
        is_builtin_table(s),
    ensures
        forall|j: int| 8 < j < 28 ==> s[8].name@ != #[trigger] s[j].name@,
{
    lemma_builtin_names();
    assert("iron_ore"@[0] != "gold_ore"@[0]);
    assert("iron_ore"@.len() != "wood"@.len());
    assert("iron_ore"@.len() != "leaf"@.len());
    assert("iron_ore"@.len() != "rope"@.len());
    assert("iron_ore"@.len() != "torch"@.len());
    assert("iron_ore"@.len() != "sand"@.len());
    assert("iron_ore"@.len() != "snow"@.len());
    assert("iron_ore"@.len() != "dirt_debris"@.len());
    assert("iron_ore"@.len() != "stone_debris"@.len());
    assert("iron_ore"@.len() != "water"@.len());
    assert("iron_ore"@.len() != "lava"@.len());
    assert("iron_ore"@.len() != "acid"@.len());
    assert("iron_ore"@.len() != "fire"@.len());
    assert("iron_ore"@.len() != "smoke"@.len());
    assert("iron_ore"@.len() != "steam"@.len());
    assert("iron_ore"@.len() != "wall_dirt"@.len());
    assert("iron_ore"@.len() != "wall_stone"@.len());
    assert("iron_ore"@.len() != "wall_snow"@.len());
    assert("iron_ore"@.len() != "wall_sand"@.len());
    assert forall|j: int| 8 < j < 28 implies s[8].name@ != #[trigger] s[j].name@ by {
        assert(j == 9 || j == 10 || j == 11 || j == 12 || j == 13 || j == 14 || j == 15 || j == 16 || j == 17 || j == 18 || j == 19 || j == 20 || j == 21 || j == 22 || j == 23 || j == 24 || j == 25 || j == 26 || j == 27);
    }
}

proof fn lemma_builtin_row_9(s: Seq<MaterialDef>)
    requires
        is_builtin_table(s),
    ensures
        forall|j: int| 9 < j < 28 ==> s[9].name@ != #[trigger] s[j].name@,
{
    lemma_builtin_names();
    assert("gold_ore"@.len() != "wood"@.len());
    assert("gold_ore"@.len() != "leaf"@.len());
    assert("gold_ore"@.len() != "rope"@.len());
    assert("gold_ore"@.len() != "torch"@.len());
    assert("gold_ore"@.len() != "sand"@.len());
    assert("gold_ore"@.len() != "snow"@.len());
    assert("gold_ore"@.len() != "dirt_debris"@.len());
    assert("gold_ore"@.len() != "stone_debris"@.len());
    assert("gold_ore"@.len() != "water"@.len());
    assert("gold_ore"@.len() != "lava"@.len());
    assert("gold_ore"@.len() != "acid"@.len());
    assert("gold_ore"@.len() != "fire"@.len());
    assert("gold_ore"@.len() != "smoke"@.len());
    assert("gold_ore"@.len() != "steam"@.len());
    assert("gold_ore"@.len() != "wall_dirt"@.len());
    assert("gold_ore"@.len() != "wall_stone"@.len());
    assert("gold_ore"@.len() != "wall_snow"@.len());
    assert("gold_ore"@.len() != "wall_sand"@.len());
    assert forall|j: int| 9 < j < 28 implies s[9].name@ != #[trigger] s[j].name@ by {
        assert(j == 10 || j == 11 || j == 12 || j == 13 || j == 14 || j == 15 || j == 16 || j == 17 || j == 18 || j == 19 || j == 20 || j == 21 || j == 22 || j == 23 || j == 24 || j == 25 || j == 26 || j == 27);
    }
}

proof fn lemma_builtin_row_10(s: Seq<MaterialDef>)
    requires
        is_builtin_table(s),
    ensures
        forall|j: int| 10 < j < 28 ==> s[10].name@ != #[trigger] s[j].name@,
{
    lemma_builtin_names();
    assert("wood"@[0] != "leaf"@[0]);
    assert("wood"@[0] != "rope"@[0]);
    assert("wood"@[0] != "sand"@[0]);
    assert("wood"@[0] != "snow"@[0]);
    assert("wood"@[0] != "lava"@[0]);
    assert("wood"@[0] != "acid"@[0]);
    assert("wood"@[0] != "fire"@[0]);
    assert("wood"@.len() != "torch"@.len());
    assert("wood"@.len() != "dirt_debris"@.len());
    assert("wood"@.len() != "stone_debris"@.len());
    assert("wood"@.len() != "water"@.len());
    assert("wood"@.len() != "smoke"@.len());
    assert("wood"@.len() != "steam"@.len());
    assert("wood"@.len() != "wall_dirt"@.len());
    assert("wood"@.len() != "wall_stone"@.len());
    assert("wood"@.len() != "wall_snow"@.len());
    assert("wood"@.len() != "wall_sand"@.len());
    assert forall|j: int| 10 < j < 28 implies s[10].name@ != #[trigger] s[j].name@ by {
        assert(j == 11 || j == 12 || j == 13 || j == 14 || j == 15 || j == 16 || j == 17 || j == 18 || j == 19 || j == 20 || j == 21 || j == 22 || j == 23 || j == 24 || j == 25 || j == 26 || j == 27);
    }
}

proof fn lemma_builtin_row_11(s: Seq<MaterialDef>)
    requires
        is_builtin_table(s),
    ensures
        forall|j: int| 11 < j < 28 ==> s[11].name@ != #[trigger] s[j].name@,
{
    lemma_builtin_names();
    assert("leaf"@[0] != "rope"@[0]);
    assert("leaf"@[0] != "sand"@[0]);
    assert("leaf"@[0] != "snow"@[0]);
    assert("leaf"@[1] != "lava"@[1]);
    assert("leaf"@[0] != "acid"@[0]);
    assert("leaf"@[0] != "fire"@[0]);
    assert("leaf"@.len() != "torch"@.len());
    assert("leaf"@.len() != "dirt_debris"@.len());
    assert("leaf"@.len() != "stone_debris"@.len());
    assert("leaf"@.len() != "water"@.len());
    assert("leaf"@.len() != "smoke"@.len());
    assert("leaf"@.len() != "steam"@.len());
    assert("leaf"@.len() != "wall_dirt"@.len());
    assert("leaf"@.len() != "wall_stone"@.len());
    assert("leaf"@.len() != "wall_snow"@.len());
    assert("leaf"@.len() != "wall_sand"@.len());
    assert forall|j: int| 11 < j < 28 implies s[11].name@ != #[trigger] s[j].name@ by {
        assert(j == 12 || j == 13 || j == 14 || j == 15 || j == 16 || j == 17 || j == 18 || j == 19 || j == 20 || j == 21 || j == 22 || j == 23 || j == 24 || j == 25 || j == 26 || j == 27);
    }
}

proof fn lemma_builtin_row_12(s: Seq<MaterialDef>)
    requires
        is_builtin_table(s),
    ensures
        forall|j: int| 12 < j < 28 ==> s[12].name@ != #[trigger] s[j].name@,
{
    lemma_builtin_names();
    assert("rope"@[0] != "sand"@[0]);
    assert("rope"@[0] != "snow"@[0]);
    assert("rope"@[0] != "lava"@[0]);
    assert("rope"@[0] != "acid"@[0]);
    assert("rope"@[0] != "fire"@[0]);
    assert("rope"@.len() != "torch"@.len());
    assert("rope"@.len() != "dirt_debris"@.len());
    assert("rope"@.len() != "stone_debris"@.len());
    assert("rope"@.len() != "water"@.len());
    assert("rope"@.len() != "smoke"@.len());
    assert("rope"@.len() != "steam"@.len());
    assert("rope"@.len() != "wall_dirt"@.len());
    assert("rope"@.len() != "wall_stone"@.len());
    assert("rope"@.len() != "wall_snow"@.len());
    assert("rope"@.len() != "wall_sand"@.len());
    assert forall|j: int| 12 < j < 28 implies s[12].name@ != #[trigger] s[j].name@ by {
        assert(j == 13 || j == 14 || j == 15 || j == 16 || j == 17 || j == 18 || j == 19 || j == 20 || j == 21 || j == 22 || j == 23 || j == 24 || j == 25 || j == 26 || j == 27);
    }
}

proof fn lemma_builtin_row_13(s: Seq<MaterialDef>)
    requires
        is_builtin_table(s),
    ensures
        forall|j: int| 13 < j < 28 ==> s[13].name@ != #[trigger] s[j].name@,
{
    lemma_builtin_names();
    assert("torch"@[0] != "water"@[0]);
    assert("torch"@[0] != "smoke"@[0]);
    assert("torch"@[0] != "steam"@[0]);
    assert("torch"@.len() != "sand"@.len());
    assert("torch"@.len() != "snow"@.len());
    assert("torch"@.len() != "dirt_debris"@.len());
    assert("torch"@.len() != "stone_debris"@.len());
    assert("torch"@.len() != "lava"@.len());
    assert("torch"@.len() != "acid"@.len());
    assert("torch"@.len() != "fire"@.len());
    assert("torch"@.len() != "wall_dirt"@.len());
    assert("torch"@.len() != "wall_stone"@.len());
    assert("torch"@.len() != "wall_snow"@.len());
    assert("torch"@.len() != "wall_sand"@.len());
    assert forall|j: int| 13 < j < 28 implies s[13].name@ != #[trigger] s[j].name@ by {
        assert(j == 14 || j == 15 || j == 16 || j == 17 || j == 18 || j == 19 || j == 20 || j == 21 || j == 22 || j == 23 || j == 24 || j == 25 || j == 26 || j == 27);
    }
}

proof fn lemma_builtin_row_14(s: Seq<MaterialDef>)
    requires
        is_builtin_table(s),
    ensures
        forall|j: int| 14 < j < 28 ==> s[14].name@ != #[trigger] s[j].name@,
{
    lemma_builtin_names();
    assert("sand"@[1] != "snow"@[1]);
    assert("sand"@[0] != "lava"@[0]);
    assert("sand"@[0] != "acid"@[0]);
    assert("sand"@[0] != "fire"@[0]);
    assert("sand"@.len() != "dirt_debris"@.len());
    assert("sand"@.len() != "stone_debris"@.len());
    assert("sand"@.len() != "water"@.len());
    assert("sand"@.len() != "smoke"@.len());
    assert("sand"@.len() != "steam"@.len());
    assert("sand"@.len() != "wall_dirt"@.len());
    assert("sand"@.len() != "wall_stone"@.len());
    assert("sand"@.len() != "wall_snow"@.len());
    assert("sand"@.len() != "wall_sand"@.len());
    assert forall|j: int| 14 < j < 28 implies s[14].name@ != #[trigger] s[j].name@ by {
        assert(j == 15 || j == 16 || j == 17 || j == 18 || j == 19 || j == 20 || j == 21 || j == 22 || j == 23 || j == 24 || j == 25 || j == 26 || j == 27);
    }
}

proof fn lemma_builtin_row_15(s: Seq<MaterialDef>)
    requires
        is_builtin_table(s),
    ensures
        forall|j: int| 15 < j < 28 ==> s[15].name@ != #[trigger] s[j].name@,
{
    lemma_builtin_names();
    assert("snow"@[0] != "lava"@[0]);
    assert("snow"@[0] != "acid"@[0]);
    assert("snow"@[0] != "fire"@[0]);
    assert("snow"@.len() != "dirt_debris"@.len());
    assert("snow"@.len() != "stone_debris"@.len());
    assert("snow"@.len() != "water"@.len());
    assert("snow"@.len() != "smoke"@.len());
    assert("snow"@.len() != "steam"@.len());
    assert("snow"@.len() != "wall_dirt"@.len());
    assert("snow"@.len() != "wall_stone"@.len());
    assert("snow"@.len() != "wall_snow"@.len());
    assert("snow"@.len() != "wall_sand"@.len());
    assert forall|j: int| 15 < j < 28 implies s[15].name@ != #[trigger] s[j].name@ by {
        assert(j == 16 || j == 17 || j == 18 || j == 19 || j == 20 || j == 21 || j == 22 || j == 23 || j == 24 || j == 25 || j == 26 || j == 27);
    }
}

proof fn lemma_builtin_row_16(s: Seq<MaterialDef>)
    requires
        is_builtin_table(s),
    ensures
        forall|j: int| 16 < j < 28 ==> s[16].name@ != #[trigger] s[j].name@,
{
    lemma_builtin_names();
    assert("dirt_debris"@.len() != "stone_debris"@.len());
    assert("dirt_debris"@.len() != "water"@.len());
    assert("dirt_debris"@.len() != "lava"@.len());
    assert("dirt_debris"@.len() != "acid"@.len());
    assert("dirt_debris"@.len() != "fire"@.len());
    assert("dirt_debris"@.len() != "smoke"@.len());
    assert("dirt_debris"@.len() != "steam"@.len());
    assert("dirt_debris"@.len() != "wall_dirt"@.len());
    assert("dirt_debris"@.len() != "wall_stone"@.len());
    assert("dirt_debris"@.len() != "wall_snow"@.len());
    assert("dirt_debris"@.len() != "wall_sand"@.len());
    assert forall|j: int| 16 < j < 28 implies s[16].name@ != #[trigger] s[j].name@ by {
        assert(j == 17 || j == 18 || j == 19 || j == 20 || j == 21 || j == 22 || j == 23 || j == 24 || j == 25 || j == 26 || j == 27);
    }
}

proof fn lemma_builtin_row_17(s: Seq<MaterialDef>)
    requires
        is_builtin_table(s),
    ensures
        forall|j: int| 17 < j < 28 ==> s[17].name@ != #[trigger] s[j].name@,
{
    lemma_builtin_names();
    assert("stone_debris"@.len() != "water"@.len());
    assert("stone_debris"@.len() != "lava"@.len());
    assert("stone_debris"@.len() != "acid"@.len());
    assert("stone_debris"@.len() != "fire"@.len());
    assert("stone_debris"@.len() != "smoke"@.len());
    assert("stone_debris"@.len() != "steam"@.len());
    assert("stone_debris"@.len() != "wall_dirt"@.len());
    assert("stone_debris"@.len() != "wall_stone"@.len());
    assert("stone_debris"@.len() != "wall_snow"@.len());
    assert("stone_debris"@.len() != "wall_sand"@.len());
    assert forall|j: int| 17 < j < 28 implies s[17].name@ != #[trigger] s[j].name@ by {
        assert(j == 18 || j == 19 || j == 20 || j == 21 || j == 22 || j == 23 || j == 24 || j == 25 || j == 26 || j == 27);
    }
}

proof fn lemma_builtin_row_18(s: Seq<MaterialDef>)
    requires
        is_builtin_table(s),
    ensures
        forall|j: int| 18 < j < 28 ==> s[18].name@ != #[trigger] s[j].name@,
{
    lemma_builtin_names();
    assert("water"@[0] != "smoke"@[0]);
    assert("water"@[0] != "steam"@[0]);
    assert("water"@.len() != "lava"@.len());
    assert("water"@.len() != "acid"@.len());
    assert("water"@.len() != "fire"@.len());
    assert("water"@.len() != "wall_dirt"@.len());
    assert("water"@.len() != "wall_stone"@.len());
    assert("water"@.len() != "wall_snow"@.len());
    assert("water"@.len() != "wall_sand"@.len());
    assert forall|j: int| 18 < j < 28 implies s[18].name@ != #[trigger] s[j].name@ by {
        assert(j == 19 || j == 20 || j == 21 || j == 22 || j == 23 || j == 24 || j == 25 || j == 26 || j == 27);
    }
}

proof fn lemma_builtin_row_19(s: Seq<MaterialDef>)
    requires
        is_builtin_table(s),
    ensures
        forall|j: int| 19 < j < 28 ==> s[19].name@ != #[trigger] s[j].name@,
{
    lemma_builtin_names();
    assert("lava"@[0] != "acid"@[0]);
    assert("lava"@[0] != "fire"@[0]);
    assert("lava"@.len() != "smoke"@.len());
    assert("lava"@.len() != "steam"@.len());
    assert("lava"@.len() != "wall_dirt"@.len());
    assert("lava"@.len() != "wall_stone"@.len());
    assert("lava"@.len() != "wall_snow"@.len());
    assert("lava"@.len() != "wall_sand"@.len());
    assert forall|j: int| 19 < j < 28 implies s[19].name@ != #[trigger] s[j].name@ by {
        assert(j == 20 || j == 21 || j == 22 || j == 23 || j == 24 || j == 25 || j == 26 || j == 27);
    }
}

proof fn lemma_builtin_row_20(s: Seq<MaterialDef>)
    requires
        is_builtin_table(s),
    ensures
        forall|j: int| 20 < j < 28 ==> s[20].name@ != #[trigger] s[j].name@,
{
    lemma_builtin_names();
    assert("acid"@[0] != "fire"@[0]);
    assert("acid"@.len() != "smoke"@.len());
    assert("acid"@.len() != "steam"@.len());
    assert("acid"@.len() != "wall_dirt"@.len());
    assert("acid"@.len() != "wall_stone"@.len());
    assert("acid"@.len() != "wall_snow"@.len());
    assert("acid"@.len() != "wall_sand"@.len());
    assert forall|j: int| 20 < j < 28 implies s[20].name@ != #[trigger] s[j].name@ by {
        assert(j == 21 || j == 22 || j == 23 || j == 24 || j == 25 || j == 26 || j == 27);
    }
}

proof fn lemma_builtin_row_21(s: Seq<MaterialDef>)
    requires
        is_builtin_table(s),
    ensures
        forall|j: int| 21 < j < 28 ==> s[21].name@ != #[trigger] s[j].name@,
{
    lemma_builtin_names();
    assert("fire"@.len() != "smoke"@.len());
    assert("fire"@.len() != "steam"@.len());
    assert("fire"@.len() != "wall_dirt"@.len());
    assert("fire"@.len() != "wall_stone"@.len());
    assert("fire"@.len() != "wall_snow"@.len());
    assert("fire"@.len() != "wall_sand"@.len());
    assert forall|j: int| 21 < j < 28 implies s[21].name@ != #[trigger] s[j].name@ by {
        assert(j == 22 || j == 23 || j == 24 || j == 25 || j == 26 || j == 27);
    }
}

proof fn lemma_builtin_row_22(s: Seq<MaterialDef>)
    requires
        is_builtin_table(s),
    ensures
        forall|j: int| 22 < j < 28 ==> s[22].name@ != #[trigger] s[j].name@,
{
    lemma_builtin_names();
    assert("smoke"@[1] != "steam"@[1]);
    assert("smoke"@.len() != "wall_dirt"@.len());
    assert("smoke"@.len() != "wall_stone"@.len());
    assert("smoke"@.len() != "wall_snow"@.len());
    assert("smoke"@.len() != "wall_sand"@.len());
    assert forall|j: int| 22 < j < 28 implies s[22].name@ != #[trigger] s[j].name@ by {
        assert(j == 23 || j == 24 || j == 25 || j == 26 || j == 27);
    }
}

proof fn lemma_builtin_row_23(s: Seq<MaterialDef>)
    requires
        is_builtin_table(s),
    ensures
        forall|j: int| 23 < j < 28 ==> s[23].name@ != #[trigger] s[j].name@,
{
    lemma_builtin_names();
    assert("steam"@.len() != "wall_dirt"@.len());
    assert("steam"@.len() != "wall_stone"@.len());
    assert("steam"@.len() != "wall_snow"@.len());
    assert("steam"@.len() != "wall_sand"@.len());
    assert forall|j: int| 23 < j < 28 implies s[23].name@ != #[trigger] s[j].name@ by {
        assert(j == 24 || j == 25 || j == 26 || j == 27);
    }
}

proof fn lemma_builtin_row_24(s: Seq<MaterialDef>)
    requires
        is_builtin_table(s),
    ensures
        forall|j: int| 24 < j < 28 ==> s[24].name@ != #[trigger] s[j].name@,
{
    lemma_builtin_names();
    assert("wall_dirt"@[5] != "wall_snow"@[5]);
    assert("wall_dirt"@[5] != "wall_sand"@[5]);
    assert("wall_dirt"@.len() != "wall_stone"@.len());
    assert forall|j: int| 24 < j < 28 implies s[24].name@ != #[trigger] s[j].name@ by {
        assert(j == 25 || j == 26 || j == 27);
    }
}

proof fn lemma_builtin_row_25(s: Seq<MaterialDef>)
    requires
        is_builtin_table(s),
    ensures
        forall|j: int| 25 < j < 28 ==> s[25].name@ != #[trigger] s[j].name@,
{
    lemma_builtin_names();
    assert("wall_stone"@.len() != "wall_snow"@.len());
    assert("wall_stone"@.len() != "wall_sand"@.len());
    assert forall|j: int| 25 < j < 28 implies s[25].name@ != #[trigger] s[j].name@ by {
        assert(j == 26 || j == 27);
    }
}

proof fn lemma_builtin_row_26(s: Seq<MaterialDef>)
    requires
        is_builtin_table(s),
    ensures
        forall|j: int| 26 < j < 28 ==> s[26].name@ != #[trigger] s[j].name@,
{
    lemma_builtin_names();
    assert("wall_snow"@[6] != "wall_sand"@[6]);
    assert forall|j: int| 26 < j < 28 implies s[26].name@ != #[trigger] s[j].name@ by {
        assert(j == 27);
    }
}

proof fn lemma_builtin_distinct(s: Seq<MaterialDef>)
    requires
        is_builtin_table(s),
    ensures
        names_distinct(s),
{
    lemma_builtin_row_0(s);
    lemma_builtin_row_1(s);
    lemma_builtin_row_2(s);
    lemma_builtin_row_3(s);
    lemma_builtin_row_4(s);
    lemma_builtin_row_5(s);
    lemma_builtin_row_6(s);
    lemma_builtin_row_7(s);
    lemma_builtin_row_8(s);
    lemma_builtin_row_9(s);
    lemma_builtin_row_10(s);
    lemma_builtin_row_11(s);
    lemma_builtin_row_12(s);
    lemma_builtin_row_13(s);
    lemma_builtin_row_14(s);
    lemma_builtin_row_15(s);
    lemma_builtin_row_16(s);
    lemma_builtin_row_17(s);
    lemma_builtin_row_18(s);
    lemma_builtin_row_19(s);
    lemma_builtin_row_20(s);
    lemma_builtin_row_21(s);
    lemma_builtin_row_22(s);
    lemma_builtin_row_23(s);
    lemma_builtin_row_24(s);
    lemma_builtin_row_25(s);
    lemma_builtin_row_26(s);
    assert forall|i: int, j: int| 0 <= i < j < s.len() implies s[i].name@ != s[j].name@ by {
        assert(i == 0 || i == 1 || i == 2 || i == 3 || i == 4 || i == 5 || i == 6 || i == 7 || i == 8 || i == 9 || i == 10 || i == 11 || i == 12 || i == 13 || i == 14 || i == 15 || i == 16 || i == 17 || i == 18 || i == 19 || i == 20 || i == 21 || i == 22 || i == 23 || i == 24 || i == 25 || i == 26);
    }
}

pub struct Materials {
    defs: Vec<MaterialDef>,
}

impl View for Materials {
    type V = Seq<MaterialDef>;

    closed spec fn view(&self) -> Seq<MaterialDef> {
        self.defs@
    }
}

impl Materials {
    /// Entry 0 is the empty material and names are unique.
    pub open spec fn wf(&self) -> bool {
        &&& 1 <= self@.len() <= MAX_MATERIALS + 1
        &&& is_empty_def(self@[0])
        &&& names_distinct(self@)
    }

    /// The definition `def` hands back for `id` (the empty one for unknown ids).
    pub open spec fn def_spec(&self, id: MaterialId) -> MaterialDef {
        if (id as int) < self@.len() {
            self@[id as int]
        } else {
            self@[0]
        }
    }

    /// The id `id` hands back for `name`.
    pub open spec fn id_spec(&self, name: Seq<char>) -> Option<MaterialId> {
        if exists|i: int| 0 <= i < self@.len() && self@[i].name@ == name {
            Some((choose|i: int| 0 <= i < self@.len() && self@[i].name@ == name) as u8)
        } else {
            None
        }
    }

    /// Builds a table from definitions: "empty" takes id 0 and the definitions follow in order.
    /// Fails on the first definition whose name is already taken, else when there are
    /// more than `MAX_MATERIALS` definitions (ids 0 and 255 are reserved).
    pub fn from_defs(defs: Vec<MaterialDef>) -> (r: Result<Materials, String>)
        ensures
            (forall|k: int| !dup_at(defs@, k)) && defs@.len() > MAX_MATERIALS ==> (r matches Err(e) && e@ == "too many materials"@),
            r is Ok <==> (defs@.len() <= MAX_MATERIALS && forall|k: int| !dup_at(defs@, k)),
            r matches Ok(m) ==> {
                &&& m.wf()
                &&& m@.len() == defs@.len() + 1
                &&& forall|i: int| 0 <= i < defs@.len() ==> m@[i + 1] == defs@[i]
            },
            r matches Err(e) ==> ((exists|k: int| dup_at(defs@, k)) ==> exists|k: int|
                #![trigger dup_at(defs@, k)]
                {
                    &&& dup_at(defs@, k)
                    &&& forall|j: int| 0 <= j < k ==> !dup_at(defs@, j)
                    &&& e@ == "duplicate material name: "@ + defs@[k].name@
                }),
    {
        let n = defs.len();
        let mut k: usize = 0;
        while k < n
            invariant
                n == defs@.len(),
                0 <= k <= n,
                forall|j: int| 0 <= j < k ==> !dup_at(defs@, j),
            decreases n - k,
        {
            let mut dup = str_eq(defs[k].name.as_str(), "empty");
            let mut j: usize = 0;
            while j < k && !dup
                invariant
                    n == defs@.len(),
                    0 <= j <= k < n,
                    dup == (defs@[k as int].name@ == "empty"@ || exists|i: int| 0 <= i < j && defs@[i].name@ == defs@[k as int].name@),
                decreases k - j,
            {
                if defs[j].name == defs[k].name {
                    dup = true;
                }
                j = j + 1;
            }
            if dup {
                assert(dup_at(defs@, k as int));
                let mut msg = "duplicate material name: ".to_owned();
                msg.append(defs[k].name.as_str());
                return Err(msg);
            }
            assert(!dup_at(defs@, k as int));
            k = k + 1;
        }
        if n > MAX_MATERIALS {
            return Err("too many materials".to_owned());
        }
        let mut all = vec![def_of("empty", Kind::Static, (0, 0, 0), 0, 0, 0, 0, 0, 0, 0, None, false, false, false, 0, 0, false, None)];
        let ghost first = all@[0];
        let mut rest = defs;
        all.append(&mut rest);
        let m = Materials { defs: all };
        assert forall|i: int, j: int| 0 <= i < j < m@.len() implies m@[i].name@ != m@[j].name@ by {
            if i == 0 {
                assert(!dup_at(defs@, j - 1));
            } else {
                assert(!dup_at(defs@, j - 1));
                assert(defs@[i - 1].name@ != defs@[j - 1].name@);
            }
        }
        Ok(m)
    }

    /// The built-in material table.
    pub fn embedded() -> (m: Materials)
        ensures
            m.wf(),
            is_builtin_table(m@),
    {
        let defs = vec![
            def_of("empty", Kind::Static, (0, 0, 0), 0, 0, 0, 0, 0, 0, 0, None, false, false, false, 0, 0, false, None),
        def_of("dirt", Kind::Static, (121, 85, 58), 10, 1000, 0, 0, 60, 0, 0, None, true, false, false, 20, 0, false, Some("dirt_debris")),
        def_of("grass", Kind::Static, (86, 140, 60), 10, 1000, 0, 0, 60, 0, 0, None, true, false, false, 20, 0, false, Some("dirt_debris")),
        def_of("stone", Kind::Static, (110, 110, 118), 8, 1000, 0, 0, 60, 0, 0, None, true, false, false, 60, 0, false, Some("stone_debris")),
        def_of("bedrock", Kind::Static, (50, 48, 56), 6, 1000, 0, 0, 60, 0, 0, None, true, false, false, 0, 0, true, None),
        def_of("sandstone", Kind::Static, (196, 170, 112), 8, 1000, 0, 0, 60, 0, 0, None, true, false, false, 35, 0, false, Some("sand")),
        def_of("snowpack", Kind::Static, (226, 234, 244), 6, 1000, 0, 0, 60, 0, 0, None, true, false, false, 12, 0, false, Some("snow")),
        def_of("coal_ore", Kind::Static, (58, 56, 60), 10, 1000, 0, 0, 60, 0, 0, None, true, false, false, 80, 0, false, Some("stone_debris")),
        def_of("iron_ore", Kind::Static, (150, 120, 100), 10, 1000, 0, 0, 60, 0, 0, None, true, false, false, 100, 0, false, Some("stone_debris")),
        def_of("gold_ore", Kind::Static, (214, 176, 64), 10, 1000, 0, 0, 60, 0, 0, None, true, false, false, 130, 0, false, Some("stone_debris")),
        def_of("wood", Kind::Static, (120, 84, 50), 10, 1000, 0, 70, 90, 0, 0, None, false, false, false, 25, 0, false, None),
        def_of("leaf", Kind::Static, (70, 130, 58), 14, 1000, 0, 140, 30, 0, 0, None, false, false, false, 5, 0, false, None),
        def_of("rope", Kind::Static, (160, 130, 80), 4, 1000, 0, 90, 40, 0, 0, None, false, false, true, 5, 0, false, None),
        def_of("torch", Kind::Static, (255, 200, 90), 0, 1000, 0, 0, 60, 0, 0, None, false, false, false, 5, 255, false, None),
        def_of("sand", Kind::Powder, (214, 190, 120), 10, 1500, 0, 0, 60, 0, 0, None, false, false, false, 0, 0, false, None),
        def_of("snow", Kind::Powder, (236, 242, 250), 6, 500, 0, 0, 60, 0, 0, None, false, false, false, 0, 0, false, None),
        def_of("dirt_debris", Kind::Powder, (112, 80, 54), 10, 1400, 0, 0, 60, 0, 0, None, false, false, false, 0, 0, false, None),
        def_of("stone_debris", Kind::Powder, (104, 104, 112), 10, 1800, 0, 0, 60, 0, 0, None, false, false, false, 0, 0, false, None),
        def_of("water", Kind::Liquid, (52, 110, 200), 6, 1000, 6, 0, 60, 0, 0, None, false, false, false, 0, 0, false, None),
        def_of("lava", Kind::Liquid, (240, 100, 30), 16, 2500, 2, 0, 60, 0, 200, Some(Special::Lava), false, false, false, 0, 0, false, None),
        def_of("acid", Kind::Liquid, (120, 230, 60), 10, 1050, 4, 0, 60, 0, 0, Some(Special::Acid), false, false, false, 0, 0, false, None),
        def_of("fire", Kind::Gas, (255, 140, 40), 30, 1000, 0, 0, 60, 40, 220, Some(Special::Fire), false, false, false, 0, 0, false, None),
        def_of("smoke", Kind::Gas, (70, 70, 74), 12, 1000, 0, 0, 60, 90, 0, None, false, false, false, 0, 0, false, None),
        def_of("steam", Kind::Gas, (200, 210, 220), 8, 1000, 0, 0, 60, 120, 0, None, false, false, false, 0, 0, false, None),
        def_of("wall_dirt", Kind::Static, (72, 52, 36), 8, 1000, 0, 0, 60, 0, 0, None, false, false, false, 0, 0, false, None),
        def_of("wall_stone", Kind::Static, (62, 62, 68), 8, 1000, 0, 0, 60, 0, 0, None, false, false, false, 0, 0, false, None),
        def_of("wall_snow", Kind::Static, (120, 130, 146), 8, 1000, 0, 0, 60, 0, 0, None, false, false, false, 0, 0, false, None),
        def_of("wall_sand", Kind::Static, (112, 98, 66), 8, 1000, 0, 0, 60, 0, 0, None, false, false, false, 0, 0, false, None),
        ];
        let m = Materials { defs };
        proof {
            reveal_strlit("empty");
            lemma_builtin_distinct(m@);
        }
        m
    }

    /// The definition of `id`; unknown ids give the empty definition.
    pub fn def(&self, id: MaterialId) -> (d: &MaterialDef)
        requires
            self.wf(),
        ensures
            *d == self.def_spec(id),
    {
        if (id as usize) < self.defs.len() {
            &self.defs[id as usize]
        } else {
            &self.defs[0]
        }
    }

    /// The id of the material called `name`, if any.
    pub fn id(&self, name: &str) -> (r: Option<MaterialId>)
        requires
            self.wf(),
        ensures
            r == self.id_spec(name@),
            r matches Some(k) ==> exists|i: int| 0 <= i < self@.len() && self@[i].name@ == name@ && k == i as u8,
            r matches Some(k) ==> k != 255,
            r is None <==> forall|i: int| 0 <= i < self@.len() ==> self@[i].name@ != name@,
    {
        let n = self.defs.len();
        let mut i: usize = 0;
        while i < n
            invariant
                self.wf(),
                n == self@.len(),
                0 <= i <= n,
                forall|j: int| 0 <= j < i ==> self@[j].name@ != name@,
            decreases n - i,
        {
            if str_eq(self.defs[i].name.as_str(), name) {
                let ghost c = choose|j: int| 0 <= j < self@.len() && self@[j].name@ == name@;
                assert(c == i as int);
                return Some(#[verifier::truncate] (i as u8));
            }
            i = i + 1;
        }
        None
    }

    pub fn len(&self) -> (n: usize)
        ensures
            n == self@.len(),
    {
        self.defs.len()
    }

    /// Never empty: entry 0 always exists.
    pub fn is_empty(&self) -> (b: bool)
        ensures
            !b,
    {
        false
    }
}

} // verus!
