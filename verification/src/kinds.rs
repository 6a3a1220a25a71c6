use vstd::prelude::*;

verus! {

/// How an item is used: immediately on activation, or only after the caller
/// has prompted for a target coordinate.
#[derive(Clone, Copy, PartialEq, Eq, Structural, Debug)]
pub enum ItemUsage {
    Immediate,
    Aim,
}

#[derive(Clone, Copy, PartialEq, Eq, Structural, Debug)]
pub enum ProjectileType {
    Fireball,
}

impl ProjectileType {
    pub fn name(self) -> (r: &'static str)
        ensures
            r@ == "fireball"@,
    {
        match self {
            Self::Fireball => "fireball",
        }
    }
}

#[derive(Clone, Copy, PartialEq, Eq, Structural, Debug)]
pub enum ItemType {
    HealthPotion,
    FireballScroll,
}

impl ItemType {
    pub fn name(self) -> (r: &'static str)
        ensures
            self == ItemType::HealthPotion ==> r@ == "health potion"@,
            self == ItemType::FireballScroll ==> r@ == "fireball scroll"@,
    {
        match self {
            Self::HealthPotion => "health potion",
            Self::FireballScroll => "fireball scroll",
        }
    }
}

#[derive(Clone, Copy, PartialEq, Eq, Structural, Debug)]
pub enum NpcType {
    Orc,
    Troll,
}

impl NpcType {
    pub fn name(self) -> (r: &'static str)
        ensures
            self == NpcType::Orc ==> r@ == "orc"@,
            self == NpcType::Troll ==> r@ == "troll"@,
    {
        match self {
            Self::Orc => "orc",
            Self::Troll => "troll",
        }
    }

    /// The hit points an npc of this kind starts with.
    pub open spec fn spec_starting_hit_points(self) -> u32 {
        match self {
            NpcType::Orc => 2,
            NpcType::Troll => 6,
        }
    }
}

/// The semantic identity of an entity: what it currently is on the map.
#[derive(Clone, Copy, PartialEq, Eq, Structural, Debug)]
pub enum Tile {
    Player,
    PlayerCorpse,
    Floor,
    Wall,
    Npc(NpcType),
    NpcCorpse(NpcType),
    Item(ItemType),
    Projectile(ProjectileType),
}

/// A character's health. `current` is clamped at zero and never exceeds
/// `max`.
#[derive(Clone, Copy, PartialEq, Eq, Structural, Debug)]
pub struct HitPoints {
    pub current: u32,
    pub max: u32,
}

impl HitPoints {
    pub fn new_full(max: u32) -> (r: HitPoints)
        ensures
            r.current == max,
            r.max == max,
    {
        HitPoints { current: max, max }
    }
}

/// One structured entry of the append-only message log. The core appends;
/// the presentation layer formats.
#[derive(Clone, Copy, PartialEq, Eq, Structural, Debug)]
pub enum LogMessage {
    PlayerAttacksNpc(NpcType),
    PlayerKillsNpc(NpcType),
    NpcAttacksPlayer(NpcType),
    NpcKillsPlayer(NpcType),
    PlayerGets(ItemType),
    PlayerDrops(ItemType),
    PlayerInventoryIsFull,
    NoItemUnderPlayer,
    NoItemInInventorySlot,
    NoSpaceToDropItem,
    PlayerHeals,
    PlayerLaunchesProjectile(ProjectileType),
    NpcDies(NpcType),
}

/// The externally facing description of what occupies a cell.
#[derive(Clone, Copy, PartialEq, Eq, Structural, Debug)]
pub enum ExamineCell {
    Npc(NpcType),
    NpcCorpse(NpcType),
    Item(ItemType),
    Player,
}

/// One cell of a terrain description, as handed to `World::populate` by the
/// terrain generator.
#[derive(Clone, Copy, PartialEq, Eq, Structural, Debug)]
pub enum TerrainTile {
    Player,
    Floor,
    Wall,
    Npc(NpcType),
    Item(ItemType),
}

} // verus!
