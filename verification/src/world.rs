use crate::entity::{Entity, EntityAllocator};
use crate::geom::{CardinalDirection, Coord, Size};
use crate::inventory::Inventory;
use crate::kinds::{
    ExamineCell, HitPoints, ItemType, ItemUsage, LogMessage, NpcType, ProjectileType, TerrainTile,
    Tile,
};
use crate::spatial::{Layer, Location, SpatialTable};
use crate::table::ComponentTable;
use crate::trajectory::Trajectory;
use vstd::prelude::*;

verus! {

/// The fixed schema of attribute tables: one sparse table per attribute
/// kind.
pub struct Components {
    tile: ComponentTable<Tile>,
    npc_type: ComponentTable<NpcType>,
    hit_points: ComponentTable<HitPoints>,
    item: ComponentTable<ItemType>,
    inventory: ComponentTable<Inventory>,
    trajectory: ComponentTable<Trajectory>,
    projectile: ComponentTable<ProjectileType>,
}

/// The simulation core: entity identities, their typed attributes, their
/// spatial placement, and the rules that mutate them.
pub struct World {
    entity_allocator: EntityAllocator,
    components: Components,
    spatial_table: SpatialTable,
}

/// What `World::populate` hands back: the player entity and the npc
/// entities spawned, for the caller to register in its own AI-state table.
pub struct Populate {
    pub player_entity: Entity,
    pub npc_entities: Vec<Entity>,
}

/// Keys of `m` are handles issued by `alloc`, so distinct keys have
/// distinct slot indices.
proof fn lemma_keys_unique<T>(alloc: &EntityAllocator, m: Map<Entity, T>, e: Entity)
    requires
        alloc.wf(),
        alloc.live(e),
        forall|e2: Entity| #[trigger] m.contains_key(e2) ==> alloc.live(e2),
    ensures
        forall|e2: Entity| m.contains_key(e2) && e2.index == e.index ==> e2 == e,
{
    assert forall|e2: Entity| m.contains_key(e2) && e2.index == e.index implies e2 == e by {
        alloc.lemma_live_same_index(e2, e);
    }
}

/// The occupant of slot (`c2`, `l2`) after entity `e` has been destroyed:
/// the slot `e` held is vacated and every other slot is untouched.
pub open spec fn spec_world_removed_occupant(
    pre: World,
    e: Entity,
    c2: Coord,
    l2: Layer,
) -> Option<Entity> {
    if pre.occupant(c2, l2) == Some(e) {
        None
    } else {
        pre.occupant(c2, l2)
    }
}

/// The occupant of slot (`c2`, `l2`) after a fresh entity `e` has been
/// placed at (`coord`, `l`): that slot holds `e` and every other slot is
/// untouched.
pub open spec fn spec_spawned_occupant(
    pre: World,
    e: Entity,
    coord: Coord,
    l: Layer,
    c2: Coord,
    l2: Layer,
) -> Option<Entity> {
    if c2 == coord && l2 == l {
        Some(e)
    } else {
        pre.occupant(c2, l2)
    }
}

/// `m` with `o`'s entry removed, if `o` names an entity.
pub open spec fn spec_remove_opt<T>(m: Map<Entity, T>, o: Option<Entity>) -> Map<Entity, T> {
    match o {
        Some(x) => m.remove(x),
        None => m,
    }
}

/// The corpse tile a dying character's tile turns into.
pub open spec fn spec_corpse_tile(t: Tile) -> Tile {
    match t {
        Tile::Player => Tile::PlayerCorpse,
        Tile::Npc(k) => Tile::NpcCorpse(k),
        _ => t,
    }
}

/// The occupant of slot (`c2`, `l2`) after entity `e` has been moved to
/// `location`: the destination slot holds `e`, the slot `e` held before is
/// vacated, and every other slot is untouched.
pub open spec fn spec_world_moved_occupant(
    pre: World,
    e: Entity,
    location: Location,
    c2: Coord,
    l2: Layer,
) -> Option<Entity> {
    if location.layer == Some(l2) && c2 == location.coord {
        Some(e)
    } else if pre.occupant(c2, l2) == Some(e) {
        None
    } else {
        pre.occupant(c2, l2)
    }
}

/// The ground object a corpse displaces: the occupant of the Object layer
/// at the dying character's coordinate, if it is another entity.
pub open spec fn spec_displaced_object(pre: World, e: Entity) -> Option<Entity> {
    let occ = pre.occupant(pre.locs()[e].coord, Layer::Object);
    if occ == Some(e) {
        None
    } else {
        occ
    }
}

/// Relates the world before and after `amount` damage lands on `victim`:
/// hit points are floored at zero, and reaching zero (`died`) rehomes the
/// corpse to the Object layer, destroying any ground object already there.
pub open spec fn spec_damage_applied(
    pre: World,
    post: World,
    victim: Entity,
    amount: u32,
    died: bool,
) -> bool {
    if !pre.hps().contains_key(victim) {
        post == pre && !died
    } else {
        let h = pre.hps()[victim];
        if h.current > amount {
            &&& !died
            &&& post.spec_size() == pre.spec_size()
            &&& (forall|x: Entity| post.live(x) == pre.live(x))
            &&& post.tiles() == pre.tiles()
            &&& post.npcs() == pre.npcs()
            &&& post.hps() == pre.hps().insert(
                victim,
                HitPoints { current: (h.current - amount) as u32, max: h.max },
            )
            &&& post.items() == pre.items()
            &&& post.inventories() == pre.inventories()
            &&& post.trajectories() == pre.trajectories()
            &&& post.projectiles() == pre.projectiles()
            &&& post.locs() == pre.locs()
            &&& (forall|c2: Coord, l2: Layer|
                pre.spec_in_bounds(c2) ==> post.occupant(c2, l2) == pre.occupant(c2, l2))
        } else {
            let c = pre.locs()[victim].coord;
            let disp = spec_displaced_object(pre, victim);
            &&& died
            &&& post.spec_size() == pre.spec_size()
            &&& (forall|x: Entity| post.live(x) == (pre.live(x) && Some(x) != disp))
            &&& post.tiles() == spec_remove_opt(pre.tiles(), disp).insert(
                victim,
                spec_corpse_tile(pre.tiles()[victim]),
            )
            &&& post.npcs() == spec_remove_opt(pre.npcs(), disp)
            &&& post.hps() == spec_remove_opt(pre.hps(), disp).insert(
                victim,
                HitPoints { current: 0, max: h.max },
            )
            &&& post.items() == spec_remove_opt(pre.items(), disp)
            &&& post.inventories() == spec_remove_opt(pre.inventories(), disp)
            &&& post.trajectories() == spec_remove_opt(pre.trajectories(), disp)
            &&& post.projectiles() == spec_remove_opt(pre.projectiles(), disp)
            &&& post.locs() == spec_remove_opt(pre.locs(), disp).insert(
                victim,
                Location { coord: c, layer: Some(Layer::Object) },
            )
            &&& (forall|c2: Coord, l2: Layer|
                pre.spec_in_bounds(c2) ==> post.occupant(c2, l2) == spec_world_moved_occupant(
                    pre,
                    victim,
                    Location { coord: c, layer: Some(Layer::Object) },
                    c2,
                    l2,
                ))
        }
    }
}

/// The log entry for one resolved attack, by attacker identity and
/// outcome.
pub open spec fn spec_combat_message(
    attacker_is_player: bool,
    victim_dies: bool,
    npc_type: NpcType,
) -> LogMessage {
    if attacker_is_player {
        if victim_dies {
            LogMessage::PlayerKillsNpc(npc_type)
        } else {
            LogMessage::PlayerAttacksNpc(npc_type)
        }
    } else {
        if victim_dies {
            LogMessage::NpcKillsPlayer(npc_type)
        } else {
            LogMessage::NpcAttacksPlayer(npc_type)
        }
    }
}

struct VictimDies;

impl World {

    pub closed spec fn tiles(self) -> Map<Entity, Tile> {
        self.components.tile@
    }

    pub closed spec fn npcs(self) -> Map<Entity, NpcType> {
        self.components.npc_type@
    }

    pub closed spec fn hps(self) -> Map<Entity, HitPoints> {
        self.components.hit_points@
    }

    pub closed spec fn items(self) -> Map<Entity, ItemType> {
        self.components.item@
    }

    pub closed spec fn inventories(self) -> Map<Entity, Inventory> {
        self.components.inventory@
    }

    pub closed spec fn trajectories(self) -> Map<Entity, Trajectory> {
        self.components.trajectory@
    }

    pub closed spec fn projectiles(self) -> Map<Entity, ProjectileType> {
        self.components.projectile@
    }

    pub closed spec fn locs(self) -> Map<Entity, Location> {
        self.spatial_table.locs()
    }

    pub closed spec fn occupant(self, c: Coord, l: Layer) -> Option<Entity> {
        self.spatial_table.occupant(c, l)
    }

    pub closed spec fn live(self, e: Entity) -> bool {
        self.entity_allocator.live(e)
    }

    pub closed spec fn spec_size(self) -> Size {
        self.spatial_table.spec_size()
    }

    pub open spec fn spec_in_bounds(self, c: Coord) -> bool {
        c.spec_is_valid(self.spec_size())
    }

    /// Whether `e` is placed on the `Character` layer: the living-character
    /// test.
    pub open spec fn is_character(self, e: Entity) -> bool {
        self.locs().contains_key(e) && self.locs()[e].layer == Some(Layer::Character)
    }

    /// Every placed character that has hit points has strictly positive
    /// hit points, except possibly `ex` (used mid-death).
    pub closed spec fn chars_alive_except(self, ex: Entity) -> bool {
        forall|e: Entity| #[trigger]
            self.is_character(e) && e != ex ==> (self.hps().contains_key(e)
                ==> self.hps()[e].current > 0)
    }

    /// Every placed character that has hit points has strictly positive
    /// hit points: dead characters never stay on the character layer.
    pub closed spec fn chars_alive(self) -> bool {
        forall|e: Entity| #[trigger]
            self.is_character(e) ==> (self.hps().contains_key(e) ==> self.hps()[e].current > 0)
    }

    pub closed spec fn wf(self) -> bool {
        self.wf_except_alive() && self.chars_alive()
    }

    pub closed spec fn wf_except_alive(self) -> bool {
        &&& self.spatial_table.wf()
        &&& self.entity_allocator.wf()
        &&& self.spatial_table.spec_size() == self.spec_size()
        &&& forall|e: Entity| #[trigger] self.tiles().contains_key(e) ==> self.live(e)
        &&& forall|e: Entity| #[trigger] self.npcs().contains_key(e) ==> self.live(e)
        &&& forall|e: Entity| #[trigger] self.hps().contains_key(e) ==> self.live(e)
        &&& forall|e: Entity| #[trigger] self.items().contains_key(e) ==> self.live(e)
        &&& forall|e: Entity| #[trigger] self.inventories().contains_key(e) ==> self.live(e)
        &&& forall|e: Entity| #[trigger] self.trajectories().contains_key(e) ==> self.live(e)
        &&& forall|e: Entity| #[trigger] self.projectiles().contains_key(e) ==> self.live(e)
        &&& forall|e: Entity| #[trigger] self.locs().contains_key(e) ==> self.live(e)
        &&& forall|e: Entity| #[trigger]
            self.hps().contains_key(e) ==> self.hps()[e].current <= self.hps()[e].max
        &&& forall|e: Entity| #[trigger]
            self.is_character(e) ==> {
                &&& self.tiles().contains_key(e)
                &&& (self.tiles()[e] is Player || self.tiles()[e] is Npc)
            }
        &&& forall|e: Entity| #[trigger]
            self.trajectories().contains_key(e) ==> self.locs().contains_key(e)
                && self.locs()[e].layer == Some(Layer::Projectile)
    }

    pub fn new(size: Size) -> (r: World)
        requires
            size.width <= i32::MAX,
            size.height <= i32::MAX,
        ensures
            r.wf(),
            r.spec_size() == size,
            forall|e: Entity| !r.live(e),
            r.tiles() == Map::<Entity, Tile>::empty(),
            r.npcs() == Map::<Entity, NpcType>::empty(),
            r.hps() == Map::<Entity, HitPoints>::empty(),
            r.items() == Map::<Entity, ItemType>::empty(),
            r.inventories() == Map::<Entity, Inventory>::empty(),
            r.trajectories() == Map::<Entity, Trajectory>::empty(),
            r.projectiles() == Map::<Entity, ProjectileType>::empty(),
            r.locs() == Map::<Entity, Location>::empty(),
            forall|c: Coord, l: Layer| r.spec_in_bounds(c) ==> #[trigger] r.occupant(c, l) is None,
    {
        World {
            entity_allocator: EntityAllocator::new(),
            components: Components {
                tile: ComponentTable::new(),
                npc_type: ComponentTable::new(),
                hit_points: ComponentTable::new(),
                item: ComponentTable::new(),
                inventory: ComponentTable::new(),
                trajectory: ComponentTable::new(),
                projectile: ComponentTable::new(),
            },
            spatial_table: SpatialTable::new(size),
        }
    }

    pub fn size(&self) -> (r: Size)
        ensures
            r == self.spec_size(),
    {
        self.spatial_table.grid_size()
    }

    /// Whether any projectile still has a trajectory.
    pub fn has_projectiles(&self) -> (r: bool)
        ensures
            r <==> exists|e: Entity| self.trajectories().contains_key(e),
    {
        let empty = self.components.trajectory.is_empty();
        proof {
            let m1 = self.trajectories();
            let m2 = self.components.trajectory@;
            assert(m1 == m2);
            if exists|e: Entity| m1.contains_key(e) {
                let w = choose|e: Entity| m1.contains_key(e);
                assert(m2.contains_key(w));
            }
            if exists|e: Entity| m2.contains_key(e) {
                let w = choose|e: Entity| m2.contains_key(e);
                assert(m1.contains_key(w));
            }
        }
        !empty
    }

    pub fn inventory(&self, entity: Entity) -> (r: Option<&Inventory>)
        ensures
            match r {
                Some(inv) => self.inventories().contains_key(entity) && *inv
                    == self.inventories()[entity],
                None => !self.inventories().contains_key(entity),
            },
    {
        self.components.inventory.get(entity)
    }

    pub fn item_type(&self, entity: Entity) -> (r: Option<ItemType>)
        ensures
            match r {
                Some(t) => self.items().contains_key(entity) && t == self.items()[entity],
                None => !self.items().contains_key(entity),
            },
    {
        match self.components.item.get(entity) {
            Some(t) => Some(*t),
            None => None,
        }
    }

    pub fn hit_points(&self, entity: Entity) -> (r: Option<HitPoints>)
        ensures
            match r {
                Some(hp) => self.hps().contains_key(entity) && hp == self.hps()[entity],
                None => !self.hps().contains_key(entity),
            },
    {
        match self.components.hit_points.get(entity) {
            Some(hp) => Some(*hp),
            None => None,
        }
    }

    pub fn entity_coord(&self, entity: Entity) -> (r: Option<Coord>)
        ensures
            match r {
                Some(c) => self.locs().contains_key(entity) && c == self.locs()[entity].coord,
                None => !self.locs().contains_key(entity),
            },
    {
        self.spatial_table.coord_of(entity)
    }

    /// True iff the entity is placed on the `Character` layer.
    pub fn is_living_character(&self, entity: Entity) -> (r: bool)
        ensures
            r == self.is_character(entity),
    {
        match self.spatial_table.layer_of(entity) {
            Some(Layer::Character) => true,
            _ => false,
        }
    }

    /// 255 if a feature (a wall) occupies the coordinate, else 0.
    pub fn opacity_at(&self, coord: Coord) -> (r: u8)
        requires
            self.wf(),
            self.spec_in_bounds(coord),
        ensures
            r == if self.occupant(coord, Layer::Feature) is Some {
                255u8
            } else {
                0u8
            },
    {
        let layers = self.spatial_table.layers_at_checked(coord);
        match layers.feature {
            Some(_) => 255,
            None => 0,
        }
    }

    pub fn can_npc_enter_ignoring_other_npcs(&self, coord: Coord) -> (r: bool)
        requires
            self.wf(),
        ensures
            r == (self.spec_in_bounds(coord) && self.occupant(coord, Layer::Feature) is None),
    {
        match self.spatial_table.layers_at(coord) {
            Some(layers) => layers.feature.is_none(),
            None => false,
        }
    }

    pub fn can_npc_see_through_cell(&self, coord: Coord) -> (r: bool)
        requires
            self.wf(),
        ensures
            r == (self.spec_in_bounds(coord) && self.occupant(coord, Layer::Feature) is None),
    {
        match self.spatial_table.layers_at(coord) {
            Some(layers) => layers.feature.is_none(),
            None => false,
        }
    }

    /// Whether an npc may step onto the cell: in bounds, no wall, and no npc
    /// already on the character layer there.
    pub fn can_npc_enter(&self, coord: Coord) -> (r: bool)
        requires
            self.wf(),
        ensures
            r == (self.spec_in_bounds(coord) && self.occupant(coord, Layer::Feature) is None && !(
            self.occupant(coord, Layer::Character) is Some && self.npcs().contains_key(
                self.occupant(coord, Layer::Character)->Some_0,
            ))),
    {
        match self.spatial_table.layers_at(coord) {
            Some(layers) => {
                let contains_npc = match layers.character {
                    Some(e) => self.components.npc_type.contains(e),
                    None => false,
                };
                let contains_feature = layers.feature.is_some();
                !(contains_npc || contains_feature)
            },
            None => false,
        }
    }

    /// What `examine_cell` reports for `c`.
    pub open spec fn spec_examine(self, c: Coord) -> Option<ExamineCell> {
        if !self.spec_in_bounds(c) {
            None
        } else {
            let ce = if self.occupant(c, Layer::Character) is Some {
                self.occupant(c, Layer::Character)
            } else {
                self.occupant(c, Layer::Object)
            };
            match ce {
                None => None,
                Some(e) => if self.tiles().contains_key(e) {
                    match self.tiles()[e] {
                        Tile::Npc(t) => Some(ExamineCell::Npc(t)),
                        Tile::NpcCorpse(t) => Some(ExamineCell::NpcCorpse(t)),
                        Tile::Item(t) => Some(ExamineCell::Item(t)),
                        Tile::Player => Some(ExamineCell::Player),
                        _ => None,
                    }
                } else {
                    None
                },
            }
        }
    }

    /// Describes the character or object occupying `coord`, if its tile kind
    /// is describable.
    pub fn examine_cell(&self, coord: Coord) -> (r: Option<ExamineCell>)
        requires
            self.wf(),
        ensures
            r == self.spec_examine(coord),
    {
        let layers = match self.spatial_table.layers_at(coord) {
            Some(layers) => layers,
            None => {
                return None;
            },
        };
        let chosen = match layers.character {
            Some(e) => Some(e),
            None => layers.object,
        };
        match chosen {
            Some(e) => match self.components.tile.get(e) {
                Some(tile) => match *tile {
                    Tile::Npc(t) => Some(ExamineCell::Npc(t)),
                    Tile::NpcCorpse(t) => Some(ExamineCell::NpcCorpse(t)),
                    Tile::Item(t) => Some(ExamineCell::Item(t)),
                    Tile::Player => Some(ExamineCell::Player),
                    _ => None,
                },
                None => None,
            },
            None => None,
        }
    }

    /// Destroys `e` while one character `ex` may be mid-death: deletes
    /// every attribute, vacates its placement, and frees the handle.
    fn destroy_entity(&mut self, e: Entity, Ghost(ex): Ghost<Entity>)
        requires
            old(self).wf_except_alive(),
            old(self).chars_alive_except(ex),
            old(self).live(e),
        ensures
            final(self).wf_except_alive(),
            final(self).chars_alive_except(ex),
            final(self).spec_size() == old(self).spec_size(),
            forall|e2: Entity| final(self).live(e2) == (old(self).live(e2) && e2 != e),
            final(self).tiles() == old(self).tiles().remove(e),
            final(self).npcs() == old(self).npcs().remove(e),
            final(self).hps() == old(self).hps().remove(e),
            final(self).items() == old(self).items().remove(e),
            final(self).inventories() == old(self).inventories().remove(e),
            final(self).trajectories() == old(self).trajectories().remove(e),
            final(self).projectiles() == old(self).projectiles().remove(e),
            final(self).locs() == old(self).locs().remove(e),
            forall|c2: Coord, l2: Layer|
                old(self).spec_in_bounds(c2) ==> final(self).occupant(c2, l2)
                    == spec_world_removed_occupant(*old(self), e, c2, l2),
    {
        self.components.tile.remove(e);
        self.components.npc_type.remove(e);
        self.components.hit_points.remove(e);
        self.components.item.remove(e);
        self.components.inventory.remove(e);
        self.components.trajectory.remove(e);
        self.components.projectile.remove(e);
        self.spatial_table.remove(e);
        self.entity_allocator.free(e);
        proof {
            assert forall|e2: Entity| #[trigger]
                self.tiles().contains_key(e2) implies self.live(e2) by {
                assert(old(self).tiles().contains_key(e2));
            }
            assert forall|e2: Entity| #[trigger]
                self.npcs().contains_key(e2) implies self.live(e2) by {
                assert(old(self).npcs().contains_key(e2));
            }
            assert forall|e2: Entity| #[trigger]
                self.hps().contains_key(e2) implies self.live(e2) by {
                assert(old(self).hps().contains_key(e2));
            }
            assert forall|e2: Entity| #[trigger]
                self.items().contains_key(e2) implies self.live(e2) by {
                assert(old(self).items().contains_key(e2));
            }
            assert forall|e2: Entity| #[trigger]
                self.inventories().contains_key(e2) implies self.live(e2) by {
                assert(old(self).inventories().contains_key(e2));
            }
            assert forall|e2: Entity| #[trigger]
                self.trajectories().contains_key(e2) implies self.live(e2) by {
                assert(old(self).trajectories().contains_key(e2));
            }
            assert forall|e2: Entity| #[trigger]
                self.projectiles().contains_key(e2) implies self.live(e2) by {
                assert(old(self).projectiles().contains_key(e2));
            }
            assert forall|e2: Entity| #[trigger]
                self.locs().contains_key(e2) implies self.live(e2) by {
                assert(old(self).locs().contains_key(e2));
            }
            assert forall|e2: Entity| #[trigger]
                self.hps().contains_key(e2) implies self.hps()[e2].current <= self.hps()[e2].max by {
                assert(old(self).hps().contains_key(e2));
            }
            assert forall|e2: Entity| #[trigger]
                self.is_character(e2) implies {
                &&& self.tiles().contains_key(e2)
                &&& (self.tiles()[e2] is Player || self.tiles()[e2] is Npc)
                &&& (e2 != ex ==> (self.hps().contains_key(e2) ==> self.hps()[e2].current > 0))
            } by {
                assert(old(self).is_character(e2));
            }
            assert forall|e2: Entity| #[trigger]
                self.trajectories().contains_key(e2) implies self.locs().contains_key(e2)
                && self.locs()[e2].layer == Some(Layer::Projectile) by {
                assert(old(self).trajectories().contains_key(e2));
            }
        }
    }

    /// Destroys `e`: deletes every attribute, vacates its placement, and
    /// frees the handle, in one call. No partially removed state is ever
    /// observable.
    pub fn remove_entity(&mut self, e: Entity)
        requires
            old(self).wf(),
            old(self).live(e),
        ensures
            final(self).wf(),
            final(self).spec_size() == old(self).spec_size(),
            forall|e2: Entity| final(self).live(e2) == (old(self).live(e2) && e2 != e),
            final(self).tiles() == old(self).tiles().remove(e),
            final(self).npcs() == old(self).npcs().remove(e),
            final(self).hps() == old(self).hps().remove(e),
            final(self).items() == old(self).items().remove(e),
            final(self).inventories() == old(self).inventories().remove(e),
            final(self).trajectories() == old(self).trajectories().remove(e),
            final(self).projectiles() == old(self).projectiles().remove(e),
            final(self).locs() == old(self).locs().remove(e),
            forall|c2: Coord, l2: Layer|
                old(self).spec_in_bounds(c2) ==> final(self).occupant(c2, l2)
                    == spec_world_removed_occupant(*old(self), e, c2, l2),
    {
        self.destroy_entity(e, Ghost(e));
        proof {
            assert forall|e2: Entity| #[trigger]
                self.is_character(e2) implies (self.hps().contains_key(e2)
                ==> self.hps()[e2].current > 0) by {
                assert(!self.locs().contains_key(e));
            }
        }
    }

    /// Re-establishes well-formedness after one fresh entity `e` has been
    /// given its components and placed at (`coord`, `l`).
    proof fn lemma_wf_after_spawn(
        pre: World,
        post: World,
        e: Entity,
        coord: Coord,
        l: Layer,
        tile: Tile,
        npc: Option<NpcType>,
        hp: Option<HitPoints>,
        item: Option<ItemType>,
        inv: Option<Inventory>,
        traj: Option<Trajectory>,
        proj: Option<ProjectileType>,
    )
        requires
            pre.wf(),
            pre.spec_in_bounds(coord),
            !pre.live(e),
            post.spatial_table.wf(),
            post.entity_allocator.wf(),
            post.spec_size() == pre.spec_size(),
            forall|e2: Entity| post.live(e2) == (pre.live(e2) || e2 == e),
            post.tiles() == pre.tiles().insert(e, tile),
            post.npcs() == (match npc {
                Some(n) => pre.npcs().insert(e, n),
                None => pre.npcs(),
            }),
            post.hps() == (match hp {
                Some(h) => pre.hps().insert(e, h),
                None => pre.hps(),
            }),
            post.items() == (match item {
                Some(it) => pre.items().insert(e, it),
                None => pre.items(),
            }),
            post.inventories() == (match inv {
                Some(iv) => pre.inventories().insert(e, iv),
                None => pre.inventories(),
            }),
            post.trajectories() == (match traj {
                Some(tr) => pre.trajectories().insert(e, tr),
                None => pre.trajectories(),
            }),
            post.projectiles() == (match proj {
                Some(p) => pre.projectiles().insert(e, p),
                None => pre.projectiles(),
            }),
            post.locs() == pre.locs().insert(e, Location { coord, layer: Some(l) }),
            l == Layer::Character ==> (tile is Player || tile is Npc),
            hp is Some ==> hp->Some_0.current <= hp->Some_0.max,
            l == Layer::Character && hp is Some ==> hp->Some_0.current > 0,
            traj is Some ==> l == Layer::Projectile,
        ensures
            post.wf(),
    {
        assert forall|e2: Entity| #[trigger] post.tiles().contains_key(e2) implies post.live(e2) by {
            if e2 != e {
                assert(pre.tiles().contains_key(e2));
            }
        }
        assert forall|e2: Entity| #[trigger] post.npcs().contains_key(e2) implies post.live(e2) by {
            if e2 != e {
                assert(pre.npcs().contains_key(e2));
            }
        }
        assert forall|e2: Entity| #[trigger] post.hps().contains_key(e2) implies post.live(e2) by {
            if e2 != e {
                assert(pre.hps().contains_key(e2));
            }
        }
        assert forall|e2: Entity| #[trigger] post.items().contains_key(e2) implies post.live(e2) by {
            if e2 != e {
                assert(pre.items().contains_key(e2));
            }
        }
        assert forall|e2: Entity| #[trigger]
            post.inventories().contains_key(e2) implies post.live(e2) by {
            if e2 != e {
                assert(pre.inventories().contains_key(e2));
            }
        }
        assert forall|e2: Entity| #[trigger]
            post.trajectories().contains_key(e2) implies post.live(e2) by {
            if e2 != e {
                assert(pre.trajectories().contains_key(e2));
            }
        }
        assert forall|e2: Entity| #[trigger]
            post.projectiles().contains_key(e2) implies post.live(e2) by {
            if e2 != e {
                assert(pre.projectiles().contains_key(e2));
            }
        }
        assert forall|e2: Entity| #[trigger] post.locs().contains_key(e2) implies post.live(e2) by {
            if e2 != e {
                assert(pre.locs().contains_key(e2));
            }
        }
        assert forall|e2: Entity| #[trigger]
            post.hps().contains_key(e2) implies post.hps()[e2].current <= post.hps()[e2].max by {
            if e2 != e {
                assert(pre.hps().contains_key(e2));
            }
        }
        assert forall|e2: Entity| #[trigger]
            post.is_character(e2) implies {
            &&& post.tiles().contains_key(e2)
            &&& (post.tiles()[e2] is Player || post.tiles()[e2] is Npc)
            &&& (post.hps().contains_key(e2) ==> post.hps()[e2].current > 0)
        } by {
            if e2 != e {
                assert(pre.is_character(e2));
            }
        }
        assert forall|e2: Entity| #[trigger]
            post.trajectories().contains_key(e2) implies post.locs().contains_key(e2)
            && post.locs()[e2].layer == Some(Layer::Projectile) by {
            if e2 != e {
                assert(pre.trajectories().contains_key(e2));
            }
        }
    }

    /// Allocates a fresh entity at `coord` on layer `l` carrying `tile`.
    fn spawn_tile_entity(&mut self, coord: Coord, l: Layer, tile: Tile) -> (e: Entity)
        requires
            old(self).wf(),
            old(self).spec_in_bounds(coord),
            old(self).occupant(coord, l) is None,
            l != Layer::Character,
            l != Layer::Projectile,
        ensures
            final(self).wf(),
            final(self).spec_size() == old(self).spec_size(),
            !old(self).live(e),
            forall|e2: Entity| final(self).live(e2) == (old(self).live(e2) || e2 == e),
            final(self).tiles() == old(self).tiles().insert(e, tile),
            final(self).npcs() == old(self).npcs(),
            final(self).hps() == old(self).hps(),
            final(self).items() == old(self).items(),
            final(self).inventories() == old(self).inventories(),
            final(self).trajectories() == old(self).trajectories(),
            final(self).projectiles() == old(self).projectiles(),
            final(self).locs() == old(self).locs().insert(
                e,
                Location { coord, layer: Some(l) },
            ),
            forall|c2: Coord, l2: Layer|
                old(self).spec_in_bounds(c2) ==> final(self).occupant(c2, l2)
                    == spec_spawned_occupant(*old(self), e, coord, l, c2, l2),
    {
        let e = self.entity_allocator.allocate();
        proof {
            assert forall|e2: Entity| #[trigger] old(self).tiles().contains_key(e2)
                implies self.entity_allocator.live(e2) by {
                assert(old(self).live(e2));
            }
            lemma_keys_unique(&self.entity_allocator, old(self).tiles(), e);
            assert(self.components.tile@ == old(self).tiles());
            assert forall|e2: Entity| #[trigger] old(self).locs().contains_key(e2)
                implies self.entity_allocator.live(e2) by {
                assert(old(self).live(e2));
            }
            lemma_keys_unique(&self.entity_allocator, old(self).locs(), e);
            assert(self.spatial_table.locs() == old(self).locs());
        }
        self.components.tile.insert(e, tile);
        let placed = self.spatial_table.update(e, Location { coord, layer: Some(l) });
        match placed {
            Ok(_) => {},
            Err(_) => {
                proof {
                    assert(false);
                }
            },
        }
        proof {
            assert forall|c2: Coord, l2: Layer|
                old(self).spec_in_bounds(c2) implies self.occupant(c2, l2) == spec_spawned_occupant(
                *old(self),
                e,
                coord,
                l,
                c2,
                l2,
            ) by {
                if old(self).occupant(c2, l2) == Some(e) {
                    old(self).spatial_table.lemma_backward(c2, l2);
                    assert(false);
                }
            }
            World::lemma_wf_after_spawn(
                *old(self),
                *self,
                e,
                coord,
                l,
                tile,
                None,
                None,
                None,
                None,
                None,
                None,
            );
        }
        e
    }

    fn spawn_floor(&mut self, coord: Coord) -> (e: Entity)
        requires
            old(self).wf(),
            old(self).spec_in_bounds(coord),
            old(self).occupant(coord, Layer::Floor) is None,
        ensures
            final(self).wf(),
            final(self).spec_size() == old(self).spec_size(),
            !old(self).live(e),
            forall|e2: Entity| final(self).live(e2) == (old(self).live(e2) || e2 == e),
            final(self).tiles() == old(self).tiles().insert(e, Tile::Floor),
            final(self).npcs() == old(self).npcs(),
            final(self).hps() == old(self).hps(),
            final(self).items() == old(self).items(),
            final(self).inventories() == old(self).inventories(),
            final(self).trajectories() == old(self).trajectories(),
            final(self).projectiles() == old(self).projectiles(),
            final(self).locs() == old(self).locs().insert(
                e,
                Location { coord, layer: Some(Layer::Floor) },
            ),
            forall|c2: Coord, l2: Layer|
                old(self).spec_in_bounds(c2) ==> final(self).occupant(c2, l2)
                    == spec_spawned_occupant(*old(self), e, coord, Layer::Floor, c2, l2),
    {
        self.spawn_tile_entity(coord, Layer::Floor, Tile::Floor)
    }

    fn spawn_wall(&mut self, coord: Coord) -> (e: Entity)
        requires
            old(self).wf(),
            old(self).spec_in_bounds(coord),
            old(self).occupant(coord, Layer::Feature) is None,
        ensures
            final(self).wf(),
            final(self).spec_size() == old(self).spec_size(),
            !old(self).live(e),
            forall|e2: Entity| final(self).live(e2) == (old(self).live(e2) || e2 == e),
            final(self).tiles() == old(self).tiles().insert(e, Tile::Wall),
            final(self).npcs() == old(self).npcs(),
            final(self).hps() == old(self).hps(),
            final(self).items() == old(self).items(),
            final(self).inventories() == old(self).inventories(),
            final(self).trajectories() == old(self).trajectories(),
            final(self).projectiles() == old(self).projectiles(),
            final(self).locs() == old(self).locs().insert(
                e,
                Location { coord, layer: Some(Layer::Feature) },
            ),
            forall|c2: Coord, l2: Layer|
                old(self).spec_in_bounds(c2) ==> final(self).occupant(c2, l2)
                    == spec_spawned_occupant(*old(self), e, coord, Layer::Feature, c2, l2),
    {
        self.spawn_tile_entity(coord, Layer::Feature, Tile::Wall)
    }

    fn spawn_item(&mut self, coord: Coord, item_type: ItemType) -> (e: Entity)
        requires
            old(self).wf(),
            old(self).spec_in_bounds(coord),
            old(self).occupant(coord, Layer::Object) is None,
        ensures
            final(self).wf(),
            final(self).spec_size() == old(self).spec_size(),
            !old(self).live(e),
            forall|e2: Entity| final(self).live(e2) == (old(self).live(e2) || e2 == e),
            final(self).tiles() == old(self).tiles().insert(e, Tile::Item(item_type)),
            final(self).npcs() == old(self).npcs(),
            final(self).hps() == old(self).hps(),
            final(self).items() == old(self).items().insert(e, item_type),
            final(self).inventories() == old(self).inventories(),
            final(self).trajectories() == old(self).trajectories(),
            final(self).projectiles() == old(self).projectiles(),
            final(self).locs() == old(self).locs().insert(
                e,
                Location { coord, layer: Some(Layer::Object) },
            ),
            forall|c2: Coord, l2: Layer|
                old(self).spec_in_bounds(c2) ==> final(self).occupant(c2, l2)
                    == spec_spawned_occupant(*old(self), e, coord, Layer::Object, c2, l2),
    {
        let e = self.entity_allocator.allocate();
        proof {
            assert forall|e2: Entity| #[trigger] old(self).tiles().contains_key(e2)
                implies self.entity_allocator.live(e2) by {
                assert(old(self).live(e2));
            }
            lemma_keys_unique(&self.entity_allocator, old(self).tiles(), e);
            assert(self.components.tile@ == old(self).tiles());
            assert forall|e2: Entity| #[trigger] old(self).items().contains_key(e2)
                implies self.entity_allocator.live(e2) by {
                assert(old(self).live(e2));
            }
            lemma_keys_unique(&self.entity_allocator, old(self).items(), e);
            assert(self.components.item@ == old(self).items());
            assert forall|e2: Entity| #[trigger] old(self).locs().contains_key(e2)
                implies self.entity_allocator.live(e2) by {
                assert(old(self).live(e2));
            }
            lemma_keys_unique(&self.entity_allocator, old(self).locs(), e);
            assert(self.spatial_table.locs() == old(self).locs());
        }
        self.components.tile.insert(e, Tile::Item(item_type));
        self.components.item.insert(e, item_type);
        let placed = self.spatial_table.update(
            e,
            Location { coord, layer: Some(Layer::Object) },
        );
        match placed {
            Ok(_) => {},
            Err(_) => {
                proof {
                    assert(false);
                }
            },
        }
        proof {
            assert forall|c2: Coord, l2: Layer|
                old(self).spec_in_bounds(c2) implies self.occupant(c2, l2) == spec_spawned_occupant(
                *old(self),
                e,
                coord,
                Layer::Object,
                c2,
                l2,
            ) by {
                if old(self).occupant(c2, l2) == Some(e) {
                    old(self).spatial_table.lemma_backward(c2, l2);
                    assert(false);
                }
            }
            World::lemma_wf_after_spawn(
                *old(self),
                *self,
                e,
                coord,
                Layer::Object,
                Tile::Item(item_type),
                None,
                None,
                Some(item_type),
                None,
                None,
                None,
            );
        }
        e
    }

    fn spawn_player(&mut self, coord: Coord) -> (e: Entity)
        requires
            old(self).wf(),
            old(self).spec_in_bounds(coord),
            old(self).occupant(coord, Layer::Character) is None,
        ensures
            final(self).wf(),
            final(self).spec_size() == old(self).spec_size(),
            !old(self).live(e),
            forall|e2: Entity| final(self).live(e2) == (old(self).live(e2) || e2 == e),
            final(self).tiles() == old(self).tiles().insert(e, Tile::Player),
            final(self).npcs() == old(self).npcs(),
            final(self).hps() == old(self).hps().insert(e, HitPoints { current: 20, max: 20 }),
            final(self).items() == old(self).items(),
            final(self).inventories() == old(self).inventories().insert(
                e,
                final(self).inventories()[e],
            ),
            final(self).inventories()[e]@.len() == 10,
            forall|i: int| 0 <= i < 10 ==> final(self).inventories()[e]@[i] is None,
            final(self).trajectories() == old(self).trajectories(),
            final(self).projectiles() == old(self).projectiles(),
            final(self).locs() == old(self).locs().insert(
                e,
                Location { coord, layer: Some(Layer::Character) },
            ),
            forall|c2: Coord, l2: Layer|
                old(self).spec_in_bounds(c2) ==> final(self).occupant(c2, l2)
                    == spec_spawned_occupant(*old(self), e, coord, Layer::Character, c2, l2),
    {
        let e = self.entity_allocator.allocate();
        proof {
            assert forall|e2: Entity| #[trigger] old(self).tiles().contains_key(e2)
                implies self.entity_allocator.live(e2) by {
                assert(old(self).live(e2));
            }
            lemma_keys_unique(&self.entity_allocator, old(self).tiles(), e);
            assert(self.components.tile@ == old(self).tiles());
            assert forall|e2: Entity| #[trigger] old(self).hps().contains_key(e2)
                implies self.entity_allocator.live(e2) by {
                assert(old(self).live(e2));
            }
            lemma_keys_unique(&self.entity_allocator, old(self).hps(), e);
            assert(self.components.hit_points@ == old(self).hps());
            assert forall|e2: Entity| #[trigger] old(self).inventories().contains_key(e2)
                implies self.entity_allocator.live(e2) by {
                assert(old(self).live(e2));
            }
            lemma_keys_unique(&self.entity_allocator, old(self).inventories(), e);
            assert(self.components.inventory@ == old(self).inventories());
            assert forall|e2: Entity| #[trigger] old(self).locs().contains_key(e2)
                implies self.entity_allocator.live(e2) by {
                assert(old(self).live(e2));
            }
            lemma_keys_unique(&self.entity_allocator, old(self).locs(), e);
            assert(self.spatial_table.locs() == old(self).locs());
        }
        self.components.tile.insert(e, Tile::Player);
        self.components.hit_points.insert(e, HitPoints::new_full(20));
        let inv = Inventory::new(10);
        self.components.inventory.insert(e, inv);
        let placed = self.spatial_table.update(
            e,
            Location { coord, layer: Some(Layer::Character) },
        );
        match placed {
            Ok(_) => {},
            Err(_) => {
                proof {
                    assert(false);
                }
            },
        }
        proof {
            assert forall|c2: Coord, l2: Layer|
                old(self).spec_in_bounds(c2) implies self.occupant(c2, l2) == spec_spawned_occupant(
                *old(self),
                e,
                coord,
                Layer::Character,
                c2,
                l2,
            ) by {
                if old(self).occupant(c2, l2) == Some(e) {
                    old(self).spatial_table.lemma_backward(c2, l2);
                    assert(false);
                }
            }
            World::lemma_wf_after_spawn(
                *old(self),
                *self,
                e,
                coord,
                Layer::Character,
                Tile::Player,
                None,
                Some(HitPoints { current: 20, max: 20 }),
                None,
                Some(self.inventories()[e]),
                None,
                None,
            );
        }
        e
    }

    fn spawn_npc(&mut self, coord: Coord, npc_type: NpcType) -> (e: Entity)
        requires
            old(self).wf(),
            old(self).spec_in_bounds(coord),
            old(self).occupant(coord, Layer::Character) is None,
        ensures
            final(self).wf(),
            final(self).spec_size() == old(self).spec_size(),
            !old(self).live(e),
            forall|e2: Entity| final(self).live(e2) == (old(self).live(e2) || e2 == e),
            final(self).tiles() == old(self).tiles().insert(e, Tile::Npc(npc_type)),
            final(self).npcs() == old(self).npcs().insert(e, npc_type),
            final(self).hps() == old(self).hps().insert(
                e,
                HitPoints {
                    current: npc_type.spec_starting_hit_points(),
                    max: npc_type.spec_starting_hit_points(),
                },
            ),
            final(self).items() == old(self).items(),
            final(self).inventories() == old(self).inventories(),
            final(self).trajectories() == old(self).trajectories(),
            final(self).projectiles() == old(self).projectiles(),
            final(self).locs() == old(self).locs().insert(
                e,
                Location { coord, layer: Some(Layer::Character) },
            ),
            forall|c2: Coord, l2: Layer|
                old(self).spec_in_bounds(c2) ==> final(self).occupant(c2, l2)
                    == spec_spawned_occupant(*old(self), e, coord, Layer::Character, c2, l2),
    {
        let e = self.entity_allocator.allocate();
        proof {
            assert forall|e2: Entity| #[trigger] old(self).tiles().contains_key(e2)
                implies self.entity_allocator.live(e2) by {
                assert(old(self).live(e2));
            }
            lemma_keys_unique(&self.entity_allocator, old(self).tiles(), e);
            assert(self.components.tile@ == old(self).tiles());
            assert forall|e2: Entity| #[trigger] old(self).npcs().contains_key(e2)
                implies self.entity_allocator.live(e2) by {
                assert(old(self).live(e2));
            }
            lemma_keys_unique(&self.entity_allocator, old(self).npcs(), e);
            assert(self.components.npc_type@ == old(self).npcs());
            assert forall|e2: Entity| #[trigger] old(self).hps().contains_key(e2)
                implies self.entity_allocator.live(e2) by {
                assert(old(self).live(e2));
            }
            lemma_keys_unique(&self.entity_allocator, old(self).hps(), e);
            assert(self.components.hit_points@ == old(self).hps());
            assert forall|e2: Entity| #[trigger] old(self).locs().contains_key(e2)
                implies self.entity_allocator.live(e2) by {
                assert(old(self).live(e2));
            }
            lemma_keys_unique(&self.entity_allocator, old(self).locs(), e);
            assert(self.spatial_table.locs() == old(self).locs());
        }
        self.components.tile.insert(e, Tile::Npc(npc_type));
        self.components.npc_type.insert(e, npc_type);
        let hit_points = match npc_type {
            NpcType::Orc => HitPoints::new_full(2),
            NpcType::Troll => HitPoints::new_full(6),
        };
        self.components.hit_points.insert(e, hit_points);
        let placed = self.spatial_table.update(
            e,
            Location { coord, layer: Some(Layer::Character) },
        );
        match placed {
            Ok(_) => {},
            Err(_) => {
                proof {
                    assert(false);
                }
            },
        }
        proof {
            assert forall|c2: Coord, l2: Layer|
                old(self).spec_in_bounds(c2) implies self.occupant(c2, l2) == spec_spawned_occupant(
                *old(self),
                e,
                coord,
                Layer::Character,
                c2,
                l2,
            ) by {
                if old(self).occupant(c2, l2) == Some(e) {
                    old(self).spatial_table.lemma_backward(c2, l2);
                    assert(false);
                }
            }
            World::lemma_wf_after_spawn(
                *old(self),
                *self,
                e,
                coord,
                Layer::Character,
                Tile::Npc(npc_type),
                Some(npc_type),
                Some(hit_points),
                None,
                None,
                None,
                None,
            );
        }
        e
    }

    /// Reassigns a dying character's corpse to the Object layer, destroying
    /// any ground object already there (corpses take priority over ground
    /// items), and rewrites its tile to the corpse variant.
    fn character_die(&mut self, entity: Entity)
        requires
            old(self).wf_except_alive(),
            old(self).chars_alive_except(entity),
            old(self).locs().contains_key(entity),
            old(self).locs()[entity].layer == Some(Layer::Character),
            old(self).tiles().contains_key(entity),
            old(self).tiles()[entity] is Player || old(self).tiles()[entity] is Npc,
        ensures
            final(self).wf(),
            final(self).spec_size() == old(self).spec_size(),
            (forall|x: Entity|
                final(self).live(x) == (old(self).live(x) && Some(x) != spec_displaced_object(
                    *old(self),
                    entity,
                ))),
            final(self).tiles() == spec_remove_opt(
                old(self).tiles(),
                spec_displaced_object(*old(self), entity),
            ).insert(entity, spec_corpse_tile(old(self).tiles()[entity])),
            final(self).npcs() == spec_remove_opt(
                old(self).npcs(),
                spec_displaced_object(*old(self), entity),
            ),
            final(self).hps() == spec_remove_opt(
                old(self).hps(),
                spec_displaced_object(*old(self), entity),
            ),
            final(self).items() == spec_remove_opt(
                old(self).items(),
                spec_displaced_object(*old(self), entity),
            ),
            final(self).inventories() == spec_remove_opt(
                old(self).inventories(),
                spec_displaced_object(*old(self), entity),
            ),
            final(self).trajectories() == spec_remove_opt(
                old(self).trajectories(),
                spec_displaced_object(*old(self), entity),
            ),
            final(self).projectiles() == spec_remove_opt(
                old(self).projectiles(),
                spec_displaced_object(*old(self), entity),
            ),
            final(self).locs() == spec_remove_opt(
                old(self).locs(),
                spec_displaced_object(*old(self), entity),
            ).insert(
                entity,
                Location { coord: old(self).locs()[entity].coord, layer: Some(Layer::Object) },
            ),
            forall|c2: Coord, l2: Layer|
                old(self).spec_in_bounds(c2) ==> final(self).occupant(c2, l2)
                    == spec_world_moved_occupant(
                    *old(self),
                    entity,
                    Location {
                        coord: old(self).locs()[entity].coord,
                        layer: Some(Layer::Object),
                    },
                    c2,
                    l2,
                ),
    {
        let placed = self.spatial_table.update_layer(entity, Layer::Object);
        match placed {
            Err(occupied_by_entity) => {
                proof {
                    old(self).spatial_table.lemma_forward(entity);
                    old(self).spatial_table.lemma_backward(
                        old(self).locs()[entity].coord,
                        Layer::Object,
                    );
                }
                self.destroy_entity(occupied_by_entity, Ghost(entity));
                let ghost cleared = *self;
                let placed_again = self.spatial_table.update_layer(entity, Layer::Object);
                match placed_again {
                    Ok(_) => {
                        proof {
                            let pre = *old(self);
                            let c = pre.locs()[entity].coord;
                            let dest = Location { coord: c, layer: Some(Layer::Object) };
                            assert forall|c2: Coord, l2: Layer|
                                pre.spec_in_bounds(c2) implies self.occupant(c2, l2)
                                == spec_world_moved_occupant(pre, entity, dest, c2, l2) by {
                                assert(cleared.locs() == pre.locs().remove(occupied_by_entity));
                                assert(cleared.locs()[entity] == pre.locs()[entity]);
                                assert(self.occupant(c2, l2) == crate::spatial::spec_moved_occupant(
                                    cleared.spatial_table,
                                    entity,
                                    dest,
                                    c2,
                                    l2,
                                ));
                                assert(cleared.occupant(c2, l2) == spec_world_removed_occupant(
                                    pre,
                                    occupied_by_entity,
                                    c2,
                                    l2,
                                ));
                                if pre.occupant(c2, l2) == Some(occupied_by_entity) {
                                    pre.spatial_table.lemma_backward(c2, l2);
                                }
                            }
                        }
                    },
                    Err(_) => {
                        proof {
                            let c = old(self).locs()[entity].coord;
                            assert(cleared.occupant(c, Layer::Object)
                                == spec_world_removed_occupant(
                                *old(self),
                                occupied_by_entity,
                                c,
                                Layer::Object,
                            ));
                            assert(cleared.occupant(c, Layer::Object) is None);
                            assert(cleared.locs()[entity].coord == c);
                            assert(false);
                        }
                    },
                }
            },
            Ok(_) => {
                proof {
                    let pre = *old(self);
                    let c = pre.locs()[entity].coord;
                    let dest = Location { coord: c, layer: Some(Layer::Object) };
                    assert forall|c2: Coord, l2: Layer|
                        pre.spec_in_bounds(c2) implies self.occupant(c2, l2)
                        == spec_world_moved_occupant(pre, entity, dest, c2, l2) by {
                        assert(self.occupant(c2, l2) == crate::spatial::spec_moved_occupant(
                            pre.spatial_table,
                            entity,
                            dest,
                            c2,
                            l2,
                        ));
                    }
                }
            },
        }
        let ghost placed_world = *self;
        let corpse_tile = match self.components.tile.get(entity) {
            Some(t) => match *t {
                Tile::Player => Tile::PlayerCorpse,
                Tile::Npc(npc_type) => Tile::NpcCorpse(npc_type),
                _ => {
                    proof {
                        assert(false);
                    }
                    Tile::PlayerCorpse
                },
            },
            None => {
                proof {
                    assert(false);
                }
                Tile::PlayerCorpse
            },
        };
        proof {
            assert forall|e2: Entity|
                self.components.tile@.contains_key(e2) && e2.index == entity.index
                implies e2 == entity by {
                self.components.tile.lemma_key_same_index(e2, entity);
            }
        }
        self.components.tile.insert(entity, corpse_tile);
        proof {
            let pre = *old(self);
            let disp = spec_displaced_object(pre, entity);
            assert(self.tiles() =~= spec_remove_opt(pre.tiles(), disp).insert(
                entity,
                spec_corpse_tile(pre.tiles()[entity]),
            ));
            assert(self.spatial_table == placed_world.spatial_table);
            assert forall|c2: Coord, l2: Layer|
                pre.spec_in_bounds(c2) implies self.occupant(c2, l2) == spec_world_moved_occupant(
                pre,
                entity,
                Location { coord: pre.locs()[entity].coord, layer: Some(Layer::Object) },
                c2,
                l2,
            ) by {
                assert(placed_world.occupant(c2, l2) == spec_world_moved_occupant(
                    pre,
                    entity,
                    Location { coord: pre.locs()[entity].coord, layer: Some(Layer::Object) },
                    c2,
                    l2,
                ));
            }
            assert forall|e2: Entity| #[trigger]
                self.tiles().contains_key(e2) implies self.live(e2) by {
                if e2 != entity {
                    assert(pre.tiles().contains_key(e2));
                }
            }
            assert forall|e2: Entity| #[trigger]
                self.npcs().contains_key(e2) implies self.live(e2) by {
                assert(pre.npcs().contains_key(e2));
            }
            assert forall|e2: Entity| #[trigger]
                self.hps().contains_key(e2) implies self.live(e2) by {
                assert(pre.hps().contains_key(e2));
            }
            assert forall|e2: Entity| #[trigger]
                self.items().contains_key(e2) implies self.live(e2) by {
                assert(pre.items().contains_key(e2));
            }
            assert forall|e2: Entity| #[trigger]
                self.inventories().contains_key(e2) implies self.live(e2) by {
                assert(pre.inventories().contains_key(e2));
            }
            assert forall|e2: Entity| #[trigger]
                self.trajectories().contains_key(e2) implies self.live(e2) by {
                assert(pre.trajectories().contains_key(e2));
            }
            assert forall|e2: Entity| #[trigger]
                self.projectiles().contains_key(e2) implies self.live(e2) by {
                assert(pre.projectiles().contains_key(e2));
            }
            assert forall|e2: Entity| #[trigger]
                self.locs().contains_key(e2) implies self.live(e2) by {
                if e2 != entity {
                    assert(pre.locs().contains_key(e2));
                }
            }
            assert forall|e2: Entity| #[trigger]
                self.hps().contains_key(e2) implies self.hps()[e2].current <= self.hps()[e2].max by {
                assert(pre.hps().contains_key(e2));
            }
            assert forall|e2: Entity| #[trigger]
                self.is_character(e2) implies {
                &&& self.tiles().contains_key(e2)
                &&& (self.tiles()[e2] is Player || self.tiles()[e2] is Npc)
                &&& (self.hps().contains_key(e2) ==> self.hps()[e2].current > 0)
            } by {
                assert(e2 != entity);
                assert(pre.is_character(e2));
            }
            assert forall|e2: Entity| #[trigger]
                self.trajectories().contains_key(e2) implies self.locs().contains_key(e2)
                && self.locs()[e2].layer == Some(Layer::Projectile) by {
                assert(pre.trajectories().contains_key(e2));
                assert(pre.locs()[e2].layer == Some(Layer::Projectile));
                assert(e2 != entity);
            }
        }
    }

    /// Subtracts `damage` from the victim's hit points, floored at zero;
    /// reaching zero triggers the death transition. Returns whether the
    /// victim died. An entity without hit points is unaffected.
    fn character_damage(&mut self, victim: Entity, damage: u32) -> (r: Option<VictimDies>)
        requires
            old(self).wf(),
            old(self).is_character(victim),
        ensures
            final(self).wf(),
            spec_damage_applied(*old(self), *final(self), victim, damage, r is Some),
            (r is Some <==> (old(self).hps().contains_key(victim)
                && old(self).hps()[victim].current <= damage)),
    {
        let hp_opt = match self.components.hit_points.get(victim) {
            Some(hp) => Some(*hp),
            None => None,
        };
        match hp_opt {
            Some(hp) => {
                let new_current: u32 = if damage >= hp.current {
                    0
                } else {
                    hp.current - damage
                };
                proof {
                    assert forall|e2: Entity|
                        self.components.hit_points@.contains_key(e2) && e2.index == victim.index
                        implies e2 == victim by {
                        self.components.hit_points.lemma_key_same_index(e2, victim);
                    }
                }
                self.components.hit_points.insert(
                    victim,
                    HitPoints { current: new_current, max: hp.max },
                );
                if new_current == 0 {
                    proof {
                        assert forall|e2: Entity| #[trigger]
                            self.hps().contains_key(e2) implies self.live(e2) by {
                            if e2 != victim {
                                assert(old(self).hps().contains_key(e2));
                            }
                        }
                        assert forall|e2: Entity| #[trigger]
                            self.hps().contains_key(e2) implies self.hps()[e2].current
                            <= self.hps()[e2].max by {
                            if e2 != victim {
                                assert(old(self).hps().contains_key(e2));
                            }
                        }
                        assert forall|e2: Entity| #[trigger]
                            self.is_character(e2) && e2 != victim implies (
                        self.hps().contains_key(e2) ==> self.hps()[e2].current > 0) by {
                            assert(old(self).is_character(e2));
                        }
                    }
                    let ghost mid = *self;
                    proof {
                        assert(mid.spatial_table == old(self).spatial_table);
                        assert(mid.entity_allocator == old(self).entity_allocator);
                        assert(mid.tiles() == old(self).tiles());
                        assert(mid.npcs() == old(self).npcs());
                        assert(mid.items() == old(self).items());
                        assert(mid.inventories() == old(self).inventories());
                        assert(mid.trajectories() == old(self).trajectories());
                        assert(mid.projectiles() == old(self).projectiles());
                        assert(mid.locs() == old(self).locs());
                        assert forall|e2: Entity| #[trigger]
                            mid.tiles().contains_key(e2) implies mid.live(e2) by {
                            assert(old(self).tiles().contains_key(e2));
                        }
                        assert forall|e2: Entity| #[trigger]
                            mid.npcs().contains_key(e2) implies mid.live(e2) by {
                            assert(old(self).npcs().contains_key(e2));
                        }
                        assert forall|e2: Entity| #[trigger]
                            mid.items().contains_key(e2) implies mid.live(e2) by {
                            assert(old(self).items().contains_key(e2));
                        }
                        assert forall|e2: Entity| #[trigger]
                            mid.inventories().contains_key(e2) implies mid.live(e2) by {
                            assert(old(self).inventories().contains_key(e2));
                        }
                        assert forall|e2: Entity| #[trigger]
                            mid.trajectories().contains_key(e2) implies mid.live(e2) by {
                            assert(old(self).trajectories().contains_key(e2));
                        }
                        assert forall|e2: Entity| #[trigger]
                            mid.projectiles().contains_key(e2) implies mid.live(e2) by {
                            assert(old(self).projectiles().contains_key(e2));
                        }
                        assert forall|e2: Entity| #[trigger]
                            mid.locs().contains_key(e2) implies mid.live(e2) by {
                            assert(old(self).locs().contains_key(e2));
                        }
                        assert forall|e2: Entity| #[trigger]
                            mid.is_character(e2) implies {
                            &&& mid.tiles().contains_key(e2)
                            &&& (mid.tiles()[e2] is Player || mid.tiles()[e2] is Npc)
                        } by {
                            assert(old(self).is_character(e2));
                        }
                        assert forall|e2: Entity| #[trigger]
                            mid.trajectories().contains_key(e2) implies mid.locs().contains_key(e2)
                            && mid.locs()[e2].layer == Some(Layer::Projectile) by {
                            assert(old(self).trajectories().contains_key(e2));
                        }
                        assert(mid.wf_except_alive());
                        assert forall|e2: Entity| #[trigger]
                            mid.is_character(e2) && e2 != victim implies (mid.hps().contains_key(
                            e2,
                        ) ==> mid.hps()[e2].current > 0) by {
                            assert(old(self).is_character(e2));
                        }
                        assert(mid.chars_alive_except(victim));
                    }
                    self.character_die(victim);
                    proof {
                        let pre = *old(self);
                        let disp = spec_displaced_object(pre, victim);
                        assert(spec_displaced_object(mid, victim) == disp);
                        assert(self.hps() =~= spec_remove_opt(pre.hps(), disp).insert(
                            victim,
                            HitPoints { current: 0, max: hp.max },
                        ));
                        assert(self.tiles() =~= spec_remove_opt(pre.tiles(), disp).insert(
                            victim,
                            spec_corpse_tile(pre.tiles()[victim]),
                        ));
                    }
                    Some(VictimDies)
                } else {
                    proof {
                        assert(self.spatial_table == old(self).spatial_table);
                        assert(self.entity_allocator == old(self).entity_allocator);
                        assert(self.tiles() == old(self).tiles());
                        assert(self.npcs() == old(self).npcs());
                        assert(self.items() == old(self).items());
                        assert(self.inventories() == old(self).inventories());
                        assert(self.trajectories() == old(self).trajectories());
                        assert(self.projectiles() == old(self).projectiles());
                        assert(self.locs() == old(self).locs());
                        assert forall|e2: Entity| #[trigger]
                            self.tiles().contains_key(e2) implies self.live(e2) by {
                            assert(old(self).tiles().contains_key(e2));
                        }
                        assert forall|e2: Entity| #[trigger]
                            self.npcs().contains_key(e2) implies self.live(e2) by {
                            assert(old(self).npcs().contains_key(e2));
                        }
                        assert forall|e2: Entity| #[trigger]
                            self.items().contains_key(e2) implies self.live(e2) by {
                            assert(old(self).items().contains_key(e2));
                        }
                        assert forall|e2: Entity| #[trigger]
                            self.inventories().contains_key(e2) implies self.live(e2) by {
                            assert(old(self).inventories().contains_key(e2));
                        }
                        assert forall|e2: Entity| #[trigger]
                            self.trajectories().contains_key(e2) implies self.live(e2) by {
                            assert(old(self).trajectories().contains_key(e2));
                        }
                        assert forall|e2: Entity| #[trigger]
                            self.projectiles().contains_key(e2) implies self.live(e2) by {
                            assert(old(self).projectiles().contains_key(e2));
                        }
                        assert forall|e2: Entity| #[trigger]
                            self.locs().contains_key(e2) implies self.live(e2) by {
                            assert(old(self).locs().contains_key(e2));
                        }
                        assert forall|e2: Entity| #[trigger]
                            self.is_character(e2) implies {
                            &&& self.tiles().contains_key(e2)
                            &&& (self.tiles()[e2] is Player || self.tiles()[e2] is Npc)
                        } by {
                            assert(old(self).is_character(e2));
                        }
                        assert forall|e2: Entity| #[trigger]
                            self.trajectories().contains_key(e2) implies self.locs().contains_key(
                            e2,
                        ) && self.locs()[e2].layer == Some(Layer::Projectile) by {
                            assert(old(self).trajectories().contains_key(e2));
                        }
                        assert forall|e2: Entity| #[trigger]
                            self.hps().contains_key(e2) implies self.live(e2) by {
                            if e2 != victim {
                                assert(old(self).hps().contains_key(e2));
                            }
                        }
                        assert forall|e2: Entity| #[trigger]
                            self.hps().contains_key(e2) implies self.hps()[e2].current
                            <= self.hps()[e2].max by {
                            if e2 != victim {
                                assert(old(self).hps().contains_key(e2));
                            }
                        }
                        assert forall|e2: Entity| #[trigger]
                            self.is_character(e2) implies (self.hps().contains_key(e2)
                            ==> self.hps()[e2].current > 0) by {
                            if e2 != victim {
                                assert(old(self).is_character(e2));
                            }
                        }
                    }
                    None
                }
            },
            None => None,
        }
    }

    /// A bump attack deals a fixed 1 damage.
    fn character_bump_attack(&mut self, victim: Entity) -> (r: Option<VictimDies>)
        requires
            old(self).wf(),
            old(self).is_character(victim),
        ensures
            final(self).wf(),
            spec_damage_applied(*old(self), *final(self), victim, 1, r is Some),
            (r is Some <==> (old(self).hps().contains_key(victim)
                && old(self).hps()[victim].current <= 1)),
    {
        self.character_damage(victim, 1)
    }

    /// Appends the hit-or-kill message for one resolved attack.
    fn write_combat_log_messages(
        attacker_is_player: bool,
        victim_dies: bool,
        npc_type: NpcType,
        message_log: &mut Vec<LogMessage>,
    )
        ensures
            final(message_log)@ == old(message_log)@.push(
                spec_combat_message(attacker_is_player, victim_dies, npc_type),
            ),
    {
        if attacker_is_player {
            if victim_dies {
                message_log.push(LogMessage::PlayerKillsNpc(npc_type));
            } else {
                message_log.push(LogMessage::PlayerAttacksNpc(npc_type));
            }
        } else {
            if victim_dies {
                message_log.push(LogMessage::NpcKillsPlayer(npc_type));
            } else {
                message_log.push(LogMessage::NpcAttacksPlayer(npc_type));
            }
        }
    }

    /// Where one step in `d` from `c` lands, as a coordinate (meaningful
    /// when the step stays on the grid).
    pub open spec fn spec_dest_coord(c: Coord, d: CardinalDirection) -> Coord {
        Coord { x: (c.x + d.spec_dx()) as i32, y: (c.y + d.spec_dy()) as i32 }
    }

    /// Whether one step in `d` from `c` stays inside `size`.
    pub open spec fn spec_dest_in_bounds(c: Coord, d: CardinalDirection, size: Size) -> bool {
        &&& 0 <= c.x + d.spec_dx() < size.width
        &&& 0 <= c.y + d.spec_dy() < size.height
    }

    /// Moves the character one step in `direction`. Out of bounds: no-op.
    /// Destination character of the opposing faction: a bump attack (1
    /// damage, logged; a kill message if the victim dies). Same faction:
    /// silently ignored. A wall: no-op. Otherwise the character relocates.
    pub fn maybe_move_character(
        &mut self,
        character_entity: Entity,
        direction: CardinalDirection,
        message_log: &mut Vec<LogMessage>,
    )
        requires
            old(self).wf(),
            old(self).is_character(character_entity),
        ensures
            final(self).wf(),
            final(self).spec_size() == old(self).spec_size(),
            ({
                let c = old(self).locs()[character_entity].coord;
                let dest = World::spec_dest_coord(c, direction);
                if !World::spec_dest_in_bounds(c, direction, old(self).spec_size()) {
                    *final(self) == *old(self) && final(message_log)@ == old(message_log)@
                } else if old(self).occupant(dest, Layer::Character) is Some {
                    let v = old(self).occupant(dest, Layer::Character)->Some_0;
                    let atk_npc = old(self).npcs().contains_key(character_entity);
                    let vic_npc = old(self).npcs().contains_key(v);
                    if atk_npc != vic_npc {
                        let dies = old(self).hps().contains_key(v) && old(self).hps()[v].current
                            <= 1;
                        let nt = if atk_npc {
                            old(self).npcs()[character_entity]
                        } else {
                            old(self).npcs()[v]
                        };
                        &&& spec_damage_applied(*old(self), *final(self), v, 1, dies)
                        &&& final(message_log)@ == old(message_log)@.push(
                            spec_combat_message(!atk_npc, dies, nt),
                        )
                    } else {
                        *final(self) == *old(self) && final(message_log)@ == old(message_log)@
                    }
                } else if old(self).occupant(dest, Layer::Feature) is Some {
                    *final(self) == *old(self) && final(message_log)@ == old(message_log)@
                } else {
                    &&& final(message_log)@ == old(message_log)@
                    &&& final(self).locs() == old(self).locs().insert(
                        character_entity,
                        Location { coord: dest, layer: Some(Layer::Character) },
                    )
                    &&& final(self).tiles() == old(self).tiles()
                    &&& final(self).npcs() == old(self).npcs()
                    &&& final(self).hps() == old(self).hps()
                    &&& final(self).items() == old(self).items()
                    &&& final(self).inventories() == old(self).inventories()
                    &&& final(self).trajectories() == old(self).trajectories()
                    &&& final(self).projectiles() == old(self).projectiles()
                    &&& (forall|x: Entity| final(self).live(x) == old(self).live(x))
                    &&& (forall|c2: Coord, l2: Layer|
                        old(self).spec_in_bounds(c2) ==> final(self).occupant(c2, l2)
                            == spec_world_moved_occupant(
                            *old(self),
                            character_entity,
                            Location { coord: dest, layer: Some(Layer::Character) },
                            c2,
                            l2,
                        ))
                }
            }),
    {
        let character_coord = match self.spatial_table.coord_of(character_entity) {
            Some(c) => c,
            None => {
                proof {
                    assert(false);
                }
                Coord { x: 0, y: 0 }
            },
        };
        proof {
            self.spatial_table.lemma_forward(character_entity);
            self.spatial_table.lemma_size_bounds();
        }
        let size = self.spatial_table.grid_size();
        match crate::geom::step_in_bounds(character_coord, direction, size) {
            None => {},
            Some(new_coord) => {
                let dest_layers = self.spatial_table.layers_at_checked(new_coord);
                match dest_layers.character {
                    Some(dest_character_entity) => {
                        let character_is_npc = self.components.npc_type.contains(character_entity);
                        let dest_character_is_npc = self.components.npc_type.contains(
                            dest_character_entity,
                        );
                        if character_is_npc != dest_character_is_npc {
                            proof {
                                self.spatial_table.lemma_backward(new_coord, Layer::Character);
                            }
                            let npc_type = if character_is_npc {
                                match self.components.npc_type.get(character_entity) {
                                    Some(t) => *t,
                                    None => {
                                        proof {
                                            assert(false);
                                        }
                                        NpcType::Orc
                                    },
                                }
                            } else {
                                match self.components.npc_type.get(dest_character_entity) {
                                    Some(t) => *t,
                                    None => {
                                        proof {
                                            assert(false);
                                        }
                                        NpcType::Orc
                                    },
                                }
                            };
                            let victim_dies = match self.character_bump_attack(
                                dest_character_entity,
                            ) {
                                Some(_) => true,
                                None => false,
                            };
                            Self::write_combat_log_messages(
                                !character_is_npc,
                                victim_dies,
                                npc_type,
                                message_log,
                            );
                        }
                    },
                    None => {
                        if dest_layers.feature.is_none() {
                            let moved = self.spatial_table.update_coord(
                                character_entity,
                                new_coord,
                            );
                            match moved {
                                Ok(_) => {},
                                Err(_) => {
                                    proof {
                                        assert(false);
                                    }
                                },
                            }
                            proof {
                                let pre = *old(self);
                                let dest = World::spec_dest_coord(
                                    pre.locs()[character_entity].coord,
                                    direction,
                                );
                                assert(new_coord == dest);
                                assert forall|c2: Coord, l2: Layer|
                                    pre.spec_in_bounds(c2) implies self.occupant(c2, l2)
                                    == spec_world_moved_occupant(
                                    pre,
                                    character_entity,
                                    Location { coord: dest, layer: Some(Layer::Character) },
                                    c2,
                                    l2,
                                ) by {
                                    assert(self.occupant(c2, l2)
                                        == crate::spatial::spec_moved_occupant(
                                        pre.spatial_table,
                                        character_entity,
                                        Location { coord: dest, layer: Some(Layer::Character) },
                                        c2,
                                        l2,
                                    ));
                                }
                                assert(self.tiles() == pre.tiles());
                                assert(self.npcs() == pre.npcs());
                                assert(self.hps() == pre.hps());
                                assert(self.items() == pre.items());
                                assert(self.inventories() == pre.inventories());
                                assert(self.trajectories() == pre.trajectories());
                                assert(self.projectiles() == pre.projectiles());
                                assert forall|e2: Entity| #[trigger]
                                    self.tiles().contains_key(e2) implies self.live(e2) by {
                                    assert(pre.tiles().contains_key(e2));
                                }
                                assert forall|e2: Entity| #[trigger]
                                    self.npcs().contains_key(e2) implies self.live(e2) by {
                                    assert(pre.npcs().contains_key(e2));
                                }
                                assert forall|e2: Entity| #[trigger]
                                    self.hps().contains_key(e2) implies self.live(e2) by {
                                    assert(pre.hps().contains_key(e2));
                                }
                                assert forall|e2: Entity| #[trigger]
                                    self.items().contains_key(e2) implies self.live(e2) by {
                                    assert(pre.items().contains_key(e2));
                                }
                                assert forall|e2: Entity| #[trigger]
                                    self.inventories().contains_key(e2) implies self.live(e2) by {
                                    assert(pre.inventories().contains_key(e2));
                                }
                                assert forall|e2: Entity| #[trigger]
                                    self.trajectories().contains_key(e2) implies self.live(e2) by {
                                    assert(pre.trajectories().contains_key(e2));
                                }
                                assert forall|e2: Entity| #[trigger]
                                    self.projectiles().contains_key(e2) implies self.live(e2) by {
                                    assert(pre.projectiles().contains_key(e2));
                                }
                                assert forall|e2: Entity| #[trigger]
                                    self.hps().contains_key(e2) implies self.hps()[e2].current
                                    <= self.hps()[e2].max by {
                                    assert(pre.hps().contains_key(e2));
                                }
                                assert forall|e2: Entity| #[trigger]
                                    self.locs().contains_key(e2) implies self.live(e2) by {
                                    if e2 != character_entity {
                                        assert(pre.locs().contains_key(e2));
                                    }
                                }
                                assert forall|e2: Entity| #[trigger]
                                    self.is_character(e2) implies {
                                    &&& self.tiles().contains_key(e2)
                                    &&& (self.tiles()[e2] is Player || self.tiles()[e2] is Npc)
                                    &&& (self.hps().contains_key(e2) ==> self.hps()[e2].current
                                        > 0)
                                } by {
                                    assert(pre.is_character(e2));
                                }
                                assert forall|e2: Entity| #[trigger]
                                    self.trajectories().contains_key(e2)
                                    implies self.locs().contains_key(e2) && self.locs()[e2].layer
                                    == Some(Layer::Projectile) by {
                                    assert(pre.trajectories().contains_key(e2));
                                    assert(e2 != character_entity);
                                }
                            }
                        }
                    },
                }
            },
        }
    }

    /// Whether `post` shows the same observable state as `pre`.
    pub open spec fn spec_state_unchanged(pre: World, post: World) -> bool {
        &&& post.spec_size() == pre.spec_size()
        &&& (forall|x: Entity| post.live(x) == pre.live(x))
        &&& post.tiles() == pre.tiles()
        &&& post.npcs() == pre.npcs()
        &&& post.hps() == pre.hps()
        &&& post.items() == pre.items()
        &&& post.inventories() == pre.inventories()
        &&& post.trajectories() == pre.trajectories()
        &&& post.projectiles() == pre.projectiles()
        &&& post.locs() == pre.locs()
        &&& (forall|c2: Coord, l2: Layer|
            pre.spec_in_bounds(c2) ==> post.occupant(c2, l2) == pre.occupant(c2, l2))
    }

    /// Picks up the ground object at the character's coordinate into the
    /// first free inventory slot. The object leaves the spatial index but is
    /// not destroyed: it lives on inside the inventory.
    pub fn maybe_get_item(
        &mut self,
        character: Entity,
        message_log: &mut Vec<LogMessage>,
    ) -> (r: Result<(), ()>)
        requires
            old(self).wf(),
            old(self).locs().contains_key(character),
            old(self).inventories().contains_key(character),
        ensures
            final(self).wf(),
            ({
                let c = old(self).locs()[character].coord;
                let obj = old(self).occupant(c, Layer::Object);
                let inv = old(self).inventories()[character];
                if obj is Some && old(self).items().contains_key(obj->Some_0) {
                    let o = obj->Some_0;
                    if exists|i: int| 0 <= i < inv@.len() && inv@[i] is None {
                        &&& r is Ok
                        &&& final(message_log)@ == old(message_log)@.push(
                            LogMessage::PlayerGets(old(self).items()[o]),
                        )
                        &&& final(self).locs() == old(self).locs().remove(o)
                        &&& (forall|c2: Coord, l2: Layer|
                            old(self).spec_in_bounds(c2) ==> final(self).occupant(c2, l2)
                                == spec_world_removed_occupant(*old(self), o, c2, l2))
                        &&& (exists|i: int|
                            {
                                &&& 0 <= i < inv@.len()
                                &&& inv@[i] is None
                                &&& (forall|j: int| 0 <= j < i ==> inv@[j] is Some)
                                &&& final(self).inventories() == old(self).inventories().insert(
                                    character,
                                    final(self).inventories()[character],
                                )
                                &&& final(self).inventories()[character]@ == inv@.update(
                                    i,
                                    Some(o),
                                )
                            })
                        &&& final(self).tiles() == old(self).tiles()
                        &&& final(self).npcs() == old(self).npcs()
                        &&& final(self).hps() == old(self).hps()
                        &&& final(self).items() == old(self).items()
                        &&& final(self).trajectories() == old(self).trajectories()
                        &&& final(self).projectiles() == old(self).projectiles()
                        &&& (forall|x: Entity| final(self).live(x) == old(self).live(x))
                        &&& final(self).spec_size() == old(self).spec_size()
                    } else {
                        &&& r is Err
                        &&& final(message_log)@ == old(message_log)@.push(
                            LogMessage::PlayerInventoryIsFull,
                        )
                        &&& World::spec_state_unchanged(*old(self), *final(self))
                    }
                } else {
                    &&& r is Err
                    &&& final(message_log)@ == old(message_log)@.push(
                        LogMessage::NoItemUnderPlayer,
                    )
                    &&& World::spec_state_unchanged(*old(self), *final(self))
                }
            }),
    {
        let coord = match self.spatial_table.coord_of(character) {
            Some(c) => c,
            None => {
                proof {
                    assert(false);
                }
                Coord { x: 0, y: 0 }
            },
        };
        proof {
            self.spatial_table.lemma_forward(character);
        }
        let object = self.spatial_table.layers_at_checked(coord).object;
        let item_found = match object {
            Some(object_entity) => match self.components.item.get(object_entity) {
                Some(t) => Some((object_entity, *t)),
                None => None,
            },
            None => None,
        };
        match item_found {
            Some((object_entity, item_type)) => {
                let mut inv = match self.components.inventory.take(character) {
                    Some(i) => i,
                    None => {
                        proof {
                            assert(false);
                        }
                        Inventory::new(0)
                    },
                };
                let inserted = inv.insert(object_entity);
                proof {
                    assert forall|e2: Entity|
                        self.components.inventory@.contains_key(e2) && e2.index == character.index
                        implies e2 == character by {
                        assert(old(self).inventories().contains_key(e2));
                        self.entity_allocator.lemma_live_same_index(e2, character);
                    }
                }
                self.components.inventory.insert(character, inv);
                match inserted {
                    Ok(_) => {
                        self.spatial_table.remove(object_entity);
                        message_log.push(LogMessage::PlayerGets(item_type));
                        proof {
                            let pre = *old(self);
                            pre.spatial_table.lemma_backward(
                                pre.locs()[character].coord,
                                Layer::Object,
                            );
                            assert forall|e2: Entity| #[trigger]
                                self.tiles().contains_key(e2) implies self.live(e2) by {
                                assert(pre.tiles().contains_key(e2));
                            }
                            assert forall|e2: Entity| #[trigger]
                                self.npcs().contains_key(e2) implies self.live(e2) by {
                                assert(pre.npcs().contains_key(e2));
                            }
                            assert forall|e2: Entity| #[trigger]
                                self.hps().contains_key(e2) implies self.live(e2) by {
                                assert(pre.hps().contains_key(e2));
                            }
                            assert forall|e2: Entity| #[trigger]
                                self.items().contains_key(e2) implies self.live(e2) by {
                                assert(pre.items().contains_key(e2));
                            }
                            assert forall|e2: Entity| #[trigger]
                                self.inventories().contains_key(e2) implies self.live(e2) by {
                                if e2 != character { assert(pre.inventories().contains_key(e2)); }
                            }
                            assert forall|e2: Entity| #[trigger]
                                self.trajectories().contains_key(e2) implies self.live(e2) by {
                                assert(pre.trajectories().contains_key(e2));
                            }
                            assert forall|e2: Entity| #[trigger]
                                self.projectiles().contains_key(e2) implies self.live(e2) by {
                                assert(pre.projectiles().contains_key(e2));
                            }
                            assert forall|e2: Entity| #[trigger]
                                self.locs().contains_key(e2) implies self.live(e2) by {
                                assert(pre.locs().contains_key(e2));
                            }
                            assert forall|e2: Entity| #[trigger]
                                self.hps().contains_key(e2) implies self.hps()[e2].current <= self.hps()[e2].max by {
                                assert(pre.hps().contains_key(e2));
                            }
                            assert forall|e2: Entity| #[trigger]
                                self.is_character(e2) implies {
                                &&& self.tiles().contains_key(e2)
                                &&& (self.tiles()[e2] is Player || self.tiles()[e2] is Npc)
                                &&& (self.hps().contains_key(e2) ==> self.hps()[e2].current > 0)
                            } by {
                                assert(e2 != object_entity);
                                assert(pre.is_character(e2));
                            }
                            assert forall|e2: Entity| #[trigger]
                                self.trajectories().contains_key(e2) implies self.locs().contains_key(e2)
                                && self.locs()[e2].layer == Some(Layer::Projectile) by {
                                assert(pre.trajectories().contains_key(e2));
                                assert(pre.locs()[e2].layer == Some(Layer::Projectile));
                                assert(e2 != object_entity);
                            }
                        }
                        Ok(())
                    },
                    Err(_) => {
                        message_log.push(LogMessage::PlayerInventoryIsFull);
                        proof {
                            let pre = *old(self);
                            assert(self.inventories() =~= pre.inventories());
                            assert forall|e2: Entity| #[trigger]
                                self.inventories().contains_key(e2) implies self.live(e2) by {
                                assert(pre.inventories().contains_key(e2));
                            }
                            assert forall|e2: Entity| #[trigger]
                                self.tiles().contains_key(e2) implies self.live(e2) by {
                                assert(pre.tiles().contains_key(e2));
                            }
                            assert forall|e2: Entity| #[trigger]
                                self.npcs().contains_key(e2) implies self.live(e2) by {
                                assert(pre.npcs().contains_key(e2));
                            }
                            assert forall|e2: Entity| #[trigger]
                                self.hps().contains_key(e2) implies self.live(e2) by {
                                assert(pre.hps().contains_key(e2));
                            }
                            assert forall|e2: Entity| #[trigger]
                                self.items().contains_key(e2) implies self.live(e2) by {
                                assert(pre.items().contains_key(e2));
                            }
                            assert forall|e2: Entity| #[trigger]
                                self.trajectories().contains_key(e2) implies self.live(e2) by {
                                assert(pre.trajectories().contains_key(e2));
                            }
                            assert forall|e2: Entity| #[trigger]
                                self.projectiles().contains_key(e2) implies self.live(e2) by {
                                assert(pre.projectiles().contains_key(e2));
                            }
                            assert forall|e2: Entity| #[trigger]
                                self.locs().contains_key(e2) implies self.live(e2) by {
                                assert(pre.locs().contains_key(e2));
                            }
                            assert forall|e2: Entity| #[trigger]
                                self.hps().contains_key(e2) implies self.hps()[e2].current
                                <= self.hps()[e2].max by {
                                assert(pre.hps().contains_key(e2));
                            }
                            assert forall|e2: Entity| #[trigger]
                                self.is_character(e2) implies {
                                &&& self.tiles().contains_key(e2)
                                &&& (self.tiles()[e2] is Player || self.tiles()[e2] is Npc)
                                &&& (self.hps().contains_key(e2) ==> self.hps()[e2].current > 0)
                            } by {
                                assert(pre.is_character(e2));
                            }
                            assert forall|e2: Entity| #[trigger]
                                self.trajectories().contains_key(e2) implies self.locs(
                            ).contains_key(e2) && self.locs()[e2].layer == Some(Layer::Projectile)
                                by {
                                assert(pre.trajectories().contains_key(e2));
                            }
                        }
                        Err(())
                    },
                }
            },
            None => {
                message_log.push(LogMessage::NoItemUnderPlayer);
                Err(())
            },
        }
    }

    /// The hit points after a heal of 5, capped at `max`.
    pub open spec fn spec_healed(h: HitPoints) -> HitPoints {
        if h.current + 5 >= h.max {
            HitPoints { current: h.max, max: h.max }
        } else {
            HitPoints { current: (h.current + 5) as u32, max: h.max }
        }
    }

    /// Activates the item in the given inventory slot. A health potion
    /// heals 5 (capped at `max`), consumes the slot, and reports immediate
    /// usage; a fireball scroll reports that it requires aim and consumes
    /// nothing yet. An empty slot is a recoverable failure.
    pub fn maybe_use_item(
        &mut self,
        character: Entity,
        inventory_index: usize,
        message_log: &mut Vec<LogMessage>,
    ) -> (r: Result<ItemUsage, ()>)
        requires
            old(self).wf(),
            old(self).inventories().contains_key(character),
            ({
                let inv = old(self).inventories()[character];
                inventory_index < inv@.len() && inv@[inventory_index as int] is Some ==> {
                    let it = inv@[inventory_index as int]->Some_0;
                    &&& old(self).items().contains_key(it)
                    &&& (old(self).items()[it] == ItemType::HealthPotion ==> old(self).hps().contains_key(character))
                }
            }),
        ensures
            final(self).wf(),
            ({
                let inv = old(self).inventories()[character];
                if inventory_index >= inv@.len() || inv@[inventory_index as int] is None {
                    &&& r is Err
                    &&& final(message_log)@ == old(message_log)@.push(
                        LogMessage::NoItemInInventorySlot,
                    )
                    &&& World::spec_state_unchanged(*old(self), *final(self))
                } else {
                    let it = inv@[inventory_index as int]->Some_0;
                    if old(self).items()[it] == ItemType::HealthPotion {
                        &&& r == Ok::<ItemUsage, ()>(ItemUsage::Immediate)
                        &&& final(message_log)@ == old(message_log)@.push(LogMessage::PlayerHeals)
                        &&& final(self).hps() == old(self).hps().insert(
                            character,
                            World::spec_healed(old(self).hps()[character]),
                        )
                        &&& final(self).inventories() == old(self).inventories().insert(
                            character,
                            final(self).inventories()[character],
                        )
                        &&& final(self).inventories()[character]@ == inv@.update(
                            inventory_index as int,
                            None::<Entity>,
                        )
                        &&& final(self).tiles() == old(self).tiles()
                        &&& final(self).npcs() == old(self).npcs()
                        &&& final(self).items() == old(self).items()
                        &&& final(self).trajectories() == old(self).trajectories()
                        &&& final(self).projectiles() == old(self).projectiles()
                        &&& final(self).locs() == old(self).locs()
                        &&& (forall|x: Entity| final(self).live(x) == old(self).live(x))
                        &&& final(self).spec_size() == old(self).spec_size()
                        &&& (forall|c2: Coord, l2: Layer|
                            old(self).spec_in_bounds(c2) ==> final(self).occupant(c2, l2) == old(self).occupant(c2, l2))
                    } else {
                        &&& r == Ok::<ItemUsage, ()>(ItemUsage::Aim)
                        &&& final(message_log)@ == old(message_log)@
                        &&& World::spec_state_unchanged(*old(self), *final(self))
                    }
                }
            }),
    {
        let mut inv = match self.components.inventory.take(character) {
            Some(i) => i,
            None => {
                proof {
                    assert(false);
                }
                Inventory::new(0)
            },
        };
        let got = inv.get(inventory_index);
        proof {
            assert forall|e2: Entity|
                self.components.inventory@.contains_key(e2) && e2.index == character.index
                implies e2 == character by {
                assert(old(self).inventories().contains_key(e2));
                self.entity_allocator.lemma_live_same_index(e2, character);
            }
        }
        match got {
            Err(_) => {
                self.components.inventory.insert(character, inv);
                message_log.push(LogMessage::NoItemInInventorySlot);
                proof {
                    let pre = *old(self);
                    assert(self.inventories() =~= pre.inventories());
                    assert forall|e2: Entity| #[trigger]
                        self.tiles().contains_key(e2) implies self.live(e2) by {
                        assert(pre.tiles().contains_key(e2));
                    }
                    assert forall|e2: Entity| #[trigger]
                        self.npcs().contains_key(e2) implies self.live(e2) by {
                        assert(pre.npcs().contains_key(e2));
                    }
                    assert forall|e2: Entity| #[trigger]
                        self.hps().contains_key(e2) implies self.live(e2) by {
                        assert(pre.hps().contains_key(e2));
                    }
                    assert forall|e2: Entity| #[trigger]
                        self.items().contains_key(e2) implies self.live(e2) by {
                        assert(pre.items().contains_key(e2));
                    }
                    assert forall|e2: Entity| #[trigger]
                        self.inventories().contains_key(e2) implies self.live(e2) by {
                        if e2 != character { assert(pre.inventories().contains_key(e2)); }
                    }
                    assert forall|e2: Entity| #[trigger]
                        self.trajectories().contains_key(e2) implies self.live(e2) by {
                        assert(pre.trajectories().contains_key(e2));
                    }
                    assert forall|e2: Entity| #[trigger]
                        self.projectiles().contains_key(e2) implies self.live(e2) by {
                        assert(pre.projectiles().contains_key(e2));
                    }
                    assert forall|e2: Entity| #[trigger]
                        self.locs().contains_key(e2) implies self.live(e2) by {
                        assert(pre.locs().contains_key(e2));
                    }
                    assert forall|e2: Entity| #[trigger]
                        self.hps().contains_key(e2) implies self.hps()[e2].current <= self.hps()[e2].max by {
                        assert(pre.hps().contains_key(e2));
                    }
                    assert forall|e2: Entity| #[trigger]
                        self.is_character(e2) implies {
                        &&& self.tiles().contains_key(e2)
                        &&& (self.tiles()[e2] is Player || self.tiles()[e2] is Npc)
                        &&& (self.hps().contains_key(e2) ==> self.hps()[e2].current > 0)
                    } by {
                        assert(pre.is_character(e2));
                    }
                    assert forall|e2: Entity| #[trigger]
                        self.trajectories().contains_key(e2) implies self.locs().contains_key(e2)
                        && self.locs()[e2].layer == Some(Layer::Projectile) by {
                        assert(pre.trajectories().contains_key(e2));
                    }
                }
                Err(())
            },
            Ok(item) => {
                let item_type = match self.components.item.get(item) {
                    Some(t) => *t,
                    None => {
                        proof {
                            assert(false);
                        }
                        ItemType::HealthPotion
                    },
                };
                match item_type {
                    ItemType::HealthPotion => {
                        let hp = match self.components.hit_points.get(character) {
                            Some(h) => *h,
                            None => {
                                proof {
                                    assert(false);
                                }
                                HitPoints { current: 0, max: 0 }
                            },
                        };
                        let new_current: u32 = if hp.max - hp.current <= 5 {
                            hp.max
                        } else {
                            hp.current + 5
                        };
                        proof {
                            assert forall|e2: Entity|
                                self.components.hit_points@.contains_key(e2) && e2.index
                                == character.index implies e2 == character by {
                                assert(old(self).hps().contains_key(e2));
                                self.entity_allocator.lemma_live_same_index(e2, character);
                            }
                        }
                        self.components.hit_points.insert(
                            character,
                            HitPoints { current: new_current, max: hp.max },
                        );
                        let removed = inv.remove(inventory_index);
                        match removed {
                            Ok(_) => {},
                            Err(_) => {
                                proof {
                                    assert(false);
                                }
                            },
                        }
                        self.components.inventory.insert(character, inv);
                        message_log.push(LogMessage::PlayerHeals);
                        proof {
                            let pre = *old(self);
                            assert forall|e2: Entity| #[trigger]
                                self.tiles().contains_key(e2) implies self.live(e2) by {
                                assert(pre.tiles().contains_key(e2));
                            }
                            assert forall|e2: Entity| #[trigger]
                                self.npcs().contains_key(e2) implies self.live(e2) by {
                                assert(pre.npcs().contains_key(e2));
                            }
                            assert forall|e2: Entity| #[trigger]
                                self.hps().contains_key(e2) implies self.live(e2) by {
                                if e2 != character { assert(pre.hps().contains_key(e2)); }
                            }
                            assert forall|e2: Entity| #[trigger]
                                self.items().contains_key(e2) implies self.live(e2) by {
                                assert(pre.items().contains_key(e2));
                            }
                            assert forall|e2: Entity| #[trigger]
                                self.inventories().contains_key(e2) implies self.live(e2) by {
                                if e2 != character { assert(pre.inventories().contains_key(e2)); }
                            }
                            assert forall|e2: Entity| #[trigger]
                                self.trajectories().contains_key(e2) implies self.live(e2) by {
                                assert(pre.trajectories().contains_key(e2));
                            }
                            assert forall|e2: Entity| #[trigger]
                                self.projectiles().contains_key(e2) implies self.live(e2) by {
                                assert(pre.projectiles().contains_key(e2));
                            }
                            assert forall|e2: Entity| #[trigger]
                                self.locs().contains_key(e2) implies self.live(e2) by {
                                assert(pre.locs().contains_key(e2));
                            }
                            assert forall|e2: Entity| #[trigger]
                                self.hps().contains_key(e2) implies self.hps()[e2].current <= self.hps()[e2].max by {
                                if e2 != character { assert(pre.hps().contains_key(e2)); }
                            }
                            assert forall|e2: Entity| #[trigger]
                                self.is_character(e2) implies {
                                &&& self.tiles().contains_key(e2)
                                &&& (self.tiles()[e2] is Player || self.tiles()[e2] is Npc)
                                &&& (self.hps().contains_key(e2) ==> self.hps()[e2].current > 0)
                            } by {
                                assert(pre.is_character(e2));
                            }
                            assert forall|e2: Entity| #[trigger]
                                self.trajectories().contains_key(e2) implies self.locs().contains_key(e2)
                                && self.locs()[e2].layer == Some(Layer::Projectile) by {
                                assert(pre.trajectories().contains_key(e2));
                            }
                        }
                        Ok(ItemUsage::Immediate)
                    },
                    ItemType::FireballScroll => {
                        self.components.inventory.insert(character, inv);
                        proof {
                            let pre = *old(self);
                            assert(self.inventories() =~= pre.inventories());
                            assert forall|e2: Entity| #[trigger]
                                self.tiles().contains_key(e2) implies self.live(e2) by {
                                assert(pre.tiles().contains_key(e2));
                            }
                            assert forall|e2: Entity| #[trigger]
                                self.npcs().contains_key(e2) implies self.live(e2) by {
                                assert(pre.npcs().contains_key(e2));
                            }
                            assert forall|e2: Entity| #[trigger]
                                self.hps().contains_key(e2) implies self.live(e2) by {
                                assert(pre.hps().contains_key(e2));
                            }
                            assert forall|e2: Entity| #[trigger]
                                self.items().contains_key(e2) implies self.live(e2) by {
                                assert(pre.items().contains_key(e2));
                            }
                            assert forall|e2: Entity| #[trigger]
                                self.inventories().contains_key(e2) implies self.live(e2) by {
                                if e2 != character { assert(pre.inventories().contains_key(e2)); }
                            }
                            assert forall|e2: Entity| #[trigger]
                                self.trajectories().contains_key(e2) implies self.live(e2) by {
                                assert(pre.trajectories().contains_key(e2));
                            }
                            assert forall|e2: Entity| #[trigger]
                                self.projectiles().contains_key(e2) implies self.live(e2) by {
                                assert(pre.projectiles().contains_key(e2));
                            }
                            assert forall|e2: Entity| #[trigger]
                                self.locs().contains_key(e2) implies self.live(e2) by {
                                assert(pre.locs().contains_key(e2));
                            }
                            assert forall|e2: Entity| #[trigger]
                                self.hps().contains_key(e2) implies self.hps()[e2].current <= self.hps()[e2].max by {
                                assert(pre.hps().contains_key(e2));
                            }
                            assert forall|e2: Entity| #[trigger]
                                self.is_character(e2) implies {
                                &&& self.tiles().contains_key(e2)
                                &&& (self.tiles()[e2] is Player || self.tiles()[e2] is Npc)
                                &&& (self.hps().contains_key(e2) ==> self.hps()[e2].current > 0)
                            } by {
                                assert(pre.is_character(e2));
                            }
                            assert forall|e2: Entity| #[trigger]
                                self.trajectories().contains_key(e2) implies self.locs().contains_key(e2)
                                && self.locs()[e2].layer == Some(Layer::Projectile) by {
                                assert(pre.trajectories().contains_key(e2));
                            }
                        }
                        Ok(ItemUsage::Aim)
                    },
                }
            },
        }
    }

    /// Relates the world before and after a fireball scroll in slot `idx`
    /// is consumed and a projectile `p` is launched from the character's
    /// coordinate toward `target`.
    pub open spec fn spec_projectile_launched(
        pre: World,
        post: World,
        ch: Entity,
        idx: int,
        target: Coord,
        p: Entity,
    ) -> bool {
        let c = pre.locs()[ch].coord;
        &&& !pre.live(p)
        &&& (forall|x: Entity| post.live(x) == (pre.live(x) || x == p))
        &&& post.tiles() == pre.tiles().insert(p, Tile::Projectile(ProjectileType::Fireball))
        &&& post.npcs() == pre.npcs()
        &&& post.hps() == pre.hps()
        &&& post.items() == pre.items()
        &&& post.inventories() == pre.inventories().insert(ch, post.inventories()[ch])
        &&& post.inventories()[ch]@ == pre.inventories()[ch]@.update(idx, None::<Entity>)
        &&& post.projectiles() == pre.projectiles().insert(p, ProjectileType::Fireball)
        &&& post.trajectories() == pre.trajectories().insert(p, post.trajectories()[p])
        &&& post.trajectories()[p].remaining() == crate::trajectory::cardinal_line_steps(
            target.x - c.x,
            target.y - c.y,
        )
        &&& post.trajectories()[p].remaining().len() == crate::trajectory::spec_abs(
            target.x - c.x,
        ) + crate::trajectory::spec_abs(target.y - c.y) + 1
        &&& post.locs() == pre.locs().insert(
            p,
            Location { coord: c, layer: Some(Layer::Projectile) },
        )
        &&& (forall|c2: Coord, l2: Layer|
            pre.spec_in_bounds(c2) ==> post.occupant(c2, l2) == spec_spawned_occupant(
                pre,
                p,
                c,
                Layer::Projectile,
                c2,
                l2,
            ))
        &&& post.spec_size() == pre.spec_size()
    }

    /// Spawns a projectile entity at `from` with a trajectory computed
    /// toward `to`.
    fn spawn_projectile(&mut self, from: Coord, to: Coord, projectile_type: ProjectileType) -> (e:
        Entity)
        requires
            old(self).wf(),
            old(self).spec_in_bounds(from),
            to.x >= 0,
            to.y >= 0,
            from != to,
            old(self).occupant(from, Layer::Projectile) is None,
        ensures
            final(self).wf(),
            final(self).spec_size() == old(self).spec_size(),
            !old(self).live(e),
            forall|e2: Entity| final(self).live(e2) == (old(self).live(e2) || e2 == e),
            final(self).tiles() == old(self).tiles().insert(e, Tile::Projectile(projectile_type)),
            final(self).npcs() == old(self).npcs(),
            final(self).hps() == old(self).hps(),
            final(self).items() == old(self).items(),
            final(self).inventories() == old(self).inventories(),
            final(self).projectiles() == old(self).projectiles().insert(e, projectile_type),
            final(self).trajectories() == old(self).trajectories().insert(
                e,
                final(self).trajectories()[e],
            ),
            final(self).trajectories()[e].remaining() == crate::trajectory::cardinal_line_steps(
                to.x - from.x,
                to.y - from.y,
            ),
            final(self).trajectories()[e].remaining().len() == crate::trajectory::spec_abs(
                to.x - from.x,
            ) + crate::trajectory::spec_abs(to.y - from.y) + 1,
            final(self).locs() == old(self).locs().insert(
                e,
                Location { coord: from, layer: Some(Layer::Projectile) },
            ),
            forall|c2: Coord, l2: Layer|
                old(self).spec_in_bounds(c2) ==> final(self).occupant(c2, l2)
                    == spec_spawned_occupant(*old(self), e, from, Layer::Projectile, c2, l2),
    {
        let e = self.entity_allocator.allocate();
        proof {
            assert forall|e2: Entity| #[trigger] old(self).tiles().contains_key(e2)
                implies self.entity_allocator.live(e2) by {
                assert(old(self).live(e2));
            }
            lemma_keys_unique(&self.entity_allocator, old(self).tiles(), e);
            assert(self.components.tile@ == old(self).tiles());
            assert forall|e2: Entity| #[trigger] old(self).projectiles().contains_key(e2)
                implies self.entity_allocator.live(e2) by {
                assert(old(self).live(e2));
            }
            lemma_keys_unique(&self.entity_allocator, old(self).projectiles(), e);
            assert(self.components.projectile@ == old(self).projectiles());
            assert forall|e2: Entity| #[trigger] old(self).trajectories().contains_key(e2)
                implies self.entity_allocator.live(e2) by {
                assert(old(self).live(e2));
            }
            lemma_keys_unique(&self.entity_allocator, old(self).trajectories(), e);
            assert(self.components.trajectory@ == old(self).trajectories());
            assert forall|e2: Entity| #[trigger] old(self).locs().contains_key(e2)
                implies self.entity_allocator.live(e2) by {
                assert(old(self).live(e2));
            }
            lemma_keys_unique(&self.entity_allocator, old(self).locs(), e);
            assert(self.spatial_table.locs() == old(self).locs());
        }
        self.components.tile.insert(e, Tile::Projectile(projectile_type));
        self.components.projectile.insert(e, projectile_type);
        let traj = Trajectory::new(from, to);
        self.components.trajectory.insert(e, traj);
        let placed = self.spatial_table.update(
            e,
            Location { coord: from, layer: Some(Layer::Projectile) },
        );
        match placed {
            Ok(_) => {},
            Err(_) => {
                proof {
                    assert(false);
                }
            },
        }
        proof {
            assert forall|c2: Coord, l2: Layer|
                old(self).spec_in_bounds(c2) implies self.occupant(c2, l2) == spec_spawned_occupant(
                *old(self),
                e,
                from,
                Layer::Projectile,
                c2,
                l2,
            ) by {
                if old(self).occupant(c2, l2) == Some(e) {
                    old(self).spatial_table.lemma_backward(c2, l2);
                    assert(false);
                }
            }
            World::lemma_wf_after_spawn(
                *old(self),
                *self,
                e,
                from,
                Layer::Projectile,
                Tile::Projectile(projectile_type),
                None,
                None,
                None,
                None,
                Some(traj),
                Some(projectile_type),
            );
        }
        e
    }

    /// Completes a deferred (aimed) item use toward `target`. Aiming at the
    /// user's own coordinate is rejected; otherwise the slot is consumed and
    /// a fireball projectile is launched toward the target.
    pub fn maybe_use_item_aim(
        &mut self,
        character: Entity,
        inventory_index: usize,
        target: Coord,
        message_log: &mut Vec<LogMessage>,
    ) -> (r: Result<(), ()>)
        requires
            old(self).wf(),
            old(self).locs().contains_key(character),
            old(self).inventories().contains_key(character),
            target != old(self).locs()[character].coord ==> {
                let inv = old(self).inventories()[character];
                &&& inventory_index < inv@.len()
                &&& inv@[inventory_index as int] is Some
                &&& old(self).items().contains_key(inv@[inventory_index as int]->Some_0)
                &&& old(self).items()[inv@[inventory_index as int]->Some_0]
                    == ItemType::FireballScroll
                &&& old(self).occupant(
                    old(self).locs()[character].coord,
                    Layer::Projectile,
                ) is None
                &&& target.x >= 0
                &&& target.y >= 0
            },
        ensures
            final(self).wf(),
            ({
                let c = old(self).locs()[character].coord;
                let inv = old(self).inventories()[character];
                if target == c {
                    &&& r is Err
                    &&& final(message_log)@ == old(message_log)@
                    &&& World::spec_state_unchanged(*old(self), *final(self))
                } else {
                    &&& r is Ok
                    &&& final(message_log)@ == old(message_log)@.push(
                        LogMessage::PlayerLaunchesProjectile(ProjectileType::Fireball),
                    )
                    &&& (exists|p: Entity| #[trigger] World::spec_projectile_launched(
                        *old(self),
                        *final(self),
                        character,
                        inventory_index as int,
                        target,
                        p,
                    ))
                }
            }),
    {
        let character_coord = match self.spatial_table.coord_of(character) {
            Some(c) => c,
            None => {
                proof {
                    assert(false);
                }
                Coord { x: 0, y: 0 }
            },
        };
        if character_coord.x == target.x && character_coord.y == target.y {
            return Err(());
        }
        proof {
            self.spatial_table.lemma_forward(character);
        }
        let mut inv = match self.components.inventory.take(character) {
            Some(i) => i,
            None => {
                proof {
                    assert(false);
                }
                Inventory::new(0)
            },
        };
        let removed = inv.remove(inventory_index);
        let item_entity = match removed {
            Ok(it) => it,
            Err(_) => {
                proof {
                    assert(false);
                }
                character
            },
        };
        proof {
            assert forall|e2: Entity|
                self.components.inventory@.contains_key(e2) && e2.index == character.index
                implies e2 == character by {
                assert(old(self).inventories().contains_key(e2));
                self.entity_allocator.lemma_live_same_index(e2, character);
            }
        }
        self.components.inventory.insert(character, inv);
        proof {
            let pre = *old(self);
            assert forall|e2: Entity| #[trigger]
                self.tiles().contains_key(e2) implies self.live(e2) by {
                assert(pre.tiles().contains_key(e2));
            }
            assert forall|e2: Entity| #[trigger]
                self.npcs().contains_key(e2) implies self.live(e2) by {
                assert(pre.npcs().contains_key(e2));
            }
            assert forall|e2: Entity| #[trigger]
                self.hps().contains_key(e2) implies self.live(e2) by {
                assert(pre.hps().contains_key(e2));
            }
            assert forall|e2: Entity| #[trigger]
                self.items().contains_key(e2) implies self.live(e2) by {
                assert(pre.items().contains_key(e2));
            }
            assert forall|e2: Entity| #[trigger]
                self.inventories().contains_key(e2) implies self.live(e2) by {
                if e2 != character { assert(pre.inventories().contains_key(e2)); }
            }
            assert forall|e2: Entity| #[trigger]
                self.trajectories().contains_key(e2) implies self.live(e2) by {
                assert(pre.trajectories().contains_key(e2));
            }
            assert forall|e2: Entity| #[trigger]
                self.projectiles().contains_key(e2) implies self.live(e2) by {
                assert(pre.projectiles().contains_key(e2));
            }
            assert forall|e2: Entity| #[trigger]
                self.locs().contains_key(e2) implies self.live(e2) by {
                assert(pre.locs().contains_key(e2));
            }
            assert forall|e2: Entity| #[trigger]
                self.hps().contains_key(e2) implies self.hps()[e2].current <= self.hps()[e2].max by {
                assert(pre.hps().contains_key(e2));
            }
            assert forall|e2: Entity| #[trigger]
                self.is_character(e2) implies {
                &&& self.tiles().contains_key(e2)
                &&& (self.tiles()[e2] is Player || self.tiles()[e2] is Npc)
                &&& (self.hps().contains_key(e2) ==> self.hps()[e2].current > 0)
            } by {
                assert(pre.is_character(e2));
            }
            assert forall|e2: Entity| #[trigger]
                self.trajectories().contains_key(e2) implies self.locs().contains_key(e2)
                && self.locs()[e2].layer == Some(Layer::Projectile) by {
                assert(pre.trajectories().contains_key(e2));
            }
        }
        message_log.push(LogMessage::PlayerLaunchesProjectile(ProjectileType::Fireball));
        let ghost mid = *self;
        let p = self.spawn_projectile(character_coord, target, ProjectileType::Fireball);
        proof {
            let pre = *old(self);
            assert(mid.tiles() == pre.tiles());
            assert(mid.npcs() == pre.npcs());
            assert(mid.hps() == pre.hps());
            assert(mid.items() == pre.items());
            assert(mid.trajectories() == pre.trajectories());
            assert(mid.projectiles() == pre.projectiles());
            assert(mid.locs() == pre.locs());
            assert(mid.spatial_table == pre.spatial_table);
            assert(mid.entity_allocator == pre.entity_allocator);
            assert(self.inventories()[character]@ == pre.inventories()[character]@.update(
                inventory_index as int,
                None::<Entity>,
            ));
            assert(self.inventories() =~= pre.inventories().insert(
                character,
                self.inventories()[character],
            ));
            assert forall|c2: Coord, l2: Layer|
                pre.spec_in_bounds(c2) implies self.occupant(c2, l2) == spec_spawned_occupant(
                pre,
                p,
                pre.locs()[character].coord,
                Layer::Projectile,
                c2,
                l2,
            ) by {
                assert(self.occupant(c2, l2) == spec_spawned_occupant(
                    mid,
                    p,
                    character_coord,
                    Layer::Projectile,
                    c2,
                    l2,
                ));
            }
            assert(World::spec_projectile_launched(
                pre,
                *self,
                character,
                inventory_index as int,
                target,
                p,
            ));
        }
        Ok(())
    }

    /// Drops the item in the given slot onto the character's coordinate.
    /// Fails if an object already lies there or the slot is empty.
    pub fn maybe_drop_item(
        &mut self,
        character: Entity,
        inventory_index: usize,
        message_log: &mut Vec<LogMessage>,
    ) -> (r: Result<(), ()>)
        requires
            old(self).wf(),
            old(self).locs().contains_key(character),
            old(self).inventories().contains_key(character),
            ({
                let inv = old(self).inventories()[character];
                inventory_index < inv@.len() && inv@[inventory_index as int] is Some ==> {
                    &&& old(self).items().contains_key(inv@[inventory_index as int]->Some_0)
                    &&& !old(self).locs().contains_key(inv@[inventory_index as int]->Some_0)
                }
            }),
        ensures
            final(self).wf(),
            ({
                let c = old(self).locs()[character].coord;
                let inv = old(self).inventories()[character];
                if old(self).occupant(c, Layer::Object) is Some {
                    &&& r is Err
                    &&& final(message_log)@ == old(message_log)@.push(
                        LogMessage::NoSpaceToDropItem,
                    )
                    &&& World::spec_state_unchanged(*old(self), *final(self))
                } else if inventory_index >= inv@.len() || inv@[inventory_index as int] is None {
                    &&& r is Err
                    &&& final(message_log)@ == old(message_log)@.push(
                        LogMessage::NoItemInInventorySlot,
                    )
                    &&& World::spec_state_unchanged(*old(self), *final(self))
                } else {
                    let it = inv@[inventory_index as int]->Some_0;
                    &&& r is Ok
                    &&& final(message_log)@ == old(message_log)@.push(
                        LogMessage::PlayerDrops(old(self).items()[it]),
                    )
                    &&& final(self).inventories() == old(self).inventories().insert(
                        character,
                        final(self).inventories()[character],
                    )
                    &&& final(self).inventories()[character]@ == inv@.update(
                        inventory_index as int,
                        None::<Entity>,
                    )
                    &&& final(self).locs() == old(self).locs().insert(
                        it,
                        Location { coord: c, layer: Some(Layer::Object) },
                    )
                    &&& (forall|c2: Coord, l2: Layer|
                        old(self).spec_in_bounds(c2) ==> final(self).occupant(c2, l2)
                            == spec_world_moved_occupant(
                            *old(self),
                            it,
                            Location { coord: c, layer: Some(Layer::Object) },
                            c2,
                            l2,
                        ))
                    &&& final(self).tiles() == old(self).tiles()
                    &&& final(self).npcs() == old(self).npcs()
                    &&& final(self).hps() == old(self).hps()
                    &&& final(self).items() == old(self).items()
                    &&& final(self).trajectories() == old(self).trajectories()
                    &&& final(self).projectiles() == old(self).projectiles()
                    &&& (forall|x: Entity| final(self).live(x) == old(self).live(x))
                    &&& final(self).spec_size() == old(self).spec_size()
                }
            }),
    {
        let coord = match self.spatial_table.coord_of(character) {
            Some(c) => c,
            None => {
                proof {
                    assert(false);
                }
                Coord { x: 0, y: 0 }
            },
        };
        proof {
            self.spatial_table.lemma_forward(character);
        }
        let occupied = self.spatial_table.layers_at_checked(coord).object.is_some();
        if occupied {
            message_log.push(LogMessage::NoSpaceToDropItem);
            return Err(());
        }
        let mut inv = match self.components.inventory.take(character) {
            Some(i) => i,
            None => {
                proof {
                    assert(false);
                }
                Inventory::new(0)
            },
        };
        let removed = inv.remove(inventory_index);
        proof {
            assert forall|e2: Entity|
                self.components.inventory@.contains_key(e2) && e2.index == character.index
                implies e2 == character by {
                assert(old(self).inventories().contains_key(e2));
                self.entity_allocator.lemma_live_same_index(e2, character);
            }
        }
        self.components.inventory.insert(character, inv);
        match removed {
            Err(_) => {
                message_log.push(LogMessage::NoItemInInventorySlot);
                proof {
                    let pre = *old(self);
                    assert(self.inventories() =~= pre.inventories());
                    assert forall|e2: Entity| #[trigger]
                        self.tiles().contains_key(e2) implies self.live(e2) by {
                        assert(pre.tiles().contains_key(e2));
                    }
                    assert forall|e2: Entity| #[trigger]
                        self.npcs().contains_key(e2) implies self.live(e2) by {
                        assert(pre.npcs().contains_key(e2));
                    }
                    assert forall|e2: Entity| #[trigger]
                        self.hps().contains_key(e2) implies self.live(e2) by {
                        assert(pre.hps().contains_key(e2));
                    }
                    assert forall|e2: Entity| #[trigger]
                        self.items().contains_key(e2) implies self.live(e2) by {
                        assert(pre.items().contains_key(e2));
                    }
                    assert forall|e2: Entity| #[trigger]
                        self.inventories().contains_key(e2) implies self.live(e2) by {
                        if e2 != character { assert(pre.inventories().contains_key(e2)); }
                    }
                    assert forall|e2: Entity| #[trigger]
                        self.trajectories().contains_key(e2) implies self.live(e2) by {
                        assert(pre.trajectories().contains_key(e2));
                    }
                    assert forall|e2: Entity| #[trigger]
                        self.projectiles().contains_key(e2) implies self.live(e2) by {
                        assert(pre.projectiles().contains_key(e2));
                    }
                    assert forall|e2: Entity| #[trigger]
                        self.locs().contains_key(e2) implies self.live(e2) by {
                        assert(pre.locs().contains_key(e2));
                    }
                    assert forall|e2: Entity| #[trigger]
                        self.hps().contains_key(e2) implies self.hps()[e2].current <= self.hps()[e2].max by {
                        assert(pre.hps().contains_key(e2));
                    }
                    assert forall|e2: Entity| #[trigger]
                        self.is_character(e2) implies {
                        &&& self.tiles().contains_key(e2)
                        &&& (self.tiles()[e2] is Player || self.tiles()[e2] is Npc)
                        &&& (self.hps().contains_key(e2) ==> self.hps()[e2].current > 0)
                    } by {
                        assert(pre.is_character(e2));
                    }
                    assert forall|e2: Entity| #[trigger]
                        self.trajectories().contains_key(e2) implies self.locs().contains_key(e2)
                        && self.locs()[e2].layer == Some(Layer::Projectile) by {
                        assert(pre.trajectories().contains_key(e2));
                    }
                }
                Err(())
            },
            Ok(item) => {
                let item_type = match self.components.item.get(item) {
                    Some(t) => *t,
                    None => {
                        proof {
                            assert(false);
                        }
                        ItemType::HealthPotion
                    },
                };
                proof {
                    assert forall|e2: Entity|
                        self.spatial_table.locs().contains_key(e2) && e2.index == item.index
                        implies e2 == item by {
                        assert(old(self).locs().contains_key(e2));
                        self.entity_allocator.lemma_live_same_index(e2, item);
                    }
                }
                let placed = self.spatial_table.update(
                    item,
                    Location { coord, layer: Some(Layer::Object) },
                );
                match placed {
                    Ok(_) => {},
                    Err(_) => {
                        proof {
                            assert(false);
                        }
                    },
                }
                message_log.push(LogMessage::PlayerDrops(item_type));
                proof {
                    let pre = *old(self);
                    assert forall|c2: Coord, l2: Layer|
                        pre.spec_in_bounds(c2) implies self.occupant(c2, l2)
                        == spec_world_moved_occupant(
                        pre,
                        item,
                        Location { coord, layer: Some(Layer::Object) },
                        c2,
                        l2,
                    ) by {
                        assert(self.occupant(c2, l2) == crate::spatial::spec_moved_occupant(
                            pre.spatial_table,
                            item,
                            Location { coord, layer: Some(Layer::Object) },
                            c2,
                            l2,
                        ));
                    }
                    assert forall|e2: Entity| #[trigger]
                        self.tiles().contains_key(e2) implies self.live(e2) by {
                        assert(pre.tiles().contains_key(e2));
                    }
                    assert forall|e2: Entity| #[trigger]
                        self.npcs().contains_key(e2) implies self.live(e2) by {
                        assert(pre.npcs().contains_key(e2));
                    }
                    assert forall|e2: Entity| #[trigger]
                        self.hps().contains_key(e2) implies self.live(e2) by {
                        assert(pre.hps().contains_key(e2));
                    }
                    assert forall|e2: Entity| #[trigger]
                        self.items().contains_key(e2) implies self.live(e2) by {
                        assert(pre.items().contains_key(e2));
                    }
                    assert forall|e2: Entity| #[trigger]
                        self.inventories().contains_key(e2) implies self.live(e2) by {
                        if e2 != character { assert(pre.inventories().contains_key(e2)); }
                    }
                    assert forall|e2: Entity| #[trigger]
                        self.trajectories().contains_key(e2) implies self.live(e2) by {
                        assert(pre.trajectories().contains_key(e2));
                    }
                    assert forall|e2: Entity| #[trigger]
                        self.projectiles().contains_key(e2) implies self.live(e2) by {
                        assert(pre.projectiles().contains_key(e2));
                    }
                    assert forall|e2: Entity| #[trigger]
                        self.locs().contains_key(e2) implies self.live(e2) by {
                        if e2 != item { assert(pre.locs().contains_key(e2)); }
                    }
                    assert forall|e2: Entity| #[trigger]
                        self.hps().contains_key(e2) implies self.hps()[e2].current <= self.hps()[e2].max by {
                        assert(pre.hps().contains_key(e2));
                    }
                    assert forall|e2: Entity| #[trigger]
                        self.is_character(e2) implies {
                        &&& self.tiles().contains_key(e2)
                        &&& (self.tiles()[e2] is Player || self.tiles()[e2] is Npc)
                        &&& (self.hps().contains_key(e2) ==> self.hps()[e2].current > 0)
                    } by {
                        if e2 != item {
                            assert(pre.is_character(e2));
                        }
                    }
                    assert forall|e2: Entity| #[trigger]
                        self.trajectories().contains_key(e2) implies self.locs().contains_key(e2)
                        && self.locs()[e2].layer == Some(Layer::Projectile) by {
                        assert(pre.trajectories().contains_key(e2));
                        assert(e2 != item);
                    }
                }
                Ok(())
            },
        }
    }

    /// What a single queued fireball hit does to its victim `v`: 2 damage,
    /// floored at zero; reaching zero kills the victim: it leaves the
    /// Character layer, its tile becomes the corpse variant, it is rehomed
    /// to the Object layer at its coordinate (destroying any ground object
    /// already there), and `NpcDies` is appended iff the victim is an npc.
    pub open spec fn spec_single_hit_outcome(
        pre: World,
        post: World,
        v: Entity,
        log0: Seq<LogMessage>,
        log1: Seq<LogMessage>,
    ) -> bool {
        let died = pre.hps().contains_key(v) && pre.hps()[v].current <= 2;
        &&& (pre.hps().contains_key(v) ==> post.hps().contains_key(v) && post.hps()[v] == (
        if died {
            HitPoints { current: 0, max: pre.hps()[v].max }
        } else {
            HitPoints { current: (pre.hps()[v].current - 2) as u32, max: pre.hps()[v].max }
        }))
        &&& (died ==> {
            &&& !post.is_character(v)
            &&& post.tiles().contains_key(v)
            &&& post.tiles()[v] == spec_corpse_tile(pre.tiles()[v])
            &&& post.locs().contains_key(v)
            &&& post.locs()[v] == (Location {
                coord: pre.locs()[v].coord,
                layer: Some(Layer::Object),
            })
            &&& post.occupant(pre.locs()[v].coord, Layer::Object) == Some(v)
            &&& (spec_displaced_object(pre, v) is Some ==> !post.live(
                spec_displaced_object(pre, v)->Some_0,
            ))
            &&& log1 == (if pre.npcs().contains_key(v) {
                log0.push(LogMessage::NpcDies(pre.npcs()[v]))
            } else {
                log0
            })
        })
        &&& (!died ==> post.locs().contains_key(v) && post.locs()[v] == pre.locs()[v] && log1
            == log0)
    }

    /// The first step of `e`'s remaining trajectory.
    pub open spec fn spec_proj_step(pre: World, e: Entity) -> CardinalDirection {
        pre.trajectories()[e].remaining()[0]
    }

    /// Where that step leads, as unbounded integers.
    pub open spec fn spec_proj_dest_xy(pre: World, e: Entity) -> (int, int) {
        crate::geom::spec_step(pre.locs()[e].coord, World::spec_proj_step(pre, e))
    }

    /// Whether that step stays on the grid.
    pub open spec fn spec_proj_dest_in_bounds(pre: World, e: Entity) -> bool {
        let (nx, ny) = World::spec_proj_dest_xy(pre, e);
        &&& 0 <= nx < pre.spec_size().width
        &&& 0 <= ny < pre.spec_size().height
    }

    /// The cell that step leads to (meaningful when it stays on the grid).
    pub open spec fn spec_proj_dest(pre: World, e: Entity) -> Coord {
        let (nx, ny) = World::spec_proj_dest_xy(pre, e);
        Coord { x: nx as i32, y: ny as i32 }
    }

    /// Whether projectile `e` survives the tick: it has a step left, the
    /// step stays on the grid, and the destination holds neither a wall nor
    /// a character. Every other projectile is destroyed this tick.
    pub open spec fn spec_proj_advances(pre: World, e: Entity) -> bool {
        &&& pre.trajectories()[e].remaining().len() > 0
        &&& World::spec_proj_dest_in_bounds(pre, e)
        &&& pre.occupant(World::spec_proj_dest(pre, e), Layer::Feature) is None
        &&& pre.occupant(World::spec_proj_dest(pre, e), Layer::Character) is None
    }

    /// Whether projectile `e` strikes a character this tick: its step leads
    /// onto an occupied Character layer (and not into a wall), and it
    /// carries a projectile kind, so a hit is queued.
    pub open spec fn spec_proj_hit(pre: World, e: Entity) -> bool {
        &&& pre.trajectories()[e].remaining().len() > 0
        &&& World::spec_proj_dest_in_bounds(pre, e)
        &&& pre.occupant(World::spec_proj_dest(pre, e), Layer::Feature) is None
        &&& pre.occupant(World::spec_proj_dest(pre, e), Layer::Character) is Some
        &&& pre.projectiles().contains_key(e)
    }

    /// The character a striking projectile hits.
    pub open spec fn spec_proj_victim(pre: World, e: Entity) -> Entity {
        pre.occupant(World::spec_proj_dest(pre, e), Layer::Character)->Some_0
    }

    /// Entity `x` stands among the first `bound` scanned keys and does not
    /// advance this tick, so the scan marked it for removal.
    pub open spec fn spec_marked(pre: World, ks: Seq<Entity>, bound: int, x: Entity) -> bool {
        exists|i: int|
            0 <= i < bound && ks[i] == x && !World::spec_proj_advances(pre, #[trigger] ks[i])
    }

    /// Advances every projectile one trajectory step, in slot-index order,
    /// in two phases: a scan that moves projectiles and marks removals and
    /// hits, then the removals, then the queued fireball hits (2 damage
    /// each, with a death log entry for an npc victim). A projectile whose
    /// step leads into a wall or off the grid, or whose trajectory is
    /// exhausted, is destroyed; one that reaches a character is destroyed
    /// after queueing the hit.
    #[verifier::rlimit(60)]
    pub fn move_projectiles(&mut self, message_log: &mut Vec<LogMessage>)
        requires
            old(self).wf(),
        ensures
            final(self).wf(),
            final(self).spec_size() == old(self).spec_size(),
            forall|e: Entity| #[trigger]
                old(self).trajectories().contains_key(e) && !World::spec_proj_advances(
                    *old(self),
                    e,
                ) ==> !final(self).live(e),
            forall|e: Entity| #[trigger]
                final(self).trajectories().contains_key(e) <==> (old(self).trajectories().contains_key(e) && World::spec_proj_advances(*old(self), e)),
            forall|e: Entity| #[trigger]
                old(self).trajectories().contains_key(e) && World::spec_proj_advances(
                    *old(self),
                    e,
                ) ==> {
                    &&& final(self).trajectories()[e].remaining() == old(self).trajectories()[e].remaining().skip(1)
                    &&& final(self).locs().contains_key(e)
                    &&& final(self).locs()[e].layer == Some(Layer::Projectile)
                    &&& (final(self).locs()[e].coord == World::spec_proj_dest(*old(self), e)
                        || final(self).locs()[e].coord == old(self).locs()[e].coord)
                    &&& ((old(self).occupant(
                        World::spec_proj_dest(*old(self), e),
                        Layer::Projectile,
                    ) is None && (forall|e2: Entity|
                        old(self).trajectories().contains_key(e2) ==> e2 == e)) ==> final(self).locs()[e].coord == World::spec_proj_dest(*old(self), e))
                },
            (forall|e: Entity|
                old(self).trajectories().contains_key(e) ==> !World::spec_proj_hit(
                    *old(self),
                    e,
                )) ==> {
                &&& final(message_log)@ == old(message_log)@
                &&& forall|x: Entity|
                    old(self).hps().contains_key(x) && !old(self).trajectories().contains_key(x)
                        ==> final(self).hps().contains_key(x) && final(self).hps()[x] == old(self).hps()[x]
            },
            forall|eh: Entity|
                (old(self).trajectories().contains_key(eh) && World::spec_proj_hit(
                    *old(self),
                    eh,
                ) && (forall|e2: Entity|
                    old(self).trajectories().contains_key(e2) && World::spec_proj_hit(
                        *old(self),
                        e2,
                    ) ==> e2 == eh)) ==> World::spec_single_hit_outcome(
                    *old(self),
                    *final(self),
                    #[trigger] World::spec_proj_victim(*old(self), eh),
                    old(message_log)@,
                    final(message_log)@,
                ),
            old(message_log)@.len() <= final(message_log)@.len(),
            forall|i: int|
                0 <= i < old(message_log)@.len() ==> final(message_log)@[i] == old(message_log)@[i],
            forall|i: int|
                old(message_log)@.len() <= i < final(message_log)@.len() ==> final(message_log)@[i] is NpcDies,
    {
        let ghost pre = *old(self);
        let keys = self.components.trajectory.keys();
        let mut entities_to_remove: Vec<Entity> = Vec::new();
        let mut fireball_hit: Vec<Entity> = Vec::new();
        let ghost mut strike_keys: Seq<Entity> = Seq::empty();
        let mut k: usize = 0;
        while k < keys.len()
            invariant
                k <= keys@.len(),
                self.wf(),
                self.spec_size() == pre.spec_size(),
                pre == *old(self),
                pre.wf(),
                k == 0 ==> *self == pre,
                forall|i: int, j: int|
                    0 <= i < j < keys@.len() ==> keys@[i].index < keys@[j].index,
                forall|i: int| 0 <= i < keys@.len() ==> pre.trajectories().contains_key(
                    #[trigger] keys@[i],
                ),
                forall|e: Entity| #[trigger]
                    pre.trajectories().contains_key(e) ==> keys@.contains(e),
                forall|e: Entity| #[trigger]
                    self.trajectories().contains_key(e) == pre.trajectories().contains_key(e),
                forall|x: Entity| self.live(x) == pre.live(x),
                self.tiles() == pre.tiles(),
                self.npcs() == pre.npcs(),
                self.hps() == pre.hps(),
                self.items() == pre.items(),
                self.inventories() == pre.inventories(),
                self.projectiles() == pre.projectiles(),
                forall|c2: Coord, l2: Layer|
                    pre.spec_in_bounds(c2) && l2 != Layer::Projectile ==> #[trigger] self.occupant(
                        c2,
                        l2,
                    ) == pre.occupant(c2, l2),
                forall|x: Entity|
                    !pre.trajectories().contains_key(x) ==> #[trigger] self.locs().contains_key(x)
                        == pre.locs().contains_key(x) && (pre.locs().contains_key(x)
                        ==> self.locs()[x] == pre.locs()[x]),
                forall|i: int|
                    k <= i < keys@.len() ==> self.trajectories()[#[trigger] keys@[i]]
                        == pre.trajectories()[keys@[i]] && self.locs().contains_key(keys@[i])
                        && self.locs()[keys@[i]] == pre.locs()[keys@[i]],
                forall|i: int|
                    0 <= i < k && !World::spec_proj_advances(pre, #[trigger] keys@[i])
                        ==> entities_to_remove@.contains(keys@[i]),
                forall|j: int|
                    0 <= j < entities_to_remove@.len() ==> World::spec_marked(
                        pre,
                        keys@,
                        k as int,
                        #[trigger] entities_to_remove@[j],
                    ),
                forall|i: int, j: int|
                    0 <= i < j < entities_to_remove@.len() ==> entities_to_remove@[i].index
                        < entities_to_remove@[j].index,
                forall|i: int|
                    0 <= i < k && World::spec_proj_advances(pre, #[trigger] keys@[i]) ==> {
                        &&& self.trajectories()[keys@[i]].remaining() == pre.trajectories()[keys@[i]].remaining().skip(1)
                        &&& self.locs().contains_key(keys@[i])
                        &&& self.locs()[keys@[i]].layer == Some(Layer::Projectile)
                        &&& (self.locs()[keys@[i]].coord == World::spec_proj_dest(
                            pre,
                            keys@[i],
                        ) || self.locs()[keys@[i]].coord == pre.locs()[keys@[i]].coord)
                        &&& ((pre.occupant(
                            World::spec_proj_dest(pre, keys@[i]),
                            Layer::Projectile,
                        ) is None && (forall|e2: Entity|
                            pre.trajectories().contains_key(e2) ==> e2 == keys@[i]))
                            ==> self.locs()[keys@[i]].coord == World::spec_proj_dest(
                            pre,
                            keys@[i],
                        ))
                    },
                strike_keys.len() == fireball_hit@.len(),
                forall|j: int|
                    0 <= j < strike_keys.len() ==> {
                        &&& pre.trajectories().contains_key(#[trigger] strike_keys[j])
                        &&& World::spec_proj_hit(pre, strike_keys[j])
                        &&& fireball_hit@[j] == World::spec_proj_victim(pre, strike_keys[j])
                    },
                forall|j1: int, j2: int|
                    0 <= j1 < j2 < strike_keys.len() ==> strike_keys[j1] != strike_keys[j2],
                forall|i: int|
                    0 <= i < k && World::spec_proj_hit(pre, #[trigger] keys@[i])
                        ==> strike_keys.contains(keys@[i]),
                forall|j: int|
                    0 <= j < strike_keys.len() ==> exists|i: int|
                        0 <= i < k && keys@[i] == #[trigger] strike_keys[j],
                forall|i: int|
                    0 <= i < fireball_hit@.len() ==> self.is_character(
                        #[trigger] fireball_hit@[i],
                    ),
            decreases keys@.len() - k,
        {
            let e = keys[k];
            let ghost rem0 = entities_to_remove@;
            let ghost strikes0 = strike_keys;
            let ghost before = *self;
            let mut tr = match self.components.trajectory.take(e) {
                Some(t) => t,
                None => {
                    proof {
                        assert(false);
                    }
                    Trajectory::new(Coord { x: 0, y: 0 }, Coord { x: 1, y: 0 })
                },
            };
            let step = tr.next();
            proof {
                assert forall|e2: Entity|
                    self.components.trajectory@.contains_key(e2) && e2.index == e.index
                    implies e2 == e by {
                    assert(pre.trajectories().contains_key(e2));
                    self.entity_allocator.lemma_live_same_index(e2, e);
                }
            }
            self.components.trajectory.insert(e, tr);
            proof {
                assert(self.trajectories() =~= before.trajectories().insert(
                    e,
                    self.trajectories()[e],
                ));
                assert forall|e2: Entity| #[trigger]
                    self.trajectories().contains_key(e2) implies self.live(e2) by {
                    if e2 != e {
                        assert(before.trajectories().contains_key(e2));
                    }
                }
                assert forall|e2: Entity| #[trigger]
                    self.trajectories().contains_key(e2) implies self.locs().contains_key(e2)
                    && self.locs()[e2].layer == Some(Layer::Projectile) by {
                    assert(before.trajectories().contains_key(e2));
                }
                assert forall|e2: Entity| #[trigger]
                    self.tiles().contains_key(e2) implies self.live(e2) by {
                    assert(before.tiles().contains_key(e2));
                }
                assert forall|e2: Entity| #[trigger]
                    self.npcs().contains_key(e2) implies self.live(e2) by {
                    assert(before.npcs().contains_key(e2));
                }
                assert forall|e2: Entity| #[trigger]
                    self.hps().contains_key(e2) implies self.live(e2) by {
                    assert(before.hps().contains_key(e2));
                }
                assert forall|e2: Entity| #[trigger]
                    self.items().contains_key(e2) implies self.live(e2) by {
                    assert(before.items().contains_key(e2));
                }
                assert forall|e2: Entity| #[trigger]
                    self.inventories().contains_key(e2) implies self.live(e2) by {
                    assert(before.inventories().contains_key(e2));
                }
                assert forall|e2: Entity| #[trigger]
                    self.projectiles().contains_key(e2) implies self.live(e2) by {
                    assert(before.projectiles().contains_key(e2));
                }
                assert forall|e2: Entity| #[trigger]
                    self.locs().contains_key(e2) implies self.live(e2) by {
                    assert(before.locs().contains_key(e2));
                }
                assert forall|e2: Entity| #[trigger]
                    self.hps().contains_key(e2) implies self.hps()[e2].current <= self.hps()[
                    e2].max by {
                    assert(before.hps().contains_key(e2));
                }
                assert forall|e2: Entity| #[trigger]
                    self.is_character(e2) implies {
                    &&& self.tiles().contains_key(e2)
                    &&& (self.tiles()[e2] is Player || self.tiles()[e2] is Npc)
                    &&& (self.hps().contains_key(e2) ==> self.hps()[e2].current > 0)
                } by {
                    assert(before.is_character(e2));
                }
            }
            match step {
                Some(direction) => {
                    let current_coord = match self.spatial_table.coord_of(e) {
                        Some(c) => c,
                        None => {
                            proof {
                                assert(false);
                            }
                            Coord { x: 0, y: 0 }
                        },
                    };
                    proof {
                        self.spatial_table.lemma_forward(e);
                        self.spatial_table.lemma_size_bounds();
                        assert(current_coord == pre.locs()[e].coord);
                        assert(direction == World::spec_proj_step(pre, e));
                    }
                    let size = self.spatial_table.grid_size();
                    match crate::geom::step_in_bounds(current_coord, direction, size) {
                        None => {
                            entities_to_remove.push(e);
                            proof {
                                assert(!World::spec_proj_dest_in_bounds(pre, e));
                                assert(!World::spec_proj_advances(pre, e));
                            }
                        },
                        Some(new_coord) => {
                            proof {
                                assert(World::spec_proj_dest_in_bounds(pre, e));
                                assert(new_coord == World::spec_proj_dest(pre, e));
                            }
                            let dest_layers = self.spatial_table.layers_at_checked(new_coord);
                            proof {
                                assert(self.spatial_table == before.spatial_table);
                                assert(before.occupant(new_coord, Layer::Feature) == pre.occupant(
                                    new_coord,
                                    Layer::Feature,
                                ));
                                assert(before.occupant(new_coord, Layer::Character)
                                    == pre.occupant(new_coord, Layer::Character));
                                assert(self.occupant(new_coord, Layer::Feature) == pre.occupant(
                                    new_coord,
                                    Layer::Feature,
                                ));
                                assert(self.occupant(new_coord, Layer::Character) == pre.occupant(
                                    new_coord,
                                    Layer::Character,
                                ));
                            }
                            if dest_layers.feature.is_some() {
                                entities_to_remove.push(e);
                                proof {
                                    assert(!World::spec_proj_advances(pre, e));
                                }
                            } else {
                                match dest_layers.character {
                                    Some(character) => {
                                        entities_to_remove.push(e);
                                        proof {
                                            assert(!World::spec_proj_advances(pre, e));
                                        }
                                        proof {
                                            self.spatial_table.lemma_backward(
                                                new_coord,
                                                Layer::Character,
                                            );
                                        }
                                        let is_fireball = match self.components.projectile.get(
                                            e,
                                        ) {
                                            Some(_) => true,
                                            None => false,
                                        };
                                        if is_fireball {
                                            fireball_hit.push(character);
                                            proof {
                                                strike_keys = strike_keys.push(e);
                                            }
                                        }
                                    },
                                    None => {},
                                }
                            }
                            let ghost before_move = *self;
                            let moved = self.spatial_table.update_coord(e, new_coord);
                            proof {
                                if pre.occupant(
                                    World::spec_proj_dest(pre, e),
                                    Layer::Projectile,
                                ) is None && (forall|e2: Entity|
                                    pre.trajectories().contains_key(e2) ==> e2 == e) {
                                    if keys@.len() > 1 {
                                        assert(pre.trajectories().contains_key(keys@[0]));
                                        assert(pre.trajectories().contains_key(keys@[1]));
                                        assert(keys@[0].index < keys@[1].index);
                                        assert(false);
                                    }
                                    assert(k == 0);
                                    assert(before.spatial_table == pre.spatial_table);
                                    assert(before_move.spatial_table == pre.spatial_table);
                                    match moved {
                                        Err(occ) => {
                                            assert(before_move.occupant(
                                                new_coord,
                                                Layer::Projectile,
                                            ) == Some(occ));
                                            assert(false);
                                        },
                                        Ok(_) => {
                                            assert(self.locs()[e].coord == new_coord);
                                        },
                                    }
                                }
                                match moved {
                                    Err(_) => {},
                                    Ok(_) => {
                                        assert forall|c2: Coord, l2: Layer|
                                            pre.spec_in_bounds(c2) && l2 != Layer::Projectile
                                            implies #[trigger] self.occupant(c2, l2)
                                            == pre.occupant(c2, l2) by {
                                            assert(before_move.spatial_table
                                                == before.spatial_table);
                                            assert(before.occupant(c2, l2) == pre.occupant(
                                                c2,
                                                l2,
                                            ));
                                            assert(before_move.occupant(c2, l2) == pre.occupant(
                                                c2,
                                                l2,
                                            ));
                                            if before_move.occupant(c2, l2) == Some(e) {
                                                before_move.spatial_table.lemma_backward(c2, l2);
                                            }
                                        }
                                        assert forall|e2: Entity| #[trigger]
                                            self.locs().contains_key(e2) implies self.live(e2) by {
                                            if e2 != e {
                                                assert(before_move.locs().contains_key(e2));
                                            }
                                        }
                                        assert forall|e2: Entity| #[trigger]
                                            self.tiles().contains_key(e2) implies self.live(
                                            e2,
                                        ) by {
                                            assert(before_move.tiles().contains_key(e2));
                                        }
                                        assert forall|e2: Entity| #[trigger]
                                            self.npcs().contains_key(e2) implies self.live(e2) by {
                                            assert(before_move.npcs().contains_key(e2));
                                        }
                                        assert forall|e2: Entity| #[trigger]
                                            self.hps().contains_key(e2) implies self.live(e2) by {
                                            assert(before_move.hps().contains_key(e2));
                                        }
                                        assert forall|e2: Entity| #[trigger]
                                            self.items().contains_key(e2) implies self.live(
                                            e2,
                                        ) by {
                                            assert(before_move.items().contains_key(e2));
                                        }
                                        assert forall|e2: Entity| #[trigger]
                                            self.inventories().contains_key(e2) implies self.live(
                                            e2,
                                        ) by {
                                            assert(before_move.inventories().contains_key(e2));
                                        }
                                        assert forall|e2: Entity| #[trigger]
                                            self.trajectories().contains_key(e2) implies self.live(
                                            e2,
                                        ) by {
                                            assert(before_move.trajectories().contains_key(e2));
                                        }
                                        assert forall|e2: Entity| #[trigger]
                                            self.projectiles().contains_key(e2) implies self.live(
                                            e2,
                                        ) by {
                                            assert(before_move.projectiles().contains_key(e2));
                                        }
                                        assert forall|e2: Entity| #[trigger]
                                            self.hps().contains_key(e2) implies self.hps(
                                        )[e2].current <= self.hps()[e2].max by {
                                            assert(before_move.hps().contains_key(e2));
                                        }
                                        assert forall|e2: Entity| #[trigger]
                                            self.is_character(e2) implies {
                                            &&& self.tiles().contains_key(e2)
                                            &&& (self.tiles()[e2] is Player || self.tiles()[e2] is Npc)
                                            &&& (self.hps().contains_key(e2) ==> self.hps()[e2].current > 0)
                                        } by {
                                            assert(before_move.trajectories().contains_key(e));
                                            assert(before_move.locs()[e].layer == Some(
                                                Layer::Projectile,
                                            ));
                                            assert(e2 != e);
                                            assert(before_move.is_character(e2));
                                        }
                                        assert forall|e2: Entity| #[trigger]
                                            self.trajectories().contains_key(e2)
                                            implies self.locs().contains_key(e2) && self.locs()[e2].layer == Some(Layer::Projectile) by {
                                            if e2 != e {
                                                assert(before_move.trajectories().contains_key(
                                                    e2,
                                                ));
                                                assert(before_move.locs()[e2].layer == Some(
                                                    Layer::Projectile,
                                                ));
                                            }
                                        }
                                    },
                                }
                            }
                        },
                    }
                },
                None => {
                    entities_to_remove.push(e);
                    proof {
                        assert(pre.trajectories()[e].remaining().len() == 0);
                        assert(!World::spec_proj_advances(pre, e));
                    }
                },
            }
            proof {
                assert forall|x2: Entity| rem0.contains(x2) implies entities_to_remove@.contains(
                    x2,
                ) by {
                    let j = choose|j: int| 0 <= j < rem0.len() && rem0[j] == x2;
                    assert(entities_to_remove@[j] == x2);
                }
                if entities_to_remove@.len() > rem0.len() {
                    assert(entities_to_remove@ == rem0.push(e));
                    assert(entities_to_remove@[rem0.len() as int] == e);
                    assert(entities_to_remove@.contains(e));
                }
                assert forall|j: int|
                    0 <= j < entities_to_remove@.len() implies World::spec_marked(
                    pre,
                    keys@,
                    k as int + 1,
                    #[trigger] entities_to_remove@[j],
                ) by {
                    if j < rem0.len() {
                        let i = choose|i: int|
                            0 <= i < k && keys@[i] == rem0[j] && !World::spec_proj_advances(
                                pre,
                                #[trigger] keys@[i],
                            );
                        assert(0 <= i < k as int + 1 && keys@[i] == entities_to_remove@[j]
                            && !World::spec_proj_advances(pre, keys@[i]));
                    } else {
                        assert(keys@[k as int] == entities_to_remove@[j]);
                        assert(!World::spec_proj_advances(pre, keys@[k as int]));
                    }
                }
                assert forall|i: int, j: int|
                    0 <= i < j < entities_to_remove@.len() implies entities_to_remove@[i].index
                    < entities_to_remove@[j].index by {
                    if j >= rem0.len() {
                        let i0 = choose|i0: int|
                            0 <= i0 < k && keys@[i0] == rem0[i] && !World::spec_proj_advances(
                                pre,
                                #[trigger] keys@[i0],
                            );
                        assert(keys@[i0].index < keys@[k as int].index);
                    }
                }
                assert forall|x2: Entity| strikes0.contains(x2) implies strike_keys.contains(
                    x2,
                ) by {
                    let j = choose|j: int| 0 <= j < strikes0.len() && strikes0[j] == x2;
                    assert(strike_keys[j] == x2);
                }
                if strike_keys.len() > strikes0.len() {
                    assert(strike_keys[strikes0.len() as int] == e);
                    assert(strike_keys.contains(e));
                }
                assert forall|j: int|
                    0 <= j < strike_keys.len() implies exists|i: int|
                        0 <= i < k + 1 && keys@[i] == #[trigger] strike_keys[j] by {
                    if j < strikes0.len() {
                        let i = choose|i: int| 0 <= i < k && keys@[i] == strikes0[j];
                        assert(0 <= i < k + 1 && keys@[i] == strike_keys[j]);
                    } else {
                        assert(keys@[k as int] == strike_keys[j]);
                    }
                }
                assert forall|j1: int, j2: int|
                    0 <= j1 < j2 < strike_keys.len() implies strike_keys[j1] != strike_keys[
                    j2] by {
                    if j2 >= strikes0.len() {
                        let i0 = choose|i0: int| 0 <= i0 < k && keys@[i0] == strikes0[j1];
                        assert(keys@[i0].index < keys@[k as int].index);
                    }
                }
                assert forall|c2: Coord, l2: Layer|
                    pre.spec_in_bounds(c2) && l2 != Layer::Projectile implies #[trigger] self.occupant(
                    c2,
                    l2,
                ) == pre.occupant(c2, l2) by {
                    assert(before.occupant(c2, l2) == pre.occupant(c2, l2));
                    if self.spatial_table == before.spatial_table {
                        assert(self.occupant(c2, l2) == before.occupant(c2, l2));
                    }
                }
            }
            k += 1;
        }
        proof {
            assert(k == keys@.len());
            assert forall|j: int|
                0 <= j < entities_to_remove@.len() implies pre.trajectories().contains_key(
                #[trigger] entities_to_remove@[j],
            ) && !World::spec_proj_advances(pre, entities_to_remove@[j]) by {
                assert(World::spec_marked(pre, keys@, k as int, entities_to_remove@[j]));
                let i = choose|i: int|
                    0 <= i < k && keys@[i] == entities_to_remove@[j]
                        && !World::spec_proj_advances(pre, #[trigger] keys@[i]);
                assert(pre.trajectories().contains_key(keys@[i]));
            }
            assert forall|e: Entity| #[trigger]
                pre.trajectories().contains_key(e) && !World::spec_proj_advances(pre, e)
                implies entities_to_remove@.contains(e) by {
                assert(keys@.contains(e));
                let i = choose|i: int| 0 <= i < keys@.len() && keys@[i] == e;
                assert(!World::spec_proj_advances(pre, keys@[i]));
                assert(entities_to_remove@.contains(keys@[i]));
            }
        }
        let mut k2: usize = 0;
        while k2 < entities_to_remove.len()
            invariant
                k2 <= entities_to_remove@.len(),
                self.wf(),
                self.spec_size() == pre.spec_size(),
                pre == *old(self),
                pre.wf(),
                forall|i: int, j: int|
                    0 <= i < j < keys@.len() ==> keys@[i].index < keys@[j].index,
                forall|i: int| 0 <= i < keys@.len() ==> pre.trajectories().contains_key(
                    #[trigger] keys@[i],
                ),
                forall|e: Entity| #[trigger]
                    pre.trajectories().contains_key(e) ==> keys@.contains(e),
                forall|i: int, j: int|
                    0 <= i < j < entities_to_remove@.len() ==> entities_to_remove@[i].index
                        < entities_to_remove@[j].index,
                forall|j: int|
                    0 <= j < entities_to_remove@.len() ==> pre.trajectories().contains_key(
                        #[trigger] entities_to_remove@[j],
                    ) && !World::spec_proj_advances(pre, entities_to_remove@[j]),
                forall|e: Entity| #[trigger]
                    pre.trajectories().contains_key(e) && !World::spec_proj_advances(pre, e)
                        ==> entities_to_remove@.contains(e),
                forall|e: Entity| #[trigger]
                    self.trajectories().contains_key(e) <==> (pre.trajectories().contains_key(e)
                        && !entities_to_remove@.subrange(0, k2 as int).contains(e)),
                forall|i: int|
                    k2 <= i < entities_to_remove@.len() ==> self.live(
                        #[trigger] entities_to_remove@[i],
                    ),
                forall|i: int|
                    0 <= i < k2 ==> !self.live(#[trigger] entities_to_remove@[i]),
                forall|x: Entity| self.live(x) ==> pre.live(x),
                self.tiles() == pre.tiles().remove_keys(
                    entities_to_remove@.subrange(0, k2 as int).to_set(),
                ),
                self.npcs() == pre.npcs().remove_keys(
                    entities_to_remove@.subrange(0, k2 as int).to_set(),
                ),
                self.hps() == pre.hps().remove_keys(
                    entities_to_remove@.subrange(0, k2 as int).to_set(),
                ),
                self.items() == pre.items().remove_keys(
                    entities_to_remove@.subrange(0, k2 as int).to_set(),
                ),
                self.inventories() == pre.inventories().remove_keys(
                    entities_to_remove@.subrange(0, k2 as int).to_set(),
                ),
                self.projectiles() == pre.projectiles().remove_keys(
                    entities_to_remove@.subrange(0, k2 as int).to_set(),
                ),
                forall|c2: Coord, l2: Layer|
                    pre.spec_in_bounds(c2) && l2 != Layer::Projectile ==> #[trigger] self.occupant(
                        c2,
                        l2,
                    ) == pre.occupant(c2, l2),
                forall|x: Entity|
                    !pre.trajectories().contains_key(x) ==> #[trigger] self.locs().contains_key(x)
                        == pre.locs().contains_key(x) && (pre.locs().contains_key(x)
                        ==> self.locs()[x] == pre.locs()[x]),
                forall|e: Entity| #[trigger]
                    pre.trajectories().contains_key(e) && World::spec_proj_advances(pre, e) ==> {
                        &&& self.trajectories().contains_key(e)
                        &&& self.trajectories()[e].remaining() == pre.trajectories()[e].remaining().skip(1)
                        &&& self.locs().contains_key(e)
                        &&& self.locs()[e].layer == Some(Layer::Projectile)
                        &&& (self.locs()[e].coord == World::spec_proj_dest(pre, e)
                            || self.locs()[e].coord == pre.locs()[e].coord)
                        &&& ((pre.occupant(
                            World::spec_proj_dest(pre, e),
                            Layer::Projectile,
                        ) is None && (forall|e2: Entity|
                            pre.trajectories().contains_key(e2) ==> e2 == e)) ==> self.locs()[e].coord == World::spec_proj_dest(pre, e))
                    },
                strike_keys.len() == fireball_hit@.len(),
                forall|j: int|
                    0 <= j < strike_keys.len() ==> {
                        &&& pre.trajectories().contains_key(#[trigger] strike_keys[j])
                        &&& World::spec_proj_hit(pre, strike_keys[j])
                        &&& fireball_hit@[j] == World::spec_proj_victim(pre, strike_keys[j])
                    },
                forall|j1: int, j2: int|
                    0 <= j1 < j2 < strike_keys.len() ==> strike_keys[j1] != strike_keys[j2],
                forall|e: Entity| #[trigger]
                    pre.trajectories().contains_key(e) && World::spec_proj_hit(pre, e)
                        ==> strike_keys.contains(e),
                message_log@ == old(message_log)@,
            decreases entities_to_remove@.len() - k2,
        {
            let victim = entities_to_remove[k2];
            let ghost before_rm = *self;
            self.remove_entity(victim);
            proof {
                assert forall|c2: Coord, l2: Layer|
                    pre.spec_in_bounds(c2) && l2 != Layer::Projectile implies #[trigger] self.occupant(
                    c2,
                    l2,
                ) == pre.occupant(c2, l2) by {
                    if before_rm.occupant(c2, l2) == Some(victim) {
                        before_rm.spatial_table.lemma_backward(c2, l2);
                        assert(before_rm.trajectories().contains_key(victim));
                    }
                }
                assert(entities_to_remove@.subrange(0, k2 + 1 as int) =~= entities_to_remove@.subrange(
                    0,
                    k2 as int,
                ).push(victim));
                assert forall|x: Entity|
                    entities_to_remove@.subrange(0, k2 + 1).contains(x) == (
                entities_to_remove@.subrange(0, k2 as int).contains(x) || x == victim) by {
                    if entities_to_remove@.subrange(0, k2 + 1).contains(x) {
                        let j = choose|j: int|
                            0 <= j < k2 + 1 && #[trigger] entities_to_remove@.subrange(
                                0,
                                k2 + 1,
                            )[j] == x;
                        if j < k2 {
                            assert(entities_to_remove@.subrange(0, k2 as int)[j] == x);
                        }
                    }
                    if entities_to_remove@.subrange(0, k2 as int).contains(x) {
                        let j = choose|j: int|
                            0 <= j < k2 && #[trigger] entities_to_remove@.subrange(
                                0,
                                k2 as int,
                            )[j] == x;
                        assert(entities_to_remove@.subrange(0, k2 + 1)[j] == x);
                    }
                    if x == victim {
                        assert(entities_to_remove@.subrange(0, k2 + 1)[k2 as int] == x);
                    }
                }
                assert forall|x: Entity|
                    entities_to_remove@.subrange(0, k2 + 1).to_set().contains(x)
                        == entities_to_remove@.subrange(0, k2 as int).to_set().insert(
                        victim,
                    ).contains(x) by {
                    assert(entities_to_remove@.subrange(0, k2 + 1).to_set().contains(x)
                        == entities_to_remove@.subrange(0, k2 + 1).contains(x));
                    assert(entities_to_remove@.subrange(0, k2 as int).to_set().contains(x)
                        == entities_to_remove@.subrange(0, k2 as int).contains(x));
                }
                assert(entities_to_remove@.subrange(0, k2 + 1).to_set() =~= entities_to_remove@.subrange(
                    0,
                    k2 as int,
                ).to_set().insert(victim));
                assert(self.tiles() =~= pre.tiles().remove_keys(
                    entities_to_remove@.subrange(0, k2 + 1).to_set(),
                ));
                assert(self.npcs() =~= pre.npcs().remove_keys(
                    entities_to_remove@.subrange(0, k2 + 1).to_set(),
                ));
                assert(self.hps() =~= pre.hps().remove_keys(
                    entities_to_remove@.subrange(0, k2 + 1).to_set(),
                ));
                assert(self.items() =~= pre.items().remove_keys(
                    entities_to_remove@.subrange(0, k2 + 1).to_set(),
                ));
                assert(self.inventories() =~= pre.inventories().remove_keys(
                    entities_to_remove@.subrange(0, k2 + 1).to_set(),
                ));
                assert(self.projectiles() =~= pre.projectiles().remove_keys(
                    entities_to_remove@.subrange(0, k2 + 1).to_set(),
                ));
                assert forall|e: Entity| #[trigger]
                    self.trajectories().contains_key(e) <==> (pre.trajectories().contains_key(e)
                        && !entities_to_remove@.subrange(0, k2 + 1).contains(e)) by {
                    if e == victim {
                        assert(entities_to_remove@.subrange(0, k2 + 1)[k2 as int] == victim);
                        assert(entities_to_remove@.subrange(0, k2 + 1).contains(victim));
                    } else {
                        if entities_to_remove@.subrange(0, k2 + 1).contains(e) {
                            let j = choose|j: int|
                                0 <= j < k2 + 1 && #[trigger] entities_to_remove@.subrange(
                                    0,
                                    k2 + 1,
                                )[j] == e;
                            assert(entities_to_remove@.subrange(0, k2 as int)[j] == e);
                        }
                        if entities_to_remove@.subrange(0, k2 as int).contains(e) {
                            let j = choose|j: int|
                                0 <= j < k2 && #[trigger] entities_to_remove@.subrange(
                                    0,
                                    k2 as int,
                                )[j] == e;
                            assert(entities_to_remove@.subrange(0, k2 + 1)[j] == e);
                        }
                    }
                }
                assert forall|e: Entity| #[trigger]
                    pre.trajectories().contains_key(e) && World::spec_proj_advances(pre, e)
                    implies {
                    &&& self.trajectories().contains_key(e)
                    &&& self.trajectories()[e].remaining() == pre.trajectories()[e].remaining().skip(1)
                    &&& self.locs().contains_key(e)
                    &&& self.locs()[e].layer == Some(Layer::Projectile)
                    &&& (self.locs()[e].coord == World::spec_proj_dest(pre, e) || self.locs()[e].coord == pre.locs()[e].coord)
                    &&& ((pre.occupant(
                        World::spec_proj_dest(pre, e),
                        Layer::Projectile,
                    ) is None && (forall|e2: Entity|
                        pre.trajectories().contains_key(e2) ==> e2 == e)) ==> self.locs()[e].coord == World::spec_proj_dest(pre, e))
                } by {
                    assert(e != victim);
                    assert(before_rm.trajectories().contains_key(e));
                }
            }
            k2 += 1;
        }
        proof {
            assert(entities_to_remove@.subrange(0, entities_to_remove@.len() as int)
                =~= entities_to_remove@);
            assert forall|e: Entity| #[trigger]
                self.trajectories().contains_key(e) <==> (pre.trajectories().contains_key(e)
                    && World::spec_proj_advances(pre, e)) by {
                if pre.trajectories().contains_key(e) && !World::spec_proj_advances(pre, e) {
                    assert(entities_to_remove@.contains(e));
                }
                if self.trajectories().contains_key(e) {
                    if entities_to_remove@.contains(e) {
                        let j = choose|j: int|
                            0 <= j < entities_to_remove@.len() && entities_to_remove@[j] == e;
                        assert(entities_to_remove@.subrange(
                            0,
                            entities_to_remove@.len() as int,
                        )[j] == e);
                    }
                }
            }
            assert forall|x: Entity|
                !pre.trajectories().contains_key(x) && pre.hps().contains_key(x)
                implies self.hps().contains_key(x) && self.hps()[x] == pre.hps()[x] by {
                if entities_to_remove@.to_set().contains(x) {
                    let j = choose|j: int|
                        0 <= j < entities_to_remove@.len() && entities_to_remove@[j] == x;
                    assert(pre.trajectories().contains_key(entities_to_remove@[j]));
                }
            }
            assert forall|x: Entity|
                !pre.trajectories().contains_key(x) && pre.npcs().contains_key(x)
                implies self.npcs().contains_key(x) && self.npcs()[x] == pre.npcs()[x] by {
                if entities_to_remove@.to_set().contains(x) {
                    let j = choose|j: int|
                        0 <= j < entities_to_remove@.len() && entities_to_remove@[j] == x;
                    assert(pre.trajectories().contains_key(entities_to_remove@[j]));
                }
            }
            assert forall|x: Entity|
                !pre.trajectories().contains_key(x) && pre.tiles().contains_key(x)
                implies self.tiles().contains_key(x) && self.tiles()[x] == pre.tiles()[x] by {
                if entities_to_remove@.to_set().contains(x) {
                    let j = choose|j: int|
                        0 <= j < entities_to_remove@.len() && entities_to_remove@[j] == x;
                    assert(pre.trajectories().contains_key(entities_to_remove@[j]));
                }
            }
        }
        proof {
            assert forall|e: Entity| #[trigger]
                pre.trajectories().contains_key(e) && !World::spec_proj_advances(pre, e)
                implies !self.live(e) by {
                assert(entities_to_remove@.contains(e));
                let j = choose|j: int|
                    0 <= j < entities_to_remove@.len() && entities_to_remove@[j] == e;
                assert(!self.live(entities_to_remove@[j]));
            }
            assert forall|x: Entity| #[trigger]
                self.hps().contains_key(x) implies pre.hps().contains_key(x) && self.hps()[x]
                == pre.hps()[x] by {
                assert(!entities_to_remove@.subrange(
                    0,
                    entities_to_remove@.len() as int,
                ).to_set().contains(x));
            }
            assert forall|x: Entity| #[trigger]
                self.npcs().contains_key(x) implies pre.npcs().contains_key(x) && self.npcs()[x]
                == pre.npcs()[x] by {
                assert(!entities_to_remove@.subrange(
                    0,
                    entities_to_remove@.len() as int,
                ).to_set().contains(x));
            }
            assert forall|x: Entity| #[trigger]
                self.tiles().contains_key(x) implies pre.tiles().contains_key(x)
                && self.tiles()[x] == pre.tiles()[x] by {
                assert(!entities_to_remove@.subrange(
                    0,
                    entities_to_remove@.len() as int,
                ).to_set().contains(x));
            }
        }
        let ghost mid = *self;
        let ghost logmid = message_log@;
        let mut k3: usize = 0;
        while k3 < fireball_hit.len()
            invariant
                k3 <= fireball_hit@.len(),
                self.wf(),
                self.spec_size() == pre.spec_size(),
                pre == *old(self),
                pre.wf(),
                mid.wf(),
                mid.spec_size() == pre.spec_size(),
                forall|c2: Coord, l2: Layer|
                    pre.spec_in_bounds(c2) && l2 != Layer::Projectile ==> #[trigger] mid.occupant(
                        c2,
                        l2,
                    ) == pre.occupant(c2, l2),
                forall|x: Entity| #[trigger]
                    mid.tiles().contains_key(x) ==> pre.tiles().contains_key(x) && mid.tiles()[x]
                        == pre.tiles()[x],
                logmid == old(message_log)@,
                strike_keys.len() == fireball_hit@.len(),
                forall|j: int|
                    0 <= j < strike_keys.len() ==> {
                        &&& pre.trajectories().contains_key(#[trigger] strike_keys[j])
                        &&& World::spec_proj_hit(pre, strike_keys[j])
                        &&& fireball_hit@[j] == World::spec_proj_victim(pre, strike_keys[j])
                    },
                forall|e: Entity| #[trigger]
                    pre.trajectories().contains_key(e) && World::spec_proj_hit(pre, e)
                        ==> strike_keys.contains(e),
                k3 == 0 ==> *self == mid && message_log@ == logmid,
                forall|e: Entity| #[trigger]
                    mid.trajectories().contains_key(e) <==> (pre.trajectories().contains_key(e)
                        && World::spec_proj_advances(pre, e)),
                forall|e: Entity| #[trigger]
                    pre.trajectories().contains_key(e) && World::spec_proj_advances(pre, e)
                        ==> {
                        &&& mid.trajectories().contains_key(e)
                        &&& mid.trajectories()[e].remaining() == pre.trajectories()[e].remaining().skip(1)
                        &&& mid.locs().contains_key(e)
                        &&& mid.locs()[e].layer == Some(Layer::Projectile)
                        &&& (mid.locs()[e].coord == World::spec_proj_dest(pre, e) || mid.locs()[e].coord == pre.locs()[e].coord)
                        &&& ((pre.occupant(
                            World::spec_proj_dest(pre, e),
                            Layer::Projectile,
                        ) is None && (forall|e2: Entity|
                            pre.trajectories().contains_key(e2) ==> e2 == e)) ==> mid.locs()[e].coord == World::spec_proj_dest(pre, e))
                    },
                forall|e: Entity| #[trigger]
                    pre.trajectories().contains_key(e) && !World::spec_proj_advances(pre, e)
                        ==> !mid.live(e),
                forall|x: Entity|
                    !pre.trajectories().contains_key(x) && pre.hps().contains_key(x)
                        ==> #[trigger] mid.hps().contains_key(x) && mid.hps()[x] == pre.hps()[x],
                forall|x: Entity| #[trigger]
                    mid.hps().contains_key(x) ==> pre.hps().contains_key(x) && mid.hps()[x]
                        == pre.hps()[x],
                forall|x: Entity| #[trigger]
                    mid.npcs().contains_key(x) ==> pre.npcs().contains_key(x) && mid.npcs()[x]
                        == pre.npcs()[x],
                forall|x: Entity|
                    !pre.trajectories().contains_key(x) && pre.npcs().contains_key(x)
                        ==> #[trigger] mid.npcs().contains_key(x) && mid.npcs()[x] == pre.npcs()[
                        x],
                forall|x: Entity|
                    !pre.trajectories().contains_key(x) && pre.tiles().contains_key(x)
                        ==> #[trigger] mid.tiles().contains_key(x) && mid.tiles()[x]
                        == pre.tiles()[x],
                forall|x: Entity|
                    !pre.trajectories().contains_key(x) ==> #[trigger] mid.locs().contains_key(x)
                        == pre.locs().contains_key(x) && (pre.locs().contains_key(x)
                        ==> mid.locs()[x] == pre.locs()[x]),
                forall|e: Entity| #[trigger]
                    mid.trajectories().contains_key(e) ==> self.trajectories().contains_key(e)
                        && self.trajectories()[e] == mid.trajectories()[e]
                        && self.locs().contains_key(e) && self.locs()[e] == mid.locs()[e],
                forall|e: Entity| #[trigger]
                    self.trajectories().contains_key(e) ==> mid.trajectories().contains_key(e),
                forall|x: Entity| self.live(x) ==> mid.live(x),
                forall|x: Entity| !mid.live(x) ==> !self.live(x),
                (fireball_hit@.len() == 1 && k3 == 1) ==> World::spec_single_hit_outcome(
                    pre,
                    *self,
                    fireball_hit@[0],
                    old(message_log)@,
                    message_log@,
                ),
                old(message_log)@.len() <= message_log@.len(),
                forall|i: int|
                    0 <= i < old(message_log)@.len() ==> message_log@[i] == old(message_log)@[i],
                forall|i: int|
                    old(message_log)@.len() <= i < message_log@.len() ==> message_log@[i] is NpcDies,
            decreases fireball_hit@.len() - k3,
        {
            let entity = fireball_hit[k3];
            let ghost before_hit = *self;
            let maybe_npc = match self.components.npc_type.get(entity) {
                Some(t) => Some(*t),
                None => None,
            };
            if self.is_living_character(entity) {
                let died = self.character_damage(entity, 2);
                match died {
                    Some(_) => {
                        match maybe_npc {
                            Some(npc) => {
                                message_log.push(LogMessage::NpcDies(npc));
                            },
                            None => {},
                        }
                    },
                    None => {},
                }
            }
            proof {
                assert forall|e: Entity| #[trigger]
                    mid.trajectories().contains_key(e) implies self.trajectories().contains_key(
                    e,
                ) && self.trajectories()[e] == mid.trajectories()[e] && self.locs().contains_key(
                    e,
                ) && self.locs()[e] == mid.locs()[e] by {
                    assert(before_hit.trajectories().contains_key(e));
                    assert(before_hit.locs()[e].layer == Some(Layer::Projectile));
                    if *self != before_hit {
                        assert(before_hit.is_character(entity));
                        if before_hit.hps().contains_key(entity) && before_hit.hps()[
                            entity].current <= 2 {
                            before_hit.spatial_table.lemma_forward(entity);
                            let disp = spec_displaced_object(before_hit, entity);
                            if disp is Some {
                                let o = disp->Some_0;
                                before_hit.spatial_table.lemma_backward(
                                    before_hit.locs()[entity].coord,
                                    Layer::Object,
                                );
                                assert(e != o);
                            }
                            assert(e != entity);
                        }
                    }
                }
                assert forall|e: Entity| #[trigger]
                    self.trajectories().contains_key(e) implies mid.trajectories().contains_key(
                    e,
                ) by {
                    assert(before_hit.trajectories().contains_key(e));
                }
                if fireball_hit@.len() == 1 {
                    let sk = strike_keys[0];
                    assert(World::spec_proj_hit(pre, sk));
                    let dest = World::spec_proj_dest(pre, sk);
                    let v = World::spec_proj_victim(pre, sk);
                    assert(entity == v);
                    pre.spatial_table.lemma_size_bounds();
                    assert(pre.spec_in_bounds(dest));
                    pre.spatial_table.lemma_backward(dest, Layer::Character);
                    assert(pre.locs().contains_key(v));
                    assert(pre.locs()[v].layer == Some(Layer::Character));
                    assert(!pre.trajectories().contains_key(v));
                    assert(before_hit == mid);
                    assert(mid.locs().contains_key(v) && mid.locs()[v] == pre.locs()[v]);
                    assert(mid.is_character(v));
                    if pre.hps().contains_key(v) {
                        assert(mid.hps().contains_key(v) && mid.hps()[v] == pre.hps()[v]);
                        if pre.hps()[v].current <= 2 {
                            let disp = spec_displaced_object(mid, v);
                            assert(self.hps() == spec_remove_opt(mid.hps(), disp).insert(
                                v,
                                HitPoints { current: 0, max: pre.hps()[v].max },
                            ));
                            assert(self.locs()[v].layer == Some(Layer::Object));
                            assert(!self.is_character(v));
                            pre.spatial_table.lemma_forward(v);
                            let c = pre.locs()[v].coord;
                            assert(mid.locs().contains_key(v) && mid.locs()[v] == pre.locs()[v]);
                            assert(mid.spec_in_bounds(c));
                            assert(mid.tiles().contains_key(v));
                            assert(mid.tiles()[v] == pre.tiles()[v]);
                            assert(self.tiles()[v] == spec_corpse_tile(pre.tiles()[v]));
                            assert(self.locs()[v] == (Location {
                                coord: c,
                                layer: Some(Layer::Object),
                            }));
                            assert(self.occupant(c, Layer::Object) == spec_world_moved_occupant(
                                mid,
                                v,
                                Location { coord: c, layer: Some(Layer::Object) },
                                c,
                                Layer::Object,
                            ));
                            assert(self.occupant(c, Layer::Object) == Some(v));
                            assert(mid.occupant(c, Layer::Object) == pre.occupant(
                                c,
                                Layer::Object,
                            ));
                            assert(disp == spec_displaced_object(pre, v));
                            if disp is Some {
                                assert(!self.live(disp->Some_0));
                            }
                        }
                    } else {
                        assert(!mid.hps().contains_key(v));
                        assert(*self == mid);
                    }
                    assert(World::spec_single_hit_outcome(
                        pre,
                        *self,
                        v,
                        old(message_log)@,
                        message_log@,
                    ));
                }
            }
            k3 += 1;
        }
        proof {
            assert forall|e: Entity| #[trigger]
                pre.trajectories().contains_key(e) && !World::spec_proj_advances(pre, e)
                implies !self.live(e) by {
                assert(entities_to_remove@.contains(e));
                let j = choose|j: int|
                    0 <= j < entities_to_remove@.len() && entities_to_remove@[j] == e;
                assert(!mid.live(entities_to_remove@[j]));
            }
            assert forall|e: Entity| #[trigger]
                self.trajectories().contains_key(e) <==> (pre.trajectories().contains_key(e)
                    && World::spec_proj_advances(pre, e)) by {
                if pre.trajectories().contains_key(e) && !World::spec_proj_advances(pre, e) {
                    assert(!self.live(e));
                    if self.trajectories().contains_key(e) {
                        assert(self.live(e));
                    }
                }
                if mid.trajectories().contains_key(e) {
                    assert(pre.trajectories().contains_key(e)
                        && !entities_to_remove@.subrange(
                        0,
                        entities_to_remove@.len() as int,
                    ).contains(e));
                    if !World::spec_proj_advances(pre, e) {
                        assert(entities_to_remove@.contains(e));
                        let j = choose|j: int|
                            0 <= j < entities_to_remove@.len() && entities_to_remove@[j] == e;
                        assert(entities_to_remove@.subrange(
                            0,
                            entities_to_remove@.len() as int,
                        )[j] == e);
                    }
                }
            }
            if forall|e2: Entity|
                pre.trajectories().contains_key(e2) ==> !World::spec_proj_hit(pre, e2) {
                assert(strike_keys.len() == 0) by {
                    if strike_keys.len() > 0 {
                        assert(pre.trajectories().contains_key(strike_keys[0]));
                        assert(World::spec_proj_hit(pre, strike_keys[0]));
                    }
                }
                assert(fireball_hit@.len() == 0);
                assert(*self == mid);
                assert forall|x: Entity|
                    pre.hps().contains_key(x) && !pre.trajectories().contains_key(x)
                    implies self.hps().contains_key(x) && self.hps()[x] == pre.hps()[x] by {
                    if entities_to_remove@.contains(x) {
                        let j = choose|j: int|
                            0 <= j < entities_to_remove@.len() && entities_to_remove@[j] == x;
                        assert(pre.trajectories().contains_key(entities_to_remove@[j]));
                    }
                    assert(!entities_to_remove@.to_set().contains(x));
                }
            }
            assert forall|eh: Entity|
                (pre.trajectories().contains_key(eh) && World::spec_proj_hit(pre, eh) && (
                forall|e2: Entity|
                    pre.trajectories().contains_key(e2) && World::spec_proj_hit(pre, e2) ==> e2
                        == eh)) implies World::spec_single_hit_outcome(
                pre,
                *self,
                #[trigger] World::spec_proj_victim(pre, eh),
                old(message_log)@,
                message_log@,
            ) by {
                assert(strike_keys.contains(eh));
                assert forall|j: int| 0 <= j < strike_keys.len() implies strike_keys[j] == eh by {
                    assert(pre.trajectories().contains_key(strike_keys[j]));
                    assert(World::spec_proj_hit(pre, strike_keys[j]));
                }
                let j0 = choose|j0: int| 0 <= j0 < strike_keys.len() && strike_keys[j0] == eh;
                assert(strike_keys.len() == 1) by {
                    if strike_keys.len() > 1 {
                        assert(strike_keys[0] == eh && strike_keys[1] == eh);
                    }
                }
                assert(fireball_hit@[0] == World::spec_proj_victim(pre, eh));
                assert(k3 == 1);
            }
        }
    }

    /// Terrain cell (`xx`, `yy`) is an Npc cell whose Character layer holds
    /// `e`.
    pub open spec fn spec_npc_cell_holds(
        w: World,
        terrain: Seq<Vec<TerrainTile>>,
        yy: int,
        xx: int,
        e: Entity,
    ) -> bool {
        &&& 0 <= yy < terrain.len()
        &&& 0 <= xx < terrain[yy]@.len()
        &&& terrain[yy]@[xx] is Npc
        &&& w.occupant(Coord { x: xx as i32, y: yy as i32 }, Layer::Character) == Some(e)
    }

    /// `e` is the Character-layer occupant of some Npc terrain cell.
    pub open spec fn spec_listed_npc(w: World, terrain: Seq<Vec<TerrainTile>>, e: Entity) -> bool {
        exists|yy: int, xx: int| World::spec_npc_cell_holds(w, terrain, yy, xx, e)
    }

    /// What one populated cell holds, given its terrain tile: a floor
    /// entity always, plus the wall, character, or ground item the tile
    /// calls for.
    pub open spec fn spec_cell_populated(w: World, t: TerrainTile, x: int, y: int) -> bool {
        let c = Coord { x: x as i32, y: y as i32 };
        &&& w.occupant(c, Layer::Floor) is Some
        &&& w.tiles().contains_key(w.occupant(c, Layer::Floor)->Some_0)
        &&& w.tiles()[w.occupant(c, Layer::Floor)->Some_0] == Tile::Floor
        &&& w.occupant(c, Layer::Projectile) is None
        &&& match t {
            TerrainTile::Wall => {
                let e = w.occupant(c, Layer::Feature)->Some_0;
                &&& w.occupant(c, Layer::Feature) is Some
                &&& w.tiles().contains_key(e)
                &&& w.tiles()[e] == Tile::Wall
                &&& w.occupant(c, Layer::Character) is None
                &&& w.occupant(c, Layer::Object) is None
            },
            TerrainTile::Npc(k) => {
                let e = w.occupant(c, Layer::Character)->Some_0;
                &&& w.occupant(c, Layer::Character) is Some
                &&& w.tiles().contains_key(e)
                &&& w.tiles()[e] == Tile::Npc(k)
                &&& w.npcs().contains_key(e)
                &&& w.npcs()[e] == k
                &&& w.hps().contains_key(e)
                &&& w.hps()[e] == HitPoints {
                    current: k.spec_starting_hit_points(),
                    max: k.spec_starting_hit_points(),
                }
                &&& w.occupant(c, Layer::Feature) is None
                &&& w.occupant(c, Layer::Object) is None
            },
            TerrainTile::Item(i) => {
                let e = w.occupant(c, Layer::Object)->Some_0;
                &&& w.occupant(c, Layer::Object) is Some
                &&& w.tiles().contains_key(e)
                &&& w.tiles()[e] == Tile::Item(i)
                &&& w.items().contains_key(e)
                &&& w.items()[e] == i
                &&& w.occupant(c, Layer::Feature) is None
                &&& w.occupant(c, Layer::Character) is None
            },
            TerrainTile::Player => {
                let e = w.occupant(c, Layer::Character)->Some_0;
                &&& w.occupant(c, Layer::Character) is Some
                &&& w.tiles().contains_key(e)
                &&& w.tiles()[e] == Tile::Player
                &&& w.occupant(c, Layer::Feature) is None
                &&& w.occupant(c, Layer::Object) is None
            },
            TerrainTile::Floor => {
                &&& w.occupant(c, Layer::Feature) is None
                &&& w.occupant(c, Layer::Character) is None
                &&& w.occupant(c, Layer::Object) is None
            },
        }
    }
    /// Consumes a terrain description cell by cell: every cell gets a floor
    /// entity, and depending on the tile a wall feature, the single player,
    /// an npc, or a ground item is spawned on top. Returns the player
    /// entity and the spawned npc entities for the caller's own AI-state
    /// table.
    pub fn populate(&mut self, terrain: &Vec<Vec<TerrainTile>>) -> (r: Populate)
        requires
            old(self).wf(),
            forall|e: Entity| !old(self).locs().contains_key(e),
            terrain@.len() == old(self).spec_size().height,
            forall|y: int|
                0 <= y < terrain@.len() ==> (#[trigger] terrain@[y])@.len() == old(self).spec_size().width,
            (exists|y: int, x: int|
                0 <= y < terrain@.len() && 0 <= x < terrain@[y]@.len() && (terrain@[y]@[x]
                    is Player)),
            forall|y1: int, x1: int, y2: int, x2: int|
                0 <= y1 < terrain@.len() && 0 <= x1 < terrain@[y1]@.len() && 0 <= y2
                    < terrain@.len() && 0 <= x2 < terrain@[y2]@.len() && terrain@[y1]@[x1]
                    is Player && terrain@[y2]@[x2] is Player ==> y1 == y2 && x1 == x2,
        ensures
            final(self).wf(),
            final(self).spec_size() == old(self).spec_size(),
            final(self).tiles().contains_key(r.player_entity),
            final(self).tiles()[r.player_entity] == Tile::Player,
            final(self).hps().contains_key(r.player_entity),
            (final(self).hps()[r.player_entity] == HitPoints { current: 20, max: 20 }),
            final(self).inventories().contains_key(r.player_entity),
            final(self).inventories()[r.player_entity]@.len() == 10,
            (forall|i: int|
                0 <= i < 10 ==> final(self).inventories()[r.player_entity]@[i] is None),
            final(self).is_character(r.player_entity),
            !final(self).npcs().contains_key(r.player_entity),
            final(self).spec_in_bounds(final(self).locs()[r.player_entity].coord),
            (final(self).occupant(
                final(self).locs()[r.player_entity].coord,
                Layer::Character,
            ) == Some(r.player_entity)),
            (terrain@[final(self).locs()[r.player_entity].coord.y as int]@[final(self).locs()[r.player_entity].coord.x as int] is Player),
            forall|i: int|
                0 <= i < r.npc_entities@.len() ==> final(self).npcs().contains_key(
                    #[trigger] r.npc_entities@[i],
                ),
            forall|i: int, j: int|
                0 <= i < j < r.npc_entities@.len() ==> r.npc_entities@[i] != r.npc_entities@[j],
            forall|i: int|
                0 <= i < r.npc_entities@.len() ==> World::spec_listed_npc(
                    *final(self),
                    terrain@,
                    #[trigger] r.npc_entities@[i],
                ),
            forall|yy: int, xx: int|
                0 <= yy < terrain@.len() && 0 <= xx < terrain@[yy]@.len() && (#[trigger] terrain@[yy]@[xx]) is Npc ==> r.npc_entities@.contains(
                    final(self).occupant(
                        Coord { x: xx as i32, y: yy as i32 },
                        Layer::Character,
                    )->Some_0,
                ),
            forall|yy: int, xx: int|
                0 <= yy < terrain@.len() && 0 <= xx < terrain@[yy]@.len()
                    ==> World::spec_cell_populated(
                    *final(self),
                    #[trigger] terrain@[yy]@[xx],
                    xx,
                    yy,
                ),
    {
        proof {
            self.spatial_table.lemma_size_bounds();
        }
        let size = self.spatial_table.grid_size();
        let mut player_entity: Option<Entity> = None;
        let mut npc_entities: Vec<Entity> = Vec::new();
        let ghost mut npc_coords: Seq<(int, int)> = Seq::empty();
        let mut y: usize = 0;
        proof {
            assert forall|c2: Coord, l2: Layer|
                self.spec_in_bounds(c2) implies #[trigger] self.occupant(c2, l2) is None by {
                if self.occupant(c2, l2) is Some {
                    self.spatial_table.lemma_backward(c2, l2);
                }
            }
        }
        while y < size.height as usize
            invariant
                y <= size.height,
                self.wf(),
                self.spec_size() == old(self).spec_size(),
                size == old(self).spec_size(),
                size.width <= i32::MAX,
                size.height <= i32::MAX,
                terrain@.len() == size.height,
                forall|yy: int|
                    0 <= yy < terrain@.len() ==> (#[trigger] terrain@[yy])@.len() == size.width,
                forall|y1: int, x1: int, y2: int, x2: int|
                    0 <= y1 < terrain@.len() && 0 <= x1 < terrain@[y1]@.len() && 0 <= y2
                        < terrain@.len() && 0 <= x2 < terrain@[y2]@.len() && terrain@[y1]@[x1]
                        is Player && terrain@[y2]@[x2] is Player ==> y1 == y2 && x1 == x2,
                (forall|c2: Coord, l2: Layer|
                    self.spec_in_bounds(c2) && c2.y >= y ==> #[trigger] self.occupant(c2, l2)
                        is None),
                forall|yy: int, xx: int|
                    0 <= yy < y && 0 <= xx < terrain@[yy]@.len() ==> World::spec_cell_populated(
                        *self,
                        #[trigger] terrain@[yy]@[xx],
                        xx,
                        yy,
                    ),
                (match player_entity {
                    Some(p) => {
                        &&& self.tiles().contains_key(p)
                        &&& self.tiles()[p] == Tile::Player
                        &&& self.hps().contains_key(p)
                        &&& self.hps()[p] == HitPoints { current: 20, max: 20 }
                        &&& self.inventories().contains_key(p)
                        &&& self.inventories()[p]@.len() == 10
                        &&& (forall|i: int| 0 <= i < 10 ==> self.inventories()[p]@[i] is None)
                        &&& self.is_character(p)
                        &&& !self.npcs().contains_key(p)
                        &&& terrain@[self.locs()[p].coord.y as int]@[self.locs()[p].coord.x as int] is Player
                    },
                    None => forall|y1: int, x1: int|
                        0 <= y1 < y && 0 <= x1 < terrain@[y1]@.len() ==> !(terrain@[y1]@[x1]
                            is Player),
                }),
                forall|i: int|
                    0 <= i < npc_entities@.len() ==> self.npcs().contains_key(
                        #[trigger] npc_entities@[i],
                    ),
                npc_coords.len() == npc_entities@.len(),
                forall|i: int|
                    0 <= i < npc_coords.len() ==> {
                        let cy = (#[trigger] npc_coords[i]).1;
                        let cx = npc_coords[i].0;
                        &&& 0 <= cy < y
                        &&& 0 <= cx < terrain@[cy]@.len()
                        &&& terrain@[cy]@[cx] is Npc
                        &&& self.occupant(
                            Coord { x: cx as i32, y: cy as i32 },
                            Layer::Character,
                        ) == Some(npc_entities@[i])
                    },
                forall|y1: int, x1: int|
                    0 <= y1 < y && 0 <= x1 < terrain@[y1]@.len() && (#[trigger] terrain@[y1]@[x1]) is Npc ==> npc_entities@.contains(
                        self.occupant(
                            Coord { x: x1 as i32, y: y1 as i32 },
                            Layer::Character,
                        )->Some_0,
                    ),
                forall|i: int, j: int|
                    0 <= i < j < npc_entities@.len() ==> npc_entities@[i] != npc_entities@[j],
            decreases size.height - y,
        {
            let mut x: usize = 0;
            while x < size.width as usize
                invariant
                    x <= size.width,
                    y < size.height,
                    self.wf(),
                    self.spec_size() == old(self).spec_size(),
                    size == old(self).spec_size(),
                    size.width <= i32::MAX,
                    size.height <= i32::MAX,
                    terrain@.len() == size.height,
                    forall|yy: int|
                        0 <= yy < terrain@.len() ==> (#[trigger] terrain@[yy])@.len()
                            == size.width,
                    forall|y1: int, x1: int, y2: int, x2: int|
                        0 <= y1 < terrain@.len() && 0 <= x1 < terrain@[y1]@.len() && 0 <= y2
                            < terrain@.len() && 0 <= x2 < terrain@[y2]@.len() && terrain@[y1]@[x1] is Player && terrain@[y2]@[x2] is Player ==> y1 == y2 && x1 == x2,
                    (forall|c2: Coord, l2: Layer|
                        self.spec_in_bounds(c2) && (c2.y > y || (c2.y == y && c2.x >= x))
                            ==> #[trigger] self.occupant(c2, l2) is None),
                    forall|yy: int, xx: int|
                        0 <= yy < terrain@.len() && 0 <= xx < terrain@[yy]@.len() && (yy < y || (
                        yy == y && xx < x)) ==> World::spec_cell_populated(
                            *self,
                            #[trigger] terrain@[yy]@[xx],
                            xx,
                            yy,
                        ),
                    (match player_entity {
                        Some(p) => {
                            &&& self.tiles().contains_key(p)
                            &&& self.tiles()[p] == Tile::Player
                            &&& self.hps().contains_key(p)
                            &&& self.hps()[p] == HitPoints { current: 20, max: 20 }
                            &&& self.inventories().contains_key(p)
                            &&& self.inventories()[p]@.len() == 10
                            &&& (forall|i: int|
                                0 <= i < 10 ==> self.inventories()[p]@[i] is None)
                            &&& self.is_character(p)
                            &&& !self.npcs().contains_key(p)
                            &&& terrain@[self.locs()[p].coord.y as int]@[self.locs()[p].coord.x as int] is Player
                        },
                        None => forall|y1: int, x1: int|
                            0 <= y1 < terrain@.len() && 0 <= x1 < terrain@[y1]@.len() && (y1 < y
                                || (y1 == y && x1 < x)) ==> !(terrain@[y1]@[x1] is Player),
                    }),
                    forall|i: int|
                        0 <= i < npc_entities@.len() ==> self.npcs().contains_key(
                            #[trigger] npc_entities@[i],
                        ),
                    npc_coords.len() == npc_entities@.len(),
                    forall|i: int|
                        0 <= i < npc_coords.len() ==> {
                            let cy = (#[trigger] npc_coords[i]).1;
                            let cx = npc_coords[i].0;
                            &&& 0 <= cy < terrain@.len()
                            &&& 0 <= cx < terrain@[cy]@.len()
                            &&& (cy < y || (cy == y && cx < x))
                            &&& terrain@[cy]@[cx] is Npc
                            &&& self.occupant(
                                Coord { x: cx as i32, y: cy as i32 },
                                Layer::Character,
                            ) == Some(npc_entities@[i])
                        },
                    forall|y1: int, x1: int|
                        0 <= y1 < terrain@.len() && 0 <= x1 < terrain@[y1]@.len() && (y1 < y || (
                        y1 == y && x1 < x)) && (#[trigger] terrain@[y1]@[x1]) is Npc ==> npc_entities@.contains(
                            self.occupant(
                                Coord { x: x1 as i32, y: y1 as i32 },
                                Layer::Character,
                            )->Some_0,
                        ),
                    forall|i: int, j: int|
                        0 <= i < j < npc_entities@.len() ==> npc_entities@[i] != npc_entities@[j],
                decreases size.width - x,
            {
                let coord = Coord { x: x as i32, y: y as i32 };
                let tile = terrain[y][x];
                match tile {
                    TerrainTile::Player => {
                        self.spawn_floor(coord);
                        let p = self.spawn_player(coord);
                        player_entity = Some(p);
                    },
                    TerrainTile::Floor => {
                        self.spawn_floor(coord);
                    },
                    TerrainTile::Wall => {
                        self.spawn_floor(coord);
                        self.spawn_wall(coord);
                    },
                    TerrainTile::Npc(npc_type) => {
                        let ghost prev_npcs = npc_entities@;
                        let e = self.spawn_npc(coord, npc_type);
                        self.spawn_floor(coord);
                        npc_entities.push(e);
                        proof {
                            npc_coords = npc_coords.push((x as int, y as int));
                            assert forall|x2: Entity| prev_npcs.contains(x2)
                                implies npc_entities@.contains(x2) by {
                                let j = choose|j: int|
                                    0 <= j < prev_npcs.len() && prev_npcs[j] == x2;
                                assert(npc_entities@[j] == x2);
                            }
                            assert(npc_entities@[npc_entities@.len() - 1] == e);
                            assert(npc_entities@.contains(e));
                        }
                    },
                    TerrainTile::Item(item_type) => {
                        self.spawn_item(coord, item_type);
                        self.spawn_floor(coord);
                    },
                }
                x += 1;
            }
            y += 1;
        }
        let player = match player_entity {
            Some(p) => p,
            None => {
                proof {
                    let (py, px) = choose|py: int, px: int|
                        0 <= py < terrain@.len() && 0 <= px < terrain@[py]@.len() && terrain@[py]@[px] is Player;
                    assert(false);
                }
                Entity { index: 0, generation: 0 }
            },
        };
        let ghost listed = npc_entities@;
        let r = Populate { player_entity: player, npc_entities };
        proof {
            self.spatial_table.lemma_forward(player);
            assert(r.npc_entities@ == listed);
            assert forall|i: int|
                0 <= i < r.npc_entities@.len() implies World::spec_listed_npc(
                *self,
                terrain@,
                #[trigger] r.npc_entities@[i],
            ) by {
                let cy = npc_coords[i].1;
                let cx = npc_coords[i].0;
                assert(World::spec_npc_cell_holds(*self, terrain@, cy, cx, r.npc_entities@[i]));
            }
        }
        r
    }

    /// Hit points never exceed their maximum in a well-formed world.
    pub proof fn lemma_hit_points_bounded(self, e: Entity)
        requires
            self.wf(),
            self.hps().contains_key(e),
        ensures
            self.hps()[e].current <= self.hps()[e].max,
    {
    }

    /// Damage never drives hit points below zero and never touches the
    /// maximum: after `amount` damage lands on `victim`, its current hit
    /// points are the old ones less `amount`, floored at zero, and still
    /// at most the unchanged maximum.
    pub proof fn lemma_damage_floors_at_zero(
        pre: World,
        post: World,
        victim: Entity,
        amount: u32,
        died: bool,
    )
        requires
            pre.wf(),
            pre.hps().contains_key(victim),
            spec_damage_applied(pre, post, victim, amount, died),
        ensures
            post.hps().contains_key(victim),
            post.hps()[victim].max == pre.hps()[victim].max,
            post.hps()[victim].current == (if pre.hps()[victim].current > amount {
                (pre.hps()[victim].current - amount) as u32
            } else {
                0u32
            }),
            post.hps()[victim].current <= post.hps()[victim].max,
            died <==> pre.hps()[victim].current <= amount,
    {
    }

    /// A kill is a single, final transition: damage that exhausts the
    /// victim's hit points moves it from the Character layer to the Object
    /// layer at its coordinate and turns its tile into the corpse variant,
    /// so the victim is no longer a living character and no later attack
    /// can select it again.
    pub proof fn lemma_kill_makes_corpse(pre: World, post: World, victim: Entity, amount: u32)
        requires
            pre.wf(),
            pre.hps().contains_key(victim),
            pre.hps()[victim].current <= amount,
            pre.locs().contains_key(victim),
            spec_damage_applied(pre, post, victim, amount, true),
        ensures
            post.locs().contains_key(victim),
            post.locs()[victim] == (Location {
                coord: pre.locs()[victim].coord,
                layer: Some(Layer::Object),
            }),
            !post.is_character(victim),
            post.tiles().contains_key(victim),
            post.tiles()[victim] == spec_corpse_tile(pre.tiles()[victim]),
    {
    }

    /// Spatial uniqueness: at most one entity occupies a (coordinate,
    /// layer) slot, and an entity occupies at most one slot.
    pub proof fn lemma_occupancy_unique(self, c1: Coord, l1: Layer, c2: Coord, l2: Layer, e: Entity)
        requires
            self.wf(),
            self.spec_in_bounds(c1),
            self.spec_in_bounds(c2),
            self.occupant(c1, l1) == Some(e),
            self.occupant(c2, l2) == Some(e),
        ensures
            c1 == c2,
            l1 == l2,
    {
        self.spatial_table.lemma_occupancy_unique(c1, l1, c2, l2, e);
    }

    /// A character whose hit points have reached zero is no longer on the
    /// character layer: it cannot die a second time, because every attack
    /// selects its victim from the character layer.
    pub proof fn lemma_dead_not_living(self, e: Entity)
        requires
            self.wf(),
            self.hps().contains_key(e),
            self.hps()[e].current == 0,
        ensures
            !self.is_character(e),
    {
        if self.is_character(e) {
            assert(self.hps()[e].current > 0);
        }
    }
}

} // verus!
