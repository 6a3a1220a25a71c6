use grid_world::entity::EntityAllocator;
use grid_world::geom::{CardinalDirection, Coord, Size};
use grid_world::inventory::Inventory;
use grid_world::kinds::{
    ExamineCell, ItemType, ItemUsage, LogMessage, NpcType, ProjectileType, TerrainTile,
};
use grid_world::world::World;

fn coord(x: i32, y: i32) -> Coord {
    Coord { x, y }
}

fn world_from_row(row: Vec<TerrainTile>) -> (World, grid_world::world::Populate) {
    let width = row.len() as u32;
    let mut world = World::new(Size { width, height: 1 });
    let terrain = vec![row];
    let populate = world.populate(&terrain);
    (world, populate)
}

#[test]
fn inventory_fills_to_capacity_and_rejects_one_more() {
    let mut alloc = EntityAllocator::new();
    for capacity in 0..5usize {
        let mut inventory = Inventory::new(capacity);
        for _ in 0..capacity {
            assert!(inventory.insert(alloc.allocate()).is_ok());
        }
        assert!(inventory.insert(alloc.allocate()).is_err());
    }
}

#[test]
fn inventory_remove_yields_inserted_entity_and_empties_slot() {
    let mut alloc = EntityAllocator::new();
    let mut inventory = Inventory::new(3);
    let item = alloc.allocate();
    inventory.insert(item).unwrap();
    assert_eq!(inventory.remove(0).unwrap(), item);
    assert!(inventory.slots()[0].is_none());
    assert!(inventory.remove(0).is_err());
    assert!(inventory.remove(99).is_err());
    assert!(inventory.get(0).is_err());
}

#[test]
fn player_bump_attacks_then_kills_orc() {
    let (mut world, populate) = world_from_row(vec![
        TerrainTile::Player,
        TerrainTile::Npc(NpcType::Orc),
    ]);
    let player = populate.player_entity;
    let orc = populate.npc_entities[0];
    assert_eq!(world.hit_points(player).unwrap().current, 20);
    assert_eq!(world.hit_points(player).unwrap().max, 20);
    assert_eq!(world.entity_coord(player).unwrap(), coord(0, 0));
    assert_eq!(world.hit_points(orc).unwrap().current, 2);

    let mut log = Vec::new();
    world.maybe_move_character(player, CardinalDirection::East, &mut log);
    assert_eq!(log.last(), Some(&LogMessage::PlayerAttacksNpc(NpcType::Orc)));
    assert_eq!(world.hit_points(orc).unwrap().current, 1);
    assert_eq!(world.entity_coord(player).unwrap(), coord(0, 0));

    world.maybe_move_character(player, CardinalDirection::East, &mut log);
    assert_eq!(log.last(), Some(&LogMessage::PlayerKillsNpc(NpcType::Orc)));
    assert!(!world.is_living_character(orc));
    assert_eq!(
        world.examine_cell(coord(1, 0)),
        Some(ExamineCell::NpcCorpse(NpcType::Orc))
    );
}

#[test]
fn fireball_scroll_requires_aim_and_projectile_reaches_troll() {
    let (mut world, populate) = world_from_row(vec![
        TerrainTile::Player,
        TerrainTile::Item(ItemType::FireballScroll),
        TerrainTile::Floor,
        TerrainTile::Floor,
        TerrainTile::Npc(NpcType::Troll),
    ]);
    let player = populate.player_entity;
    let troll = populate.npc_entities[0];
    let mut log = Vec::new();

    world.maybe_move_character(player, CardinalDirection::East, &mut log);
    assert_eq!(world.entity_coord(player).unwrap(), coord(1, 0));
    assert!(world.maybe_get_item(player, &mut log).is_ok());
    assert_eq!(
        log.last(),
        Some(&LogMessage::PlayerGets(ItemType::FireballScroll))
    );

    let usage = world.maybe_use_item(player, 0, &mut log).unwrap();
    assert!(matches!(usage, ItemUsage::Aim));

    assert!(world
        .maybe_use_item_aim(player, 0, coord(4, 0), &mut log)
        .is_ok());
    assert_eq!(
        log.last(),
        Some(&LogMessage::PlayerLaunchesProjectile(ProjectileType::Fireball))
    );
    assert!(world.has_projectiles());

    world.move_projectiles(&mut log);
    assert!(world.has_projectiles());
    world.move_projectiles(&mut log);
    assert!(world.has_projectiles());
    world.move_projectiles(&mut log);
    assert!(!world.has_projectiles());
    assert_eq!(world.hit_points(troll).unwrap().current, 4);
}

#[test]
fn dropping_onto_occupied_ground_fails_and_keeps_inventory() {
    let (mut world, populate) = world_from_row(vec![
        TerrainTile::Player,
        TerrainTile::Item(ItemType::HealthPotion),
        TerrainTile::Item(ItemType::FireballScroll),
    ]);
    let player = populate.player_entity;
    let mut log = Vec::new();

    world.maybe_move_character(player, CardinalDirection::East, &mut log);
    assert!(world.maybe_get_item(player, &mut log).is_ok());
    world.maybe_move_character(player, CardinalDirection::East, &mut log);
    assert_eq!(world.entity_coord(player).unwrap(), coord(2, 0));

    let before: Vec<_> = world.inventory(player).unwrap().slots().to_vec();
    assert!(world.maybe_drop_item(player, 0, &mut log).is_err());
    assert_eq!(log.last(), Some(&LogMessage::NoSpaceToDropItem));
    let after: Vec<_> = world.inventory(player).unwrap().slots().to_vec();
    assert_eq!(before, after);
    assert!(after[0].is_some());
}

#[test]
fn drop_onto_free_ground_succeeds() {
    let (mut world, populate) = world_from_row(vec![
        TerrainTile::Player,
        TerrainTile::Item(ItemType::HealthPotion),
        TerrainTile::Floor,
    ]);
    let player = populate.player_entity;
    let mut log = Vec::new();
    world.maybe_move_character(player, CardinalDirection::East, &mut log);
    assert!(world.maybe_get_item(player, &mut log).is_ok());
    world.maybe_move_character(player, CardinalDirection::East, &mut log);
    assert!(world.maybe_drop_item(player, 0, &mut log).is_ok());
    assert_eq!(log.last(), Some(&LogMessage::PlayerDrops(ItemType::HealthPotion)));
    assert_eq!(
        world.examine_cell(coord(2, 0)),
        Some(ExamineCell::Player)
    );
    assert!(world.inventory(player).unwrap().slots()[0].is_none());
}

#[test]
fn health_potion_heals_capped_at_max() {
    let (mut world, populate) = world_from_row(vec![
        TerrainTile::Player,
        TerrainTile::Item(ItemType::HealthPotion),
        TerrainTile::Npc(NpcType::Orc),
    ]);
    let player = populate.player_entity;
    let orc = populate.npc_entities[0];
    let mut log = Vec::new();

    world.maybe_move_character(player, CardinalDirection::East, &mut log);
    assert!(world.maybe_get_item(player, &mut log).is_ok());

    // The orc bumps the player: 1 damage, logged as an npc attack.
    world.maybe_move_character(orc, CardinalDirection::West, &mut log);
    assert_eq!(log.last(), Some(&LogMessage::NpcAttacksPlayer(NpcType::Orc)));
    assert_eq!(world.hit_points(player).unwrap().current, 19);

    let usage = world.maybe_use_item(player, 0, &mut log).unwrap();
    assert!(matches!(usage, ItemUsage::Immediate));
    assert_eq!(log.last(), Some(&LogMessage::PlayerHeals));
    let hp = world.hit_points(player).unwrap();
    assert_eq!(hp.current, 20);
    assert_eq!(hp.max, 20);
    assert!(world.inventory(player).unwrap().slots()[0].is_none());
}

#[test]
fn walls_block_movement_and_sight() {
    let (mut world, populate) = world_from_row(vec![TerrainTile::Player, TerrainTile::Wall]);
    let player = populate.player_entity;
    let mut log = Vec::new();
    world.maybe_move_character(player, CardinalDirection::East, &mut log);
    assert_eq!(world.entity_coord(player).unwrap(), coord(0, 0));
    assert!(log.is_empty());
    assert_eq!(world.opacity_at(coord(1, 0)), 255);
    assert_eq!(world.opacity_at(coord(0, 0)), 0);
    assert!(!world.can_npc_enter(coord(1, 0)));
    assert!(!world.can_npc_see_through_cell(coord(1, 0)));
    assert!(!world.can_npc_enter_ignoring_other_npcs(coord(1, 0)));
}

#[test]
fn moving_off_the_grid_is_a_no_op() {
    let (mut world, populate) = world_from_row(vec![TerrainTile::Player]);
    let player = populate.player_entity;
    let mut log = Vec::new();
    world.maybe_move_character(player, CardinalDirection::West, &mut log);
    world.maybe_move_character(player, CardinalDirection::North, &mut log);
    world.maybe_move_character(player, CardinalDirection::South, &mut log);
    assert_eq!(world.entity_coord(player).unwrap(), coord(0, 0));
    assert!(log.is_empty());
}

#[test]
fn npc_cannot_enter_cell_with_npc() {
    let (world, _populate) = world_from_row(vec![
        TerrainTile::Player,
        TerrainTile::Npc(NpcType::Orc),
        TerrainTile::Floor,
    ]);
    assert!(!world.can_npc_enter(coord(1, 0)));
    // A player does not block an npc under this check.
    assert!(world.can_npc_enter(coord(0, 0)));
    assert!(world.can_npc_enter(coord(2, 0)));
    assert!(!world.can_npc_enter(coord(3, 0)));
}

#[test]
fn getting_item_from_bare_floor_fails() {
    let (mut world, populate) = world_from_row(vec![TerrainTile::Player, TerrainTile::Floor]);
    let player = populate.player_entity;
    let mut log = Vec::new();
    assert!(world.maybe_get_item(player, &mut log).is_err());
    assert_eq!(log.last(), Some(&LogMessage::NoItemUnderPlayer));
}

#[test]
fn using_an_empty_slot_fails() {
    let (mut world, populate) = world_from_row(vec![TerrainTile::Player]);
    let player = populate.player_entity;
    let mut log = Vec::new();
    assert!(world.maybe_use_item(player, 0, &mut log).is_err());
    assert_eq!(log.last(), Some(&LogMessage::NoItemInInventorySlot));
    assert!(world.maybe_drop_item(player, 3, &mut log).is_err());
    assert_eq!(log.last(), Some(&LogMessage::NoItemInInventorySlot));
}

#[test]
fn aiming_at_own_coordinate_is_rejected() {
    let (mut world, populate) = world_from_row(vec![
        TerrainTile::Player,
        TerrainTile::Item(ItemType::FireballScroll),
    ]);
    let player = populate.player_entity;
    let mut log = Vec::new();
    world.maybe_move_character(player, CardinalDirection::East, &mut log);
    assert!(world.maybe_get_item(player, &mut log).is_ok());
    let log_len = log.len();
    assert!(world
        .maybe_use_item_aim(player, 0, coord(1, 0), &mut log)
        .is_err());
    assert_eq!(log.len(), log_len);
    // The slot is untouched by the rejected aim.
    assert!(world.inventory(player).unwrap().slots()[0].is_some());
}

#[test]
fn projectile_stops_at_wall_without_damage() {
    let (mut world, populate) = world_from_row(vec![
        TerrainTile::Player,
        TerrainTile::Item(ItemType::FireballScroll),
        TerrainTile::Floor,
        TerrainTile::Wall,
        TerrainTile::Npc(NpcType::Troll),
    ]);
    let player = populate.player_entity;
    let troll = populate.npc_entities[0];
    let mut log = Vec::new();
    world.maybe_move_character(player, CardinalDirection::East, &mut log);
    assert!(world.maybe_get_item(player, &mut log).is_ok());
    assert!(world.maybe_use_item(player, 0, &mut log).is_ok());
    assert!(world
        .maybe_use_item_aim(player, 0, coord(4, 0), &mut log)
        .is_ok());
    world.move_projectiles(&mut log);
    assert!(world.has_projectiles());
    // The second step leads into the wall: the projectile is destroyed.
    world.move_projectiles(&mut log);
    assert!(!world.has_projectiles());
    assert_eq!(world.hit_points(troll).unwrap().current, 6);
}

#[test]
fn fireball_kill_leaves_corpse_on_object_layer() {
    let (mut world, populate) = world_from_row(vec![
        TerrainTile::Player,
        TerrainTile::Item(ItemType::FireballScroll),
        TerrainTile::Floor,
        TerrainTile::Npc(NpcType::Orc),
    ]);
    let player = populate.player_entity;
    let orc = populate.npc_entities[0];
    let mut log = Vec::new();
    world.maybe_move_character(player, CardinalDirection::East, &mut log);
    assert!(world.maybe_get_item(player, &mut log).is_ok());
    assert!(world.maybe_use_item(player, 0, &mut log).is_ok());
    assert!(world
        .maybe_use_item_aim(player, 0, coord(3, 0), &mut log)
        .is_ok());
    world.move_projectiles(&mut log);
    assert!(world.has_projectiles());
    // The second step lands on the orc: 2 damage exhausts its 2 hit points.
    world.move_projectiles(&mut log);
    assert!(!world.has_projectiles());
    assert_eq!(log.last(), Some(&LogMessage::NpcDies(NpcType::Orc)));
    assert!(!world.is_living_character(orc));
    assert_eq!(world.hit_points(orc).unwrap().current, 0);
    // The corpse now sits on the object layer of the cell the orc held.
    assert_eq!(
        world.examine_cell(coord(3, 0)),
        Some(ExamineCell::NpcCorpse(NpcType::Orc))
    );
}

#[test]
fn projectile_travels_step_count_of_its_trajectory() {
    let (mut world, populate) = world_from_row(vec![
        TerrainTile::Player,
        TerrainTile::Item(ItemType::FireballScroll),
        TerrainTile::Floor,
        TerrainTile::Floor,
        TerrainTile::Floor,
        TerrainTile::Floor,
    ]);
    let player = populate.player_entity;
    let mut log = Vec::new();
    world.maybe_move_character(player, CardinalDirection::East, &mut log);
    assert!(world.maybe_get_item(player, &mut log).is_ok());
    assert!(world.maybe_use_item(player, 0, &mut log).is_ok());
    // Two cells east: the generator yields |dx| + |dy| + 1 = 3 steps.
    assert!(world
        .maybe_use_item_aim(player, 0, coord(3, 0), &mut log)
        .is_ok());
    for _ in 0..3 {
        assert!(world.has_projectiles());
        world.move_projectiles(&mut log);
    }
    // The fourth tick finds the trajectory exhausted and removes it.
    world.move_projectiles(&mut log);
    assert!(!world.has_projectiles());
}

#[test]
fn corpse_vacates_character_layer() {
    let (mut world, populate) = world_from_row(vec![
        TerrainTile::Player,
        TerrainTile::Npc(NpcType::Orc),
        TerrainTile::Floor,
    ]);
    let player = populate.player_entity;
    let orc = populate.npc_entities[0];
    let mut log = Vec::new();
    // Kill the orc with two bumps; the corpse moves to the object layer.
    world.maybe_move_character(player, CardinalDirection::East, &mut log);
    world.maybe_move_character(player, CardinalDirection::East, &mut log);
    assert!(!world.is_living_character(orc));
    assert_eq!(
        world.examine_cell(coord(1, 0)),
        Some(ExamineCell::NpcCorpse(NpcType::Orc))
    );
    // The character layer at (1, 0) is vacated: the player can walk in.
    world.maybe_move_character(player, CardinalDirection::East, &mut log);
    assert_eq!(world.entity_coord(player).unwrap(), coord(1, 0));
}

#[test]
fn kind_names() {
    assert_eq!(NpcType::Orc.name(), "orc");
    assert_eq!(NpcType::Troll.name(), "troll");
    assert_eq!(ItemType::HealthPotion.name(), "health potion");
    assert_eq!(ItemType::FireballScroll.name(), "fireball scroll");
    assert_eq!(ProjectileType::Fireball.name(), "fireball");
}

#[test]
fn remove_entity_clears_everything() {
    let (mut world, populate) = world_from_row(vec![
        TerrainTile::Player,
        TerrainTile::Npc(NpcType::Troll),
    ]);
    let troll = populate.npc_entities[0];
    assert!(world.is_living_character(troll));
    world.remove_entity(troll);
    assert!(!world.is_living_character(troll));
    assert!(world.hit_points(troll).is_none());
    assert!(world.entity_coord(troll).is_none());
    assert_eq!(world.examine_cell(coord(1, 0)), None);
}

#[test]
fn tiles_of_populated_world() {
    let (world, populate) = world_from_row(vec![
        TerrainTile::Player,
        TerrainTile::Npc(NpcType::Orc),
        TerrainTile::Item(ItemType::HealthPotion),
    ]);
    assert_eq!(world.size(), Size { width: 3, height: 1 });
    assert_eq!(world.examine_cell(coord(0, 0)), Some(ExamineCell::Player));
    assert_eq!(
        world.examine_cell(coord(1, 0)),
        Some(ExamineCell::Npc(NpcType::Orc))
    );
    assert_eq!(
        world.examine_cell(coord(2, 0)),
        Some(ExamineCell::Item(ItemType::HealthPotion))
    );
    assert!(world.is_living_character(populate.player_entity));
}
