use rusty_sand::assets::{CellAsset, Color};
use rusty_sand::enums::CellPhysicsType;
use rusty_sand::events::{RemoveCellEvent, SpawnCellEvent};
use rusty_sand::math::IVec2;
use rusty_sand::resources::cell_world::{CellRef, CellWorld};
use rusty_sand::resources::CellAssets;
use rusty_sand::systems::cell_management::{
    remove_cell, spawn_cell, spawn_or_remove_cell_on_click, ClickRequest,
};
use rusty_sand::systems::physics::TickReport;

fn asset(name: &str, physics_behavior: CellPhysicsType, r: u8) -> CellAsset {
    CellAsset { physics_behavior, color: Color { r, g: 0, b: 0, a: 255 }, name: name.to_string(), density: 1 }
}

#[test]
fn registry_resolves_ids_and_names() {
    let mut assets = CellAssets::default();
    assert_eq!(assets.len(), 0);
    assert!(assets.get(0).is_none());
    assert_eq!(assets.get_index_by_name("sand".to_string()), None);
    assert_eq!(assets.get_color(0), None);
    assert_eq!(assets.get_physics_behavior(0), None);
    assets.add(asset("sand", CellPhysicsType::Sand, 10));
    assets.add(asset("water", CellPhysicsType::Fluid, 20));
    assets.add(asset("tap", CellPhysicsType::Tap(0), 30));
    assert_eq!(assets.len(), 3);
    assert_eq!(assets.get_index_by_name("sand".to_string()), Some(0));
    assert_eq!(assets.get_index_by_name("water".to_string()), Some(1));
    assert_eq!(assets.get_index_by_name("tap".to_string()), Some(2));
    assert_eq!(assets.get_index_by_name("lava".to_string()), None);
    assert_eq!(assets.get(1).unwrap().name, "water");
    assert_eq!(assets.get(1).unwrap().physics_behavior, CellPhysicsType::Fluid);
    assert_eq!(assets.get(1).unwrap().density, 1);
    assert!(assets.get(3).is_none());
    assert_eq!(assets.get_by_name("tap".to_string()).unwrap().physics_behavior, CellPhysicsType::Tap(0));
    assert!(assets.get_by_name("lava".to_string()).is_none());
    assert_eq!(assets.get_color(1), Some(Color { r: 20, g: 0, b: 0, a: 255 }));
    assert_eq!(assets.get_color(3), None);
    assert_eq!(assets.get_color_by_name("sand".to_string()), Some(Color { r: 10, g: 0, b: 0, a: 255 }));
    assert_eq!(assets.get_color_by_name("lava".to_string()), None);
    assert_eq!(assets.get_physics_behavior(0), Some(CellPhysicsType::Sand));
    assert_eq!(assets.get_physics_behavior(2), Some(CellPhysicsType::Tap(0)));
    assert_eq!(assets.get_physics_behavior(3), None);
    assert_eq!(assets.get_last_index(), 2);
}

#[test]
fn a_name_resolves_to_its_latest_definition() {
    let mut assets = CellAssets::default();
    assets.add(asset("sand", CellPhysicsType::Sand, 10));
    assets.add(asset("stone", CellPhysicsType::Static, 20));
    assets.add(asset("sand", CellPhysicsType::Fluid, 30));
    assert_eq!(assets.get_index_by_name("sand".to_string()), Some(2));
    assert_eq!(assets.get_by_name("sand".to_string()).unwrap().physics_behavior, CellPhysicsType::Fluid);
    assert_eq!(assets.get_color_by_name("sand".to_string()), Some(Color { r: 30, g: 0, b: 0, a: 255 }));
    assert_eq!(assets.get(0).unwrap().physics_behavior, CellPhysicsType::Sand);
    assert_eq!(assets.get_index_by_name("stone".to_string()), Some(1));
}

#[test]
fn a_copy_of_a_definition_is_equal_to_it() {
    let a = asset("sand", CellPhysicsType::Tap(4), 7);
    let b = a.clone();
    assert_eq!(b.name, "sand");
    assert_eq!(b.physics_behavior, CellPhysicsType::Tap(4));
    assert_eq!(b.color, a.color);
    assert_eq!(b.density, a.density);
}

#[test]
fn spawn_requests_fill_only_empty_cells() {
    let mut world = CellWorld::default();
    let events = vec![
        SpawnCellEvent { pos: IVec2::new(1, 1), cell_type: 0 },
        SpawnCellEvent { pos: IVec2::new(1, 1), cell_type: 1 },
        SpawnCellEvent { pos: IVec2::new(-300, 4), cell_type: 2 },
    ];
    let report = spawn_cell(&mut world, &events);
    assert_eq!(report, TickReport { moved: 0, spawned: 2, dropped: 1 });
    assert_eq!(world.get(IVec2::new(1, 1)), Some(CellRef::new(0)));
    assert_eq!(world.get(IVec2::new(-300, 4)), Some(CellRef::new(2)));
    assert_eq!(world.total_occupancy(), 2);
    assert_eq!(world.chunk_count(), 2);
}

#[test]
fn remove_requests_clear_cells() {
    let mut world = CellWorld::default();
    world.insert(IVec2::new(1, 1), Some(CellRef::new(0)));
    world.insert(IVec2::new(2, 2), Some(CellRef::new(0)));
    let events = vec![
        RemoveCellEvent { pos: IVec2::new(1, 1) },
        RemoveCellEvent { pos: IVec2::new(1, 1) },
        RemoveCellEvent { pos: IVec2::new(500, 500) },
    ];
    let removed = remove_cell(&events, &mut world);
    assert_eq!(removed, 1);
    assert_eq!(world.get(IVec2::new(1, 1)), None);
    assert_eq!(world.get(IVec2::new(2, 2)), Some(CellRef::new(0)));
    assert_eq!(world.total_occupancy(), 1);
    assert_eq!(world.chunk_count(), 2);
    assert_eq!(remove_cell(&Vec::new(), &mut world), 0);
    assert_eq!(world.total_occupancy(), 1);
}

#[test]
fn clicks_become_requests() {
    let cell = IVec2::new(3, -4);
    let spawn = Some(ClickRequest::Spawn(SpawnCellEvent { pos: cell, cell_type: 5 }));
    let remove = Some(ClickRequest::Remove(RemoveCellEvent { pos: cell }));
    assert_eq!(spawn_or_remove_cell_on_click(true, false, false, Some(5), cell), spawn);
    assert_eq!(spawn_or_remove_cell_on_click(true, true, false, Some(5), cell), spawn);
    assert_eq!(spawn_or_remove_cell_on_click(true, false, false, None, cell), None);
    assert_eq!(spawn_or_remove_cell_on_click(true, true, false, None, cell), None);
    assert_eq!(spawn_or_remove_cell_on_click(false, true, false, Some(5), cell), remove);
    assert_eq!(spawn_or_remove_cell_on_click(false, true, false, None, cell), remove);
    assert_eq!(spawn_or_remove_cell_on_click(false, false, false, Some(5), cell), None);
    assert_eq!(spawn_or_remove_cell_on_click(true, false, true, Some(5), cell), None);
    assert_eq!(spawn_or_remove_cell_on_click(false, true, true, Some(5), cell), None);
}

#[test]
fn a_tap_is_added_once_its_target_is_known() {
    let color = Color { r: 1, g: 2, b: 3, a: 4 };
    let mut assets = CellAssets::default();
    assert!(!assets.add_tap("tap".to_string(), "sand".to_string(), color, 5));
    assert_eq!(assets.len(), 0);
    assert_eq!(assets.get_index_by_name("tap".to_string()), None);
    assets.add(asset("stone", CellPhysicsType::Static, 20));
    assets.add(asset("sand", CellPhysicsType::Sand, 10));
    assert!(!assets.add_tap("tap".to_string(), "water".to_string(), color, 5));
    assert_eq!(assets.len(), 2);
    assert!(assets.add_tap("tap".to_string(), "sand".to_string(), color, 5));
    assert_eq!(assets.len(), 3);
    assert_eq!(assets.get_index_by_name("tap".to_string()), Some(2));
    let tap = assets.get(2).unwrap();
    assert_eq!(tap.physics_behavior, CellPhysicsType::Tap(1));
    assert_eq!(tap.color, color);
    assert_eq!(tap.name, "tap");
    assert_eq!(tap.density, 5);
    // A tap may emit taps, and a name resolves to its latest definition.
    assets.add(asset("sand", CellPhysicsType::Fluid, 30));
    assert!(assets.add_tap("source".to_string(), "sand".to_string(), color, 1));
    assert_eq!(assets.get(4).unwrap().physics_behavior, CellPhysicsType::Tap(3));
    assert!(assets.add_tap("well".to_string(), "well".to_string(), color, 1) == false);
    assert!(assets.add_tap("tap".to_string(), "tap".to_string(), color, 1));
    assert_eq!(assets.get(5).unwrap().physics_behavior, CellPhysicsType::Tap(2));
}
