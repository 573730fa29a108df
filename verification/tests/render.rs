use rusty_sand::assets::{CellAsset, Color};
use rusty_sand::enums::CellPhysicsType;
use rusty_sand::math::IVec2;
use rusty_sand::resources::cell_world::{CellRef, CellWorld};
use rusty_sand::resources::CellAssets;
use rusty_sand::systems::render::{render_chunk, CellInstance};

#[test]
fn a_chunk_is_drawn_row_by_row_in_the_colours_of_its_materials() {
    let sand = Color { r: 0xf6, g: 0xd7, b: 0xb0, a: 255 };
    let stone = Color { r: 0x4e, g: 0x57, b: 0x54, a: 255 };
    let purple = Color { r: 128, g: 0, b: 128, a: 255 };
    let mut assets = CellAssets::default();
    assets.add(CellAsset { physics_behavior: CellPhysicsType::Sand, color: sand, name: "sand".to_string(), density: 1 });
    assets.add(CellAsset { physics_behavior: CellPhysicsType::Static, color: stone, name: "stone".to_string(), density: 1 });

    let mut world = CellWorld::default();
    assert!(render_chunk(&world, IVec2::new(0, 0), &assets).is_empty());

    let moved = CellRef { material_id: 0, offset_x_bits: 0x3f00_0000, offset_y_bits: 0 };
    world.insert(IVec2::new(-1, -100), Some(CellRef::new(7)));
    world.insert(IVec2::new(-100, -1), Some(moved));
    world.insert(IVec2::new(-50, -50), Some(CellRef::new(1)));
    world.insert(IVec2::new(-51, -50), Some(CellRef::new(0)));
    world.insert(IVec2::new(0, 0), Some(CellRef::new(1)));

    let drawn = render_chunk(&world, IVec2::new(-1, -1), &assets);
    assert_eq!(
        drawn,
        vec![
            CellInstance { pos: IVec2::new(-1, -100), cell: CellRef::new(7), color: purple },
            CellInstance { pos: IVec2::new(-51, -50), cell: CellRef::new(0), color: sand },
            CellInstance { pos: IVec2::new(-50, -50), cell: CellRef::new(1), color: stone },
            CellInstance { pos: IVec2::new(-100, -1), cell: moved, color: sand },
        ]
    );
    assert_eq!(
        render_chunk(&world, IVec2::new(0, 0), &assets),
        vec![CellInstance { pos: IVec2::new(0, 0), cell: CellRef::new(1), color: stone }]
    );
    assert!(render_chunk(&world, IVec2::new(1, 0), &assets).is_empty());
}

#[test]
fn a_chunk_at_the_edge_of_the_plane_is_drawn() {
    let assets = CellAssets::default();
    let mut world = CellWorld::default();
    let corner = IVec2::new(i32::MIN, i32::MIN);
    world.insert(corner, Some(CellRef::new(0)));
    let c = CellWorld::calculate_chunk_pos(corner);
    let drawn = render_chunk(&world, c, &assets);
    assert_eq!(drawn.len(), 1);
    assert_eq!(drawn[0].pos, corner);
    assert_eq!(drawn[0].color, Color { r: 128, g: 0, b: 128, a: 255 });
}
