use rusty_sand::math::IVec2;
use rusty_sand::resources::cell_world::{CellRef, CellWorld, Chunk};

#[test]
fn if_cell_world_is_empty_fn() {
    let mut cell_world = CellWorld::default();
    cell_world.insert(IVec2::new(10, 10), Some(CellRef::new(10)));
    cell_world.insert(IVec2::new(-10, 10), Some(CellRef::new(10)));
    println!("Cell at (1, 1): {:?}", cell_world.get(IVec2::new(1, 1)));
    assert_eq!(true, cell_world.is_cell_empty(IVec2::new(1, 1)));
    assert_eq!(false, cell_world.is_cell_empty(IVec2::new(10, 10)));
    assert_eq!(false, cell_world.is_cell_empty(IVec2::new(-10, 10)));
}

#[test]
fn insert_then_get_then_remove() {
    let mut world = CellWorld::default();
    let g = IVec2::new(-1, -1);
    let c = CellRef { material_id: 3, offset_x_bits: 0x3f00_0000, offset_y_bits: 0 };
    world.insert(g, Some(c));
    assert_eq!(world.get(g), Some(c));
    assert_eq!(world.total_occupancy(), 1);
    world.insert(g, None);
    assert_eq!(world.get(g), None);
    assert_eq!(world.total_occupancy(), 0);
    assert_eq!(world.chunk_count(), 1);
}

#[test]
fn chunk_counter_follows_writes() {
    let mut chunk = Chunk::default();
    assert_eq!(chunk.cell_count(), 0);
    chunk.insert(IVec2::new(0, 0), Some(CellRef::new(1)));
    chunk.insert(IVec2::new(99, 99), Some(CellRef::new(2)));
    assert_eq!(chunk.cell_count(), 2);
    chunk.insert(IVec2::new(0, 0), Some(CellRef::new(5)));
    assert_eq!(chunk.cell_count(), 2);
    assert_eq!(chunk.get(IVec2::new(0, 0)), Some(CellRef::new(5)));
    chunk.insert(IVec2::new(0, 0), None);
    assert_eq!(chunk.cell_count(), 1);
    chunk.insert(IVec2::new(100, 0), Some(CellRef::new(1)));
    chunk.insert(IVec2::new(-1, 0), Some(CellRef::new(1)));
    assert_eq!(chunk.cell_count(), 1);
    assert_eq!(chunk.get(IVec2::new(100, 0)), None);
    assert_eq!(chunk.get(IVec2::new(-1, 0)), None);
}

#[test]
fn cells_of_many_chunks_are_kept_apart() {
    let mut world = CellWorld::default();
    let spots = [
        IVec2::new(0, 0),
        IVec2::new(100, 0),
        IVec2::new(0, 100),
        IVec2::new(-100, -100),
        IVec2::new(-1, 0),
        IVec2::new(i32::MIN, i32::MAX),
        IVec2::new(i32::MAX, i32::MIN),
    ];
    for (i, g) in spots.iter().enumerate() {
        world.insert(*g, Some(CellRef::new(i)));
    }
    for (i, g) in spots.iter().enumerate() {
        assert_eq!(world.get(*g), Some(CellRef::new(i)));
    }
    assert_eq!(world.chunk_count(), 7);
    assert_eq!(world.total_occupancy(), 7);
    assert_eq!(world.get(IVec2::new(1, 0)), None);
    assert_eq!(world.get(IVec2::new(50, 50)), None);
    assert_eq!(world.get(IVec2::new(5000, 5000)), None);
    world.insert(IVec2::new(100, 0), Some(CellRef::new(42)));
    assert_eq!(world.get(IVec2::new(100, 0)), Some(CellRef::new(42)));
    assert_eq!(world.get(IVec2::new(0, 0)), Some(CellRef::new(0)));
    assert_eq!(world.total_occupancy(), 7);
    assert_eq!(world.chunk_count(), 7);
}

#[test]
fn chunks_come_in_ascending_order() {
    let mut world = CellWorld::default();
    assert!(world.chunks().is_empty());
    world.insert(IVec2::new(250, 0), Some(CellRef::new(0)));
    world.insert(IVec2::new(-1, 300), Some(CellRef::new(0)));
    world.insert(IVec2::new(0, 0), None);
    world.insert(IVec2::new(-1, -1), Some(CellRef::new(0)));
    world.insert(IVec2::new(5, 5), Some(CellRef::new(0)));
    let expected = vec![IVec2::new(-1, -1), IVec2::new(-1, 3), IVec2::new(0, 0), IVec2::new(2, 0)];
    assert_eq!(world.chunks(), &expected);
    assert_eq!(world.chunk_count(), 4);
    assert_eq!(world.total_occupancy(), 4);
}

#[test]
fn a_region_without_a_chunk_reads_as_empty() {
    let mut world = CellWorld::default();
    assert!(world.get_chunk(IVec2::new(3, 3)).is_none());
    assert!(world.chunk_at(IVec2::new(0, 0)).is_none());
    assert!(world.is_cell_empty(IVec2::new(3, 3)));
    world.insert(IVec2::new(3, 3), None);
    assert!(world.is_cell_empty(IVec2::new(3, 3)));
    let chunk = world.get_chunk(IVec2::new(99, 99)).unwrap();
    assert_eq!(chunk.cell_count(), 0);
    assert!(world.get_chunk(IVec2::new(100, 99)).is_none());
    world.insert(IVec2::new(3, 4), Some(CellRef::new(8)));
    let chunk = world.chunk_at(IVec2::new(0, 0)).unwrap();
    assert_eq!(chunk.cell_count(), 1);
    assert_eq!(chunk.get(IVec2::new(3, 4)), Some(CellRef::new(8)));
}

#[test]
fn chunk_get_mut_hands_out_the_slot() {
    let mut chunk = Chunk::default();
    // Inside the chunk the slot is handed out, filled or not.
    assert_eq!(chunk.get_mut(IVec2::new(3, 4)), Some(&mut None));
    assert_eq!(chunk.get_mut(IVec2::new(0, 0)), Some(&mut None));
    assert_eq!(chunk.get_mut(IVec2::new(99, 99)), Some(&mut None));
    assert!(chunk.get_mut(IVec2::new(100, 1)).is_none());
    assert!(chunk.get_mut(IVec2::new(1, -1)).is_none());

    chunk.insert(IVec2::new(1, 1), Some(CellRef::new(4)));
    {
        let slot = chunk.get_mut(IVec2::new(1, 1)).unwrap();
        assert_eq!(*slot, Some(CellRef::new(4)));
        *slot = Some(CellRef { material_id: 6, offset_x_bits: 0, offset_y_bits: 7 });
    }
    assert_eq!(chunk.get(IVec2::new(1, 1)), Some(CellRef { material_id: 6, offset_x_bits: 0, offset_y_bits: 7 }));
    assert_eq!(chunk.get(IVec2::new(2, 1)), None);
    assert_eq!(chunk.get(IVec2::new(1, 2)), None);
    assert_eq!(chunk.cell_count(), 1);

    // A write through the slot does not touch the counter.
    *chunk.get_mut(IVec2::new(5, 5)).unwrap() = Some(CellRef::new(1));
    assert_eq!(chunk.get(IVec2::new(5, 5)), Some(CellRef::new(1)));
    assert_eq!(chunk.cell_count(), 1);
}

#[test]
fn world_get_mut_hands_out_the_slot_of_a_resident_chunk() {
    let mut world = CellWorld::default();
    let g = IVec2::new(-7, 120);
    assert!(world.get_mut(g).is_none());
    assert_eq!(world.chunk_count(), 0);
    world.insert(g, Some(CellRef::new(2)));
    {
        let slot = world.get_mut(g).unwrap();
        assert_eq!(*slot, Some(CellRef::new(2)));
        *slot = Some(CellRef { material_id: 9, offset_x_bits: 0x3f00_0000, offset_y_bits: 0 });
    }
    assert_eq!(world.get(g), Some(CellRef { material_id: 9, offset_x_bits: 0x3f00_0000, offset_y_bits: 0 }));
    assert_eq!(world.total_occupancy(), 1);
    // An empty cell of the same chunk has a slot too; outside the chunk there is none.
    assert_eq!(world.get_mut(IVec2::new(-7, 121)), Some(&mut None));
    assert_eq!(world.get_mut(IVec2::new(-100, 199)), Some(&mut None));
    assert!(world.get_mut(IVec2::new(-101, 120)).is_none());
    assert!(world.get_mut(IVec2::new(-7, 200)).is_none());
    assert_eq!(world.chunk_count(), 1);
    assert_eq!(world.get(IVec2::new(-7, 121)), None);
}

#[test]
fn get_mut_chunk_hands_out_the_chunk() {
    let mut world = CellWorld::default();
    assert!(world.get_mut_chunk(IVec2::new(5, 5)).is_none());
    world.insert(IVec2::new(105, 5), Some(CellRef::new(1)));
    world.insert(IVec2::new(5, 5), Some(CellRef::new(2)));
    assert!(world.get_mut_chunk(IVec2::new(-1, 5)).is_none());
    {
        let chunk = world.get_mut_chunk(IVec2::new(199, 99)).unwrap();
        assert_eq!(chunk.cell_count(), 1);
        assert_eq!(chunk.get(IVec2::new(5, 5)), Some(CellRef::new(1)));
        chunk.get_mut(IVec2::new(5, 5)).unwrap().as_mut().unwrap().material_id = 8;
        chunk.insert(IVec2::new(6, 5), Some(CellRef::new(3)));
    }
    assert_eq!(world.get(IVec2::new(105, 5)), Some(CellRef::new(8)));
    assert_eq!(world.get(IVec2::new(106, 5)), Some(CellRef::new(3)));
    assert_eq!(world.get(IVec2::new(5, 5)), Some(CellRef::new(2)));
    assert_eq!(world.get(IVec2::new(6, 5)), None);
    assert_eq!(world.chunk_count(), 2);
    assert_eq!(world.chunks(), &vec![IVec2::new(0, 0), IVec2::new(1, 0)]);
}
