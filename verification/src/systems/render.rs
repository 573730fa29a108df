use vstd::prelude::*;
use crate::assets::{CellAssetView, Color};
use crate::enums::CHUNK_SIZE_LEN;
use crate::math::{index_to_local, lemma_index_round_trip, lemma_recombine_unique, recombine_pos, IVec2};
use crate::resources::cell_world::{CellRef, CellWorld, Chunk};
use crate::resources::CellAssets;
use crate::systems::physics::slot_pos;

verus! {

/// An occupied cell as a renderer draws it: where it is, what it holds, and its colour.
#[derive(Clone, Copy, Debug, PartialEq, Eq, Structural)]
pub struct CellInstance {
    /// Global coordinate of the cell.
    pub pos: IVec2,
    pub cell: CellRef,
    pub color: Color,
}

/// The colour of a cell whose material the registry does not know: opaque purple.
pub open spec fn unknown_color() -> Color {
    Color { r: 128, g: 0, b: 128, a: 255 }
}

/// The colour in which a cell of the given material is drawn.
pub open spec fn color_of(assets: Seq<CellAssetView>, material_id: usize) -> Color {
    if material_id < assets.len() {
        assets[material_id as int].color
    } else {
        unknown_color()
    }
}

/// What is drawn for the slot `index` of the chunk at `c`: nothing for an empty slot.
pub open spec fn slot_instance(
    cells: Map<IVec2, CellRef>,
    assets: Seq<CellAssetView>,
    c: IVec2,
    index: int,
) -> Seq<CellInstance> {
    match slot_pos(c, index) {
        Some(pos) => if cells.contains_key(pos) {
            seq![CellInstance { pos, cell: cells[pos], color: color_of(assets, cells[pos].material_id) }]
        } else {
            Seq::empty()
        },
        None => Seq::empty(),
    }
}

/// What is drawn for the first `n` slots of the chunk at `c`, row by row.
pub open spec fn chunk_instances(
    cells: Map<IVec2, CellRef>,
    assets: Seq<CellAssetView>,
    c: IVec2,
    n: nat,
) -> Seq<CellInstance>
    decreases n,
{
    if n == 0 {
        Seq::empty()
    } else {
        chunk_instances(cells, assets, c, (n - 1) as nat) + slot_instance(cells, assets, c, n - 1)
    }
}

/// Where no slot holds a cell, nothing is drawn.
proof fn lemma_chunk_instances_empty(
    cells: Map<IVec2, CellRef>,
    assets: Seq<CellAssetView>,
    c: IVec2,
    n: nat,
)
    requires
        forall|i: int| 0 <= i < n ==> (#[trigger] slot_pos(c, i) matches Some(pos) ==> !cells.contains_key(pos)),
    ensures
        chunk_instances(cells, assets, c, n) == Seq::<CellInstance>::empty(),
    decreases n,
{
    if n > 0 {
        lemma_chunk_instances_empty(cells, assets, c, (n - 1) as nat);
        assert(slot_pos(c, n - 1) matches Some(pos) ==> !cells.contains_key(pos));
    }
}

/// The occupied cells of the chunk at the chunk coordinate `chunk_pos`, row by row, each
/// with the colour of its material. A region without a chunk gives none.
pub fn render_chunk(world: &CellWorld, chunk_pos: IVec2, cell_assets: &CellAssets) -> (material_data:
    Vec<CellInstance>)
    requires
        world.wf(),
        cell_assets.wf(),
    ensures
        material_data@ == chunk_instances(world@, cell_assets@, chunk_pos, CHUNK_SIZE_LEN as nat),
{
    let mut material_data: Vec<CellInstance> = Vec::new();
    match world.chunk_at(chunk_pos) {
        Some(chunk) => {
            let mut index: usize = 0;
            while index < CHUNK_SIZE_LEN
                invariant
                    index <= CHUNK_SIZE_LEN,
                    world.wf(),
                    cell_assets.wf(),
                    world.resident(chunk_pos),
                    chunk.wf(),
                    chunk@ == world.chunk_slots(chunk_pos),
                    material_data@ == chunk_instances(world@, cell_assets@, chunk_pos, index as nat),
                decreases CHUNK_SIZE_LEN - index,
            {
                let local = Chunk::vec_index_to_ivec(index).unwrap();
                let ghost drawn = material_data@;
                match recombine_pos(chunk_pos, local) {
                    Some(pos) => {
                        proof {
                            lemma_recombine_unique(chunk_pos, local, pos);
                        }
                        match chunk.get(local) {
                            Some(cell) => {
                                let color = match cell_assets.get_color(cell.material_id) {
                                    Some(color) => color,
                                    None => Color { r: 128, g: 0, b: 128, a: 255 },
                                };
                                material_data.push(CellInstance { pos, cell, color });
                            },
                            None => {},
                        }
                    },
                    None => {},
                }
                proof {
                    assert(material_data@ =~= drawn + slot_instance(
                        world@,
                        cell_assets@,
                        chunk_pos,
                        index as int,
                    ));
                }
                index = index + 1;
            }
        },
        None => {
            proof {
                assert forall|i: int| 0 <= i < CHUNK_SIZE_LEN implies (#[trigger] slot_pos(chunk_pos, i) matches Some(
                    pos,
                ) ==> !world@.contains_key(pos)) by {
                    if slot_pos(chunk_pos, i) is Some {
                        let pos = slot_pos(chunk_pos, i).unwrap();
                        lemma_index_round_trip(index_to_local(i), i);
                        lemma_recombine_unique(chunk_pos, index_to_local(i), pos);
                    }
                }
                lemma_chunk_instances_empty(world@, cell_assets@, chunk_pos, CHUNK_SIZE_LEN as nat);
            }
        },
    }
    material_data
}

} // verus!
