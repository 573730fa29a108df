use vstd::prelude::*;
use crate::assets::CellAssetView;
use crate::enums::CHUNK_SIZE_LEN;
use crate::math::{
    ascending, chunk_of, coord_lt, index_of, index_to_local, lemma_index_round_trip,
    lemma_recombine_unique, lemma_round_trip, lemma_slots_distinct, local_of, recombine_pos, IVec2,
};
use crate::resources::cell_world::{CellRef, CellWorld, Chunk};
use crate::resources::CellAssets;
use crate::systems::physics::slot_pos;

verus! {

/// The occupied cells whose material the registry does not know.
pub open spec fn unresolved_cells(cells: Map<IVec2, CellRef>, assets: Seq<CellAssetView>) -> Set<
    IVec2,
> {
    Set::new(
        |pos: IVec2|
            cells.contains_key(pos) && CellAssets::behavior(assets, cells[pos].material_id) is None,
    )
}

/// Whether the slot `index` of the chunk at `c` holds a cell whose material the registry
/// does not know.
spec fn slot_unresolved(
    cells: Map<IVec2, CellRef>,
    assets: Seq<CellAssetView>,
    c: IVec2,
    index: int,
) -> bool {
    slot_pos(c, index) matches Some(pos) && cells.contains_key(pos) && CellAssets::behavior(
        assets,
        cells[pos].material_id,
    ) is None
}

/// How many of the first `n` slots of the chunk at `c` hold a cell of an unknown material.
spec fn chunk_unresolved(
    cells: Map<IVec2, CellRef>,
    assets: Seq<CellAssetView>,
    c: IVec2,
    n: nat,
) -> nat
    decreases n,
{
    if n == 0 {
        0
    } else {
        chunk_unresolved(cells, assets, c, (n - 1) as nat) + if slot_unresolved(
            cells,
            assets,
            c,
            n - 1,
        ) {
            1nat
        } else {
            0nat
        }
    }
}

/// How many cells of the first `k` chunks of `order` are of an unknown material.
spec fn world_unresolved(
    cells: Map<IVec2, CellRef>,
    assets: Seq<CellAssetView>,
    order: Seq<IVec2>,
    k: nat,
) -> nat
    decreases k,
{
    if k == 0 {
        0
    } else {
        world_unresolved(cells, assets, order, (k - 1) as nat) + chunk_unresolved(
            cells,
            assets,
            order[k - 1],
            CHUNK_SIZE_LEN as nat,
        )
    }
}

/// The unresolved cells among the first `n` slots of the chunk at `c`.
spec fn chunk_set(cells: Map<IVec2, CellRef>, assets: Seq<CellAssetView>, c: IVec2, n: nat) -> Set<
    IVec2,
> {
    Set::new(
        |pos: IVec2|
            unresolved_cells(cells, assets).contains(pos) && chunk_of(pos) == c && index_of(
                local_of(pos),
            ) < n,
    )
}

/// Whether `pos` lies in one of the first `k` chunks of `order`.
spec fn covered(order: Seq<IVec2>, k: nat, pos: IVec2) -> bool {
    exists|a: int| 0 <= a < k && #[trigger] order[a] == chunk_of(pos)
}

/// The unresolved cells in the first `k` chunks of `order`.
spec fn world_set(
    cells: Map<IVec2, CellRef>,
    assets: Seq<CellAssetView>,
    order: Seq<IVec2>,
    k: nat,
) -> Set<IVec2> {
    Set::new(|pos: IVec2| unresolved_cells(cells, assets).contains(pos) && covered(order, k, pos))
}

/// The count over the slots of a chunk is the number of unresolved cells in those slots.
proof fn lemma_chunk_set(cells: Map<IVec2, CellRef>, assets: Seq<CellAssetView>, c: IVec2, n: nat)
    requires
        n <= CHUNK_SIZE_LEN,
    ensures
        chunk_set(cells, assets, c, n).finite(),
        chunk_set(cells, assets, c, n).len() == chunk_unresolved(cells, assets, c, n),
    decreases n,
{
    if n == 0 {
        assert(chunk_set(cells, assets, c, n) =~= Set::<IVec2>::empty());
    } else {
        lemma_chunk_set(cells, assets, c, (n - 1) as nat);
        let earlier = chunk_set(cells, assets, c, (n - 1) as nat);
        let now = chunk_set(cells, assets, c, n);
        lemma_index_round_trip(index_to_local(n - 1), n - 1);
        assert forall|q: IVec2| now.contains(q) && !earlier.contains(q) implies slot_pos(c, n - 1) == Some(
            q,
        ) by {
            lemma_round_trip(q);
            lemma_index_round_trip(local_of(q), n - 1);
        }
        if slot_unresolved(cells, assets, c, n - 1) {
            let pos = slot_pos(c, n - 1).unwrap();
            lemma_recombine_unique(c, index_to_local(n - 1), pos);
            assert(now =~= earlier.insert(pos));
        } else {
            assert(now =~= earlier);
        }
    }
}

/// The count over the chunks is the number of unresolved cells in those chunks.
proof fn lemma_world_set(
    cells: Map<IVec2, CellRef>,
    assets: Seq<CellAssetView>,
    order: Seq<IVec2>,
    k: nat,
)
    requires
        k <= order.len(),
        ascending(order),
    ensures
        world_set(cells, assets, order, k).finite(),
        world_set(cells, assets, order, k).len() == world_unresolved(cells, assets, order, k),
    decreases k,
{
    if k == 0 {
        assert(world_set(cells, assets, order, k) =~= Set::<IVec2>::empty());
    } else {
        lemma_world_set(cells, assets, order, (k - 1) as nat);
        lemma_chunk_set(cells, assets, order[k - 1], CHUNK_SIZE_LEN as nat);
        let earlier = world_set(cells, assets, order, (k - 1) as nat);
        let added = chunk_set(cells, assets, order[k - 1], CHUNK_SIZE_LEN as nat);
        let now = world_set(cells, assets, order, k);
        assert forall|q: IVec2| now.contains(q) <==> earlier.contains(q) || added.contains(q) by {
            lemma_slots_distinct(q, q);
            if now.contains(q) {
                let a = choose|a: int| 0 <= a < k && #[trigger] order[a] == chunk_of(q);
                if a < k - 1 {
                    assert(covered(order, (k - 1) as nat, q));
                }
            }
            if earlier.contains(q) {
                let a = choose|a: int| 0 <= a < k - 1 && #[trigger] order[a] == chunk_of(q);
                assert(0 <= a < k && order[a] == chunk_of(q));
            }
            if added.contains(q) {
                assert(order[k - 1] == chunk_of(q));
            }
        }
        assert(now =~= earlier + added);
        assert(earlier.disjoint(added)) by {
            assert forall|q: IVec2| !(earlier.contains(q) && added.contains(q)) by {
                if earlier.contains(q) && added.contains(q) {
                    let a = choose|a: int| 0 <= a < k - 1 && #[trigger] order[a] == chunk_of(q);
                    assert(coord_lt(order[a], order[k - 1]));
                }
            }
        }
        vstd::set_lib::lemma_set_disjoint_lens(earlier, added);
    }
}

/// Number of occupied cells whose material the registry does not know. A tick leaves such
/// cells where they are, like static ones; a caller that wants to warn of them asks here.
pub fn count_unresolved(world: &CellWorld, assets: &CellAssets) -> (unknown: u128)
    requires
        world.wf(),
        assets.wf(),
    ensures
        unknown == unresolved_cells(world@, assets@).len(),
{
    let order = world.chunks();
    let mut unknown: u128 = 0;
    let mut k: usize = 0;
    proof {
        world.lemma_wf();
    }
    while k < order.len()
        invariant
            k <= order@.len(),
            world.wf(),
            assets.wf(),
            order@ == world.chunk_order(),
            unknown == world_unresolved(world@, assets@, order@, k as nat),
            unknown <= k * CHUNK_SIZE_LEN,
        decreases order@.len() - k,
    {
        let c = order[k];
        proof {
            world.lemma_wf();
            assert(order@.contains(c));
        }
        let chunk = world.chunk_at(c).unwrap();
        let mut here: u128 = 0;
        let mut index: usize = 0;
        while index < CHUNK_SIZE_LEN
            invariant
                index <= CHUNK_SIZE_LEN,
                world.wf(),
                assets.wf(),
                world.resident(c),
                chunk.wf(),
                chunk@ == world.chunk_slots(c),
                here == chunk_unresolved(world@, assets@, c, index as nat),
                here <= index,
            decreases CHUNK_SIZE_LEN - index,
        {
            let local = Chunk::vec_index_to_ivec(index).unwrap();
            match recombine_pos(c, local) {
                Some(pos) => {
                    proof {
                        lemma_recombine_unique(c, local, pos);
                    }
                    match chunk.get(local) {
                        Some(cell) => {
                            if assets.get_physics_behavior(cell.material_id).is_none() {
                                here = here + 1;
                            }
                        },
                        None => {},
                    }
                },
                None => {},
            }
            index = index + 1;
        }
        unknown = unknown + here;
        k = k + 1;
    }
    proof {
        world.lemma_wf();
        lemma_world_set(world@, assets@, order@, order@.len());
        assert(world_set(world@, assets@, order@, order@.len()) =~= unresolved_cells(world@, assets@)) by {
            assert forall|pos: IVec2| unresolved_cells(world@, assets@).contains(pos) implies world_set(
                world@,
                assets@,
                order@,
                order@.len(),
            ).contains(pos) by {
                assert(world.resident(chunk_of(pos)));
                assert(order@.contains(chunk_of(pos)));
                let a = choose|a: int| 0 <= a < order@.len() && order@[a] == chunk_of(pos);
                assert(covered(order@, order@.len(), pos)) by {
                    assert(0 <= a < order@.len() && order@[a] == chunk_of(pos));
                }
            }
        }
    }
    unknown
}

} // verus!
