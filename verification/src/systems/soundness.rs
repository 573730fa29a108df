use vstd::prelude::*;
use crate::assets::CellAssetView;
use crate::enums::CHUNK_SIZE_LEN;
use crate::math::{
    ascending, chunk_of, index_of, index_to_local, lemma_index_round_trip, lemma_recombine_unique,
    local_of, IVec2,
};
use crate::resources::cell_world::CellRef;
use crate::resources::CellAssets;
use crate::systems::physics::{
    apply_all, apply_intent, cell_intent, chunk_plan, intent_seq, is_step, lemma_cell_intent_step,
    slot_intent, slot_pos, takes_effect, world_plan, Intent,
};

verus! {

/// Whether an intent is read from the snapshot `cells` as the rules read it: a move starts
/// at an occupied cell and goes one step into an empty one, a spawn goes into an empty one.
pub open spec fn intent_sound(cells: Map<IVec2, CellRef>, intent: Intent) -> bool {
    match intent {
        Intent::Move { from, to } => cells.contains_key(from) && !cells.contains_key(to) && is_step(
            from,
            to,
        ),
        Intent::Spawn { at, material_id } => !cells.contains_key(at),
    }
}

/// Whether the intent is a move that starts at `pos`.
pub open spec fn moves_from(intent: Intent, pos: IVec2) -> bool {
    intent matches Intent::Move { from, to } && from == pos
}

/// Whether a list of intents is sound for the snapshot `cells`: every intent is, and no
/// cell is asked to move twice.
pub open spec fn plan_sound(cells: Map<IVec2, CellRef>, plan: Seq<Intent>) -> bool {
    &&& forall|i: int| 0 <= i < plan.len() ==> intent_sound(cells, #[trigger] plan[i])
    &&& forall|i: int, j: int, pos: IVec2|
        0 <= i < j < plan.len() && #[trigger] moves_from(plan[i], pos) ==> !(#[trigger] moves_from(
            plan[j],
            pos,
        ))
}

/// Whether the cell that `before` holds at `p` is accounted for in `after`: it is where it
/// was or, its place now empty, one step away in a place that was empty.
pub open spec fn kept(before: Map<IVec2, CellRef>, after: Map<IVec2, CellRef>, p: IVec2) -> bool {
    ||| after.contains_key(p) && after[p] == before[p]
    ||| !after.contains_key(p) && exists|q: IVec2|
        is_step(p, q) && !before.contains_key(q) && #[trigger] after.contains_key(q) && after[q]
            == before[p]
}

/// Whether the cell that `after` holds at `q`, a place that `before` leaves empty, is
/// accounted for: it came from one step away, leaving its place empty, or it is new.
pub open spec fn arrived(before: Map<IVec2, CellRef>, after: Map<IVec2, CellRef>, q: IVec2) -> bool {
    ||| exists|p: IVec2|
        is_step(p, q) && #[trigger] before.contains_key(p) && !after.contains_key(p) && after[q]
            == before[p]
    ||| exists|material_id: usize| after[q] == #[trigger] CellRef::spec_new(material_id)
}

/// Whether `after` follows from `before` without a cell lost, copied or carried further
/// than one step: every cell of `before` is kept, and every cell of `after` in a place
/// that was empty has arrived there.
pub open spec fn one_step_apart(before: Map<IVec2, CellRef>, after: Map<IVec2, CellRef>) -> bool {
    &&& forall|p: IVec2| before.contains_key(p) ==> #[trigger] kept(before, after, p)
    &&& forall|q: IVec2|
        after.contains_key(q) && !before.contains_key(q) ==> #[trigger] arrived(before, after, q)
}

/// The moves among the first `n` slots of a chunk start at those slots, and the intents
/// are sound.
proof fn lemma_chunk_plan_sound(
    cells: Map<IVec2, CellRef>,
    assets: Seq<CellAssetView>,
    c: IVec2,
    n: nat,
    choice: spec_fn(IVec2) -> bool,
)
    requires
        n <= CHUNK_SIZE_LEN,
    ensures
        plan_sound(cells, chunk_plan(cells, assets, c, n, choice)),
        forall|i: int, pos: IVec2|
            0 <= i < chunk_plan(cells, assets, c, n, choice).len() && #[trigger] moves_from(
                chunk_plan(cells, assets, c, n, choice)[i],
                pos,
            ) ==> chunk_of(pos) == c && 0 <= index_of(local_of(pos)) < n,
    decreases n,
{
    if n > 0 {
        let earlier = chunk_plan(cells, assets, c, (n - 1) as nat, choice);
        let plan = chunk_plan(cells, assets, c, n, choice);
        lemma_chunk_plan_sound(cells, assets, c, (n - 1) as nat, choice);
        let added = slot_intent(cells, assets, c, n - 1, choice);
        assert(plan == earlier + intent_seq(added));
        if added is Some {
            let pos = slot_pos(c, n - 1).unwrap();
            lemma_cell_intent_step(
                cells,
                CellAssets::behavior(assets, cells[pos].material_id),
                pos,
                choice(pos),
            );
            lemma_index_round_trip(index_to_local(n - 1), n - 1);
            lemma_recombine_unique(c, index_to_local(n - 1), pos);
            assert(plan.len() == earlier.len() + 1);
            assert(plan[earlier.len() as int] == added.unwrap());
            assert forall|i: int| 0 <= i < plan.len() implies intent_sound(cells, #[trigger] plan[i]) by {
                if i < earlier.len() {
                    assert(plan[i] == earlier[i]);
                }
            }
            assert forall|i: int, q: IVec2| 0 <= i < plan.len() && #[trigger] moves_from(plan[i], q) implies chunk_of(
                q,
            ) == c && 0 <= index_of(local_of(q)) < n by {
                if i < earlier.len() {
                    assert(plan[i] == earlier[i]);
                }
            }
            assert forall|i: int, j: int, q: IVec2|
                0 <= i < j < plan.len() && #[trigger] moves_from(plan[i], q) implies !(#[trigger] moves_from(
                plan[j],
                q,
            )) by {
                assert(plan[i] == earlier[i]);
                if j < earlier.len() {
                    assert(plan[j] == earlier[j]);
                }
            }
        } else {
            assert(plan =~= earlier);
        }
    }
}

/// The intents of a tick are sound for the snapshot they were read from, and the moves
/// among the first `k` chunks start in those chunks.
proof fn lemma_world_plan_sound(
    cells: Map<IVec2, CellRef>,
    assets: Seq<CellAssetView>,
    order: Seq<IVec2>,
    k: nat,
    choice: spec_fn(IVec2) -> bool,
)
    requires
        k <= order.len(),
        ascending(order),
    ensures
        plan_sound(cells, world_plan(cells, assets, order, k, choice)),
        forall|i: int, pos: IVec2|
            0 <= i < world_plan(cells, assets, order, k, choice).len() && #[trigger] moves_from(
                world_plan(cells, assets, order, k, choice)[i],
                pos,
            ) ==> exists|a: int| 0 <= a < k && #[trigger] order[a] == chunk_of(pos),
    decreases k,
{
    if k > 0 {
        let earlier = world_plan(cells, assets, order, (k - 1) as nat, choice);
        let c = order[k - 1];
        let added = chunk_plan(cells, assets, c, CHUNK_SIZE_LEN as nat, choice);
        let plan = world_plan(cells, assets, order, k, choice);
        lemma_world_plan_sound(cells, assets, order, (k - 1) as nat, choice);
        lemma_chunk_plan_sound(cells, assets, c, CHUNK_SIZE_LEN as nat, choice);
        assert(plan == earlier + added);
        assert forall|i: int| 0 <= i < plan.len() implies intent_sound(cells, #[trigger] plan[i]) by {
            if i < earlier.len() {
                assert(plan[i] == earlier[i]);
            } else {
                assert(plan[i] == added[i - earlier.len()]);
            }
        }
        assert forall|i: int, pos: IVec2| 0 <= i < plan.len() && #[trigger] moves_from(plan[i], pos) implies exists|
            a: int,
        | 0 <= a < k && #[trigger] order[a] == chunk_of(pos) by {
            if i < earlier.len() {
                assert(plan[i] == earlier[i]);
                let a = choose|a: int| 0 <= a < k - 1 && #[trigger] order[a] == chunk_of(pos);
                assert(0 <= a < k && order[a] == chunk_of(pos));
            } else {
                assert(plan[i] == added[i - earlier.len()]);
                assert(order[k - 1] == chunk_of(pos));
            }
        }
        assert forall|i: int, j: int, pos: IVec2|
            0 <= i < j < plan.len() && #[trigger] moves_from(plan[i], pos) implies !(#[trigger] moves_from(
            plan[j],
            pos,
        )) by {
            if j < earlier.len() {
                assert(plan[i] == earlier[i]);
                assert(plan[j] == earlier[j]);
            } else if i < earlier.len() {
                assert(plan[i] == earlier[i]);
                assert(plan[j] == added[j - earlier.len()]);
                let a = choose|a: int| 0 <= a < k - 1 && #[trigger] order[a] == chunk_of(pos);
                assert(crate::math::coord_lt(order[a], order[k - 1]));
            } else {
                assert(plan[i] == added[i - earlier.len()]);
                assert(plan[j] == added[j - earlier.len()]);
            }
        }
    }
}

/// Whether no intent of the list moves the cell at `p`.
pub open spec fn unmoved(plan: Seq<Intent>, p: IVec2) -> bool {
    forall|i: int| 0 <= i < plan.len() ==> !(#[trigger] moves_from(plan[i], p))
}

/// A move that takes effect keeps the cells one step apart from the snapshot, if the cell
/// it moves is still the snapshot's.
proof fn lemma_move_keeps_apart(
    cells: Map<IVec2, CellRef>,
    mid: Map<IVec2, CellRef>,
    from: IVec2,
    to: IVec2,
)
    requires
        one_step_apart(cells, mid),
        cells.contains_key(from),
        !cells.contains_key(to),
        is_step(from, to),
        mid.contains_key(from),
        mid[from] == cells[from],
        !mid.contains_key(to),
    ensures
        one_step_apart(cells, mid.remove(from).insert(to, cells[from])),
{
    let after = mid.remove(from).insert(to, cells[from]);
    assert forall|p: IVec2| cells.contains_key(p) implies #[trigger] kept(cells, after, p) by {
        assert(kept(cells, mid, p));
        if p == from {
            assert(after.contains_key(to));
        } else if !(mid.contains_key(p) && mid[p] == cells[p]) {
            let q = choose|q: IVec2|
                is_step(p, q) && !cells.contains_key(q) && #[trigger] mid.contains_key(q) && mid[q]
                    == cells[p];
            assert(after.contains_key(q) && after[q] == cells[p]);
        }
    }
    assert forall|q: IVec2| after.contains_key(q) && !cells.contains_key(q) implies #[trigger] arrived(
        cells,
        after,
        q,
    ) by {
        if q == to {
            assert(cells.contains_key(from) && !after.contains_key(from));
        } else {
            assert(mid.contains_key(q));
            assert(arrived(cells, mid, q));
            if exists|p: IVec2|
                is_step(p, q) && #[trigger] cells.contains_key(p) && !mid.contains_key(p) && mid[q]
                    == cells[p] {
                let p = choose|p: IVec2|
                    is_step(p, q) && #[trigger] cells.contains_key(p) && !mid.contains_key(p)
                        && mid[q] == cells[p];
                assert(cells.contains_key(p) && !after.contains_key(p));
            } else {
                let id = choose|material_id: usize|
                    mid[q] == #[trigger] CellRef::spec_new(material_id);
                assert(after[q] == CellRef::spec_new(id));
            }
        }
    }
}

/// A spawn that takes effect keeps the cells one step apart from the snapshot.
proof fn lemma_spawn_keeps_apart(
    cells: Map<IVec2, CellRef>,
    mid: Map<IVec2, CellRef>,
    at: IVec2,
    material_id: usize,
)
    requires
        one_step_apart(cells, mid),
        !cells.contains_key(at),
        !mid.contains_key(at),
    ensures
        one_step_apart(cells, mid.insert(at, CellRef::spec_new(material_id))),
{
    let after = mid.insert(at, CellRef::spec_new(material_id));
    assert forall|p: IVec2| cells.contains_key(p) implies #[trigger] kept(cells, after, p) by {
        assert(kept(cells, mid, p));
        if !(mid.contains_key(p) && mid[p] == cells[p]) {
            let q = choose|q: IVec2|
                is_step(p, q) && !cells.contains_key(q) && #[trigger] mid.contains_key(q) && mid[q]
                    == cells[p];
            assert(after.contains_key(q) && after[q] == cells[p]);
        }
    }
    assert forall|q: IVec2| after.contains_key(q) && !cells.contains_key(q) implies #[trigger] arrived(
        cells,
        after,
        q,
    ) by {
        if q == at {
            assert(after[q] == CellRef::spec_new(material_id));
        } else {
            assert(mid.contains_key(q));
            assert(arrived(cells, mid, q));
            if exists|p: IVec2|
                is_step(p, q) && #[trigger] cells.contains_key(p) && !mid.contains_key(p) && mid[q]
                    == cells[p] {
                let p = choose|p: IVec2|
                    is_step(p, q) && #[trigger] cells.contains_key(p) && !mid.contains_key(p)
                        && mid[q] == cells[p];
                assert(cells.contains_key(p) && !after.contains_key(p));
            } else {
                let id = choose|other: usize| mid[q] == #[trigger] CellRef::spec_new(other);
                assert(after[q] == CellRef::spec_new(id));
            }
        }
    }
}

/// Committing a sound list: a cell that no intent moves stays as it was, and the cells
/// after the commit are one step apart from the cells before it.
proof fn lemma_commit_sound(cells: Map<IVec2, CellRef>, plan: Seq<Intent>)
    requires
        plan_sound(cells, plan),
    ensures
        one_step_apart(cells, apply_all(cells, plan)),
        forall|p: IVec2|
            cells.contains_key(p) && #[trigger] unmoved(plan, p) ==> apply_all(
                cells,
                plan,
            ).contains_key(p) && apply_all(cells, plan)[p] == cells[p],
    decreases plan.len(),
{
    if plan.len() == 0 {
        let after = apply_all(cells, plan);
        assert forall|p: IVec2| cells.contains_key(p) implies #[trigger] kept(cells, after, p) by {}
    } else {
        let earlier = plan.drop_last();
        let last = plan.last();
        let mid = apply_all(cells, earlier);
        let after = apply_all(cells, plan);
        assert forall|i: int| 0 <= i < earlier.len() implies intent_sound(cells, #[trigger] earlier[i]) by {
            assert(earlier[i] == plan[i]);
        }
        assert forall|i: int, j: int, pos: IVec2|
            0 <= i < j < earlier.len() && #[trigger] moves_from(earlier[i], pos) implies !(
        #[trigger] moves_from(earlier[j], pos)) by {
            assert(earlier[i] == plan[i]);
            assert(earlier[j] == plan[j]);
        }
        lemma_commit_sound(cells, earlier);
        assert(intent_sound(cells, plan[plan.len() - 1]));
        assert(after == apply_intent(mid, last));
        assert forall|p: IVec2| cells.contains_key(p) && #[trigger] unmoved(plan, p) implies mid.contains_key(
            p,
        ) && mid[p] == cells[p] by {
            assert forall|i: int| 0 <= i < earlier.len() implies !(#[trigger] moves_from(earlier[i], p)) by {
                assert(earlier[i] == plan[i]);
            }
            assert(unmoved(earlier, p));
        }
        if takes_effect(mid, last) {
            match last {
                Intent::Move { from, to } => {
                    assert forall|i: int| 0 <= i < earlier.len() implies !(#[trigger] moves_from(
                        earlier[i],
                        from,
                    )) by {
                        assert(earlier[i] == plan[i]);
                        assert(moves_from(plan[plan.len() - 1], from));
                    }
                    assert(unmoved(earlier, from));
                    lemma_move_keeps_apart(cells, mid, from, to);
                    assert forall|p: IVec2| cells.contains_key(p) && #[trigger] unmoved(plan, p) implies after.contains_key(
                        p,
                    ) && after[p] == cells[p] by {
                        assert(!moves_from(plan[plan.len() - 1], p));
                    }
                },
                Intent::Spawn { at, material_id } => {
                    lemma_spawn_keeps_apart(cells, mid, at, material_id);
                },
            }
        }
    }
}

/// A tick produces no artifacts, whatever the tosses: every cell is afterwards where it
/// was or exactly one step away, in a place that was empty when the tick began; no cell is
/// lost or overwritten; and what stands in a place that was empty came from one step away
/// or is new.
pub proof fn lemma_tick_one_step(
    cells: Map<IVec2, CellRef>,
    assets: Seq<CellAssetView>,
    order: Seq<IVec2>,
    choice: spec_fn(IVec2) -> bool,
)
    requires
        ascending(order),
    ensures
        one_step_apart(
            cells,
            apply_all(cells, world_plan(cells, assets, order, order.len(), choice)),
        ),
{
    lemma_world_plan_sound(cells, assets, order, order.len(), choice);
    lemma_commit_sound(cells, world_plan(cells, assets, order, order.len(), choice));
}

} // verus!
