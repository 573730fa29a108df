use vstd::prelude::*;
use crate::events::{RemoveCellEvent, SpawnCellEvent};
use crate::math::{chunk_of, IVec2};
use crate::resources::cell_world::{CellRef, CellWorld};
use crate::systems::physics::{apply, committed, Intent, TickReport};

verus! {

/// What a click asks of the world.
#[derive(Clone, Copy, Debug, PartialEq, Eq, Structural)]
pub enum ClickRequest {
    Spawn(SpawnCellEvent),
    Remove(RemoveCellEvent),
}

/// The request that the mouse buttons make for the cell under the cursor. While the pointer
/// is over a panel there is none. The left button places the selected material, and asks
/// for nothing while no material is selected; the right button, when the left one is up,
/// clears the cell.
pub fn spawn_or_remove_cell_on_click(
    left_pressed: bool,
    right_pressed: bool,
    is_hovered: bool,
    selected: Option<usize>,
    cursor_cell: IVec2,
) -> (request: Option<ClickRequest>)
    ensures
        request == (if is_hovered {
            None
        } else if left_pressed {
            match selected {
                Some(cell_type) => Some(
                    ClickRequest::Spawn(SpawnCellEvent { pos: cursor_cell, cell_type }),
                ),
                None => None,
            }
        } else if right_pressed {
            Some(ClickRequest::Remove(RemoveCellEvent { pos: cursor_cell }))
        } else {
            None
        }),
{
    if left_pressed && !is_hovered {
        match selected {
            Some(cell_type) => Some(
                ClickRequest::Spawn(SpawnCellEvent { pos: cursor_cell, cell_type }),
            ),
            None => None,
        }
    } else if right_pressed && !is_hovered {
        Some(ClickRequest::Remove(RemoveCellEvent { pos: cursor_cell }))
    } else {
        None
    }
}

/// The spawn requests as intents, in the same order.
pub open spec fn spawn_intents(events: Seq<SpawnCellEvent>) -> Seq<Intent> {
    Seq::new(
        events.len(),
        |i: int| Intent::Spawn { at: events[i].pos, material_id: events[i].cell_type },
    )
}

/// Places the requested cells, first to last. A request for a cell that is taken is
/// dropped: nothing is overwritten.
pub fn spawn_cell(cell_world: &mut CellWorld, ev_spawn_cell: &Vec<SpawnCellEvent>) -> (report:
    TickReport)
    requires
        old(cell_world).wf(),
    ensures
        final(cell_world).wf(),
        committed(*old(cell_world), *final(cell_world), spawn_intents(ev_spawn_cell@), report),
        report.moved == 0,
{
    let ghost before = *cell_world;
    let ghost all = spawn_intents(ev_spawn_cell@);
    let mut report = TickReport { moved: 0, spawned: 0, dropped: 0 };
    let mut i: usize = 0;
    assert(all.subrange(0, 0) =~= Seq::<Intent>::empty());
    while i < ev_spawn_cell.len()
        invariant
            i <= ev_spawn_cell@.len(),
            all == spawn_intents(ev_spawn_cell@),
            cell_world.wf(),
            report.moved == 0,
            report.spawned + report.dropped == i,
            committed(before, *cell_world, all.subrange(0, i as int), report),
        decreases ev_spawn_cell@.len() - i,
    {
        let ev = ev_spawn_cell[i];
        let intent = Intent::Spawn { at: ev.pos, material_id: ev.cell_type };
        proof {
            assert(all.subrange(0, i + 1).drop_last() =~= all.subrange(0, i as int));
            assert(all.subrange(0, i + 1).last() == intent);
        }
        if apply(cell_world, intent) {
            report.spawned = report.spawned + 1;
        } else {
            report.dropped = report.dropped + 1;
        }
        i = i + 1;
    }
    proof {
        assert(all.subrange(0, i as int) =~= all);
    }
    report
}

/// The cells after the requested ones are cleared.
pub open spec fn remove_all(cells: Map<IVec2, CellRef>, events: Seq<RemoveCellEvent>) -> Map<
    IVec2,
    CellRef,
>
    decreases events.len(),
{
    if events.len() == 0 {
        cells
    } else {
        remove_all(cells, events.drop_last()).remove(events.last().pos)
    }
}

/// How many of the requests find a cell to clear.
pub open spec fn removed_count(cells: Map<IVec2, CellRef>, events: Seq<RemoveCellEvent>) -> nat
    decreases events.len(),
{
    if events.len() == 0 {
        0
    } else {
        removed_count(cells, events.drop_last()) + if remove_all(
            cells,
            events.drop_last(),
        ).contains_key(events.last().pos) {
            1nat
        } else {
            0nat
        }
    }
}

/// Clears the requested cells, first to last, and returns how many cells it cleared.
/// Clearing counts as a write: afterwards the region of every request has a chunk.
pub fn remove_cell(ev_remove_cell: &Vec<RemoveCellEvent>, world: &mut CellWorld) -> (removed: usize)
    requires
        old(world).wf(),
    ensures
        final(world).wf(),
        final(world)@ == remove_all(old(world)@, ev_remove_cell@),
        removed == removed_count(old(world)@, ev_remove_cell@),
        final(world)@.dom().len() + removed == old(world)@.dom().len(),
        forall|c: IVec2| #[trigger]
            final(world).resident(c) <==> old(world).resident(c) || exists|i: int|
                0 <= i < ev_remove_cell@.len() && chunk_of(#[trigger] ev_remove_cell@[i].pos) == c,
{
    let ghost before = *world;
    proof {
        world.lemma_wf();
    }
    let mut removed: usize = 0;
    let mut i: usize = 0;
    assert(ev_remove_cell@.subrange(0, 0) =~= Seq::<RemoveCellEvent>::empty());
    while i < ev_remove_cell.len()
        invariant
            i <= ev_remove_cell@.len(),
            world.wf(),
            removed <= i,
            world@ == remove_all(before@, ev_remove_cell@.subrange(0, i as int)),
            removed == removed_count(before@, ev_remove_cell@.subrange(0, i as int)),
            before@.dom().finite(),
            world@.dom().len() + removed == before@.dom().len(),
            forall|c: IVec2| #[trigger]
                world.resident(c) <==> before.resident(c) || exists|j: int|
                    0 <= j < i && chunk_of(#[trigger] ev_remove_cell@[j].pos) == c,
        decreases ev_remove_cell@.len() - i,
    {
        let ev = ev_remove_cell[i];
        proof {
            assert(ev_remove_cell@.subrange(0, i + 1).drop_last() =~= ev_remove_cell@.subrange(
                0,
                i as int,
            ));
            assert(ev_remove_cell@.subrange(0, i + 1).last() == ev);
        }
        let ghost mid = *world;
        proof {
            mid.lemma_wf();
        }
        if !world.is_cell_empty(ev.pos) {
            removed = removed + 1;
        }
        world.insert(ev.pos, None);
        proof {
            assert forall|c: IVec2| #[trigger]
                world.resident(c) <==> before.resident(c) || exists|j: int|
                    0 <= j < i + 1 && chunk_of(#[trigger] ev_remove_cell@[j].pos) == c by {
                if world.resident(c) {
                    if mid.resident(c) {
                        if !before.resident(c) {
                            let j = choose|j: int|
                                0 <= j < i && chunk_of(#[trigger] ev_remove_cell@[j].pos) == c;
                            assert(0 <= j < i + 1);
                        }
                    } else {
                        assert(chunk_of(ev_remove_cell@[i as int].pos) == c);
                    }
                }
                if exists|j: int| 0 <= j < i + 1 && chunk_of(#[trigger] ev_remove_cell@[j].pos) == c {
                    let j = choose|j: int|
                        0 <= j < i + 1 && chunk_of(#[trigger] ev_remove_cell@[j].pos) == c;
                    if j < i {
                        assert(mid.resident(c));
                    }
                }
            }
        }
        i = i + 1;
    }
    proof {
        assert(ev_remove_cell@.subrange(0, i as int) =~= ev_remove_cell@);
    }
    removed
}

} // verus!
