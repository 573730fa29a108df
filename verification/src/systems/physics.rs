use vstd::prelude::*;
use crate::assets::CellAssetView;
use crate::enums::{CellPhysicsType, CHUNK_SIZE_LEN};
use crate::math::{
    chunk_of, index_of, index_to_local, lemma_index_round_trip, lemma_recombine_unique, local_of,
    neighbor, neighbor_pos, recombine, recombine_pos, IVec2,
};
use crate::resources::cell_world::{CellRef, CellWorld, Chunk};
use crate::resources::CellAssets;

verus! {

/// `fastrand::Rng`, a seeded pseudorandom generator. Nothing inside it is visible here.
#[verifier::external_type_specification]
#[verifier::external_body]
pub struct ExRng(fastrand::Rng);

/// `fastrand::Rng::bool` draws one pseudorandom `bool` from the generator. Nothing is
/// claimed of the value.
pub assume_specification[ fastrand::Rng::bool ](rng: &mut fastrand::Rng) -> (toss: bool);

/// What a cell asks for in the read phase of a tick, applied in the commit phase.
#[derive(Clone, Copy, Debug, PartialEq, Eq, Structural)]
pub enum Intent {
    /// Move the cell at `from` to the empty cell `to`.
    Move { from: IVec2, to: IVec2 },
    /// Create a cell of the given material at the empty cell `at`.
    Spawn { at: IVec2, material_id: usize },
}

/// The cell `(dx, dy)` away from `pos`, if it is addressable and empty.
pub open spec fn free_at(cells: Map<IVec2, CellRef>, pos: IVec2, dx: int, dy: int) -> Option<IVec2> {
    match neighbor(pos, dx, dy) {
        Some(n) => if cells.contains_key(n) {
            None
        } else {
            Some(n)
        },
        None => None,
    }
}

/// Choice between two candidate cells: the one that is free; with both free, the first on
/// a `true` toss and the second on a `false` one.
pub open spec fn pick_free(first: Option<IVec2>, second: Option<IVec2>, toss: bool) -> Option<IVec2> {
    match (first, second) {
        (None, None) => None,
        (None, Some(b)) => Some(b),
        (Some(a), None) => Some(a),
        (Some(a), Some(b)) => if toss {
            Some(a)
        } else {
            Some(b)
        },
    }
}

/// Where sand at `pos` goes: straight down if that cell is free, else into a free cell
/// diagonally below, left or right by `pick_free`; nowhere if all three are taken.
pub open spec fn sand_target(cells: Map<IVec2, CellRef>, pos: IVec2, toss: bool) -> Option<IVec2> {
    if free_at(cells, pos, 0, -1) is Some {
        free_at(cells, pos, 0, -1)
    } else {
        pick_free(free_at(cells, pos, -1, -1), free_at(cells, pos, 1, -1), toss)
    }
}

/// Where fluid at `pos` goes: where sand would; if sand would stay, into a free cell beside
/// it, left or right by `pick_free`.
pub open spec fn fluid_target(cells: Map<IVec2, CellRef>, pos: IVec2, toss: bool) -> Option<IVec2> {
    if sand_target(cells, pos, toss) is Some {
        sand_target(cells, pos, toss)
    } else {
        pick_free(free_at(cells, pos, -1, 0), free_at(cells, pos, 1, 0), toss)
    }
}

/// The move of the cell at `from` to `target`, if there is a target.
pub open spec fn move_to(from: IVec2, target: Option<IVec2>) -> Option<Intent> {
    match target {
        Some(to) => Some(Intent::Move { from, to }),
        None => None,
    }
}

/// The intent of the occupied cell at `pos` whose material resolves to `behavior`
/// (`None`: the registry does not know the material), read from the snapshot `cells`.
pub open spec fn cell_intent(
    cells: Map<IVec2, CellRef>,
    behavior: Option<CellPhysicsType>,
    pos: IVec2,
    toss: bool,
) -> Option<Intent> {
    match behavior {
        Some(CellPhysicsType::Sand) => move_to(pos, sand_target(cells, pos, toss)),
        Some(CellPhysicsType::Fluid) => move_to(pos, fluid_target(cells, pos, toss)),
        Some(CellPhysicsType::Tap(material_id)) => match free_at(cells, pos, 0, -1) {
            Some(at) => Some(Intent::Spawn { at, material_id }),
            None => None,
        },
        Some(CellPhysicsType::Static) => None,
        None => None,
    }
}

/// Whether `to` is one of the five cells that a cell at `from` can reach in one tick:
/// beside it or in the row below, at most one column away.
pub open spec fn is_step(from: IVec2, to: IVec2) -> bool {
    &&& to != from
    &&& -1 <= to.x - from.x <= 1
    &&& -1 <= to.y - from.y <= 0
}

/// What a rule asks for is one step into a cell that the snapshot shows empty: a move of
/// the cell itself, or for a tap a cell of its material directly below.
pub proof fn lemma_cell_intent_step(
    cells: Map<IVec2, CellRef>,
    behavior: Option<CellPhysicsType>,
    pos: IVec2,
    toss: bool,
)
    ensures
        match cell_intent(cells, behavior, pos, toss) {
            Some(Intent::Move { from, to }) => from == pos && is_step(pos, to) && !cells.contains_key(
                to,
            ) && (behavior == Some(CellPhysicsType::Sand) || behavior == Some(
                CellPhysicsType::Fluid,
            )),
            Some(Intent::Spawn { at, material_id }) => neighbor(pos, 0, -1) == Some(at)
                && !cells.contains_key(at) && behavior == Some(CellPhysicsType::Tap(material_id)),
            None => true,
        },
{
}

/// An optional intent as a list of none or one.
pub open spec fn intent_seq(intent: Option<Intent>) -> Seq<Intent> {
    match intent {
        Some(i) => seq![i],
        None => Seq::empty(),
    }
}

/// The cell `offset` away from `pos`, if it is addressable and empty in `world`.
pub fn get_is_none_by_offset(world: &CellWorld, pos: IVec2, offset: IVec2) -> (free: Option<IVec2>)
    requires
        world.wf(),
    ensures
        free == free_at(world@, pos, offset.x as int, offset.y as int),
{
    match neighbor_pos(pos, offset) {
        Some(n) => if world.is_cell_empty(n) {
            Some(n)
        } else {
            None
        },
        None => None,
    }
}

/// The choice between two candidate cells for a given toss.
pub fn pick_move(first: Option<IVec2>, second: Option<IVec2>, toss: bool) -> (target: Option<IVec2>)
    ensures
        target == pick_free(first, second, toss),
{
    match (first, second) {
        (None, None) => None,
        (None, Some(b)) => Some(b),
        (Some(a), None) => Some(a),
        (Some(a), Some(b)) => if toss {
            Some(a)
        } else {
            Some(b)
        },
    }
}

/// Queues the move of the cell at `pos` into one of two candidate cells, if either is free.
/// The generator is asked only when both are. Returns the toss that settled it, `false`
/// where none was drawn.
pub fn move_if_none(
    to_swap_list: &mut Vec<Intent>,
    is_none: Option<IVec2>,
    is_none1: Option<IVec2>,
    pos: IVec2,
    rng: &mut fastrand::Rng,
) -> (toss: bool)
    ensures
        final(to_swap_list)@ == old(to_swap_list)@ + intent_seq(
            move_to(pos, pick_free(is_none, is_none1, toss)),
        ),
        is_none is None || is_none1 is None ==> !toss,
{
    let toss = if is_none.is_some() && is_none1.is_some() {
        rng.bool()
    } else {
        false
    };
    match pick_move(is_none, is_none1, toss) {
        Some(to) => {
            to_swap_list.push(Intent::Move { from: pos, to });
        },
        None => {},
    }
    toss
}

/// The read phase for a sand cell at `pos`: queues its move, if it has one. Returns the
/// toss that settled a tie between the two diagonals, `false` where none was drawn.
pub fn sand_physics(
    pos: IVec2,
    world: &CellWorld,
    to_swap_list: &mut Vec<Intent>,
    rng: &mut fastrand::Rng,
) -> (toss: bool)
    requires
        world.wf(),
    ensures
        final(to_swap_list)@ == old(to_swap_list)@ + intent_seq(
            cell_intent(world@, Some(CellPhysicsType::Sand), pos, toss),
        ),
{
    match get_is_none_by_offset(world, pos, IVec2 { x: 0, y: -1 }) {
        Some(below) => {
            to_swap_list.push(Intent::Move { from: pos, to: below });
            false
        },
        None => {
            let is_none_below_left = get_is_none_by_offset(world, pos, IVec2 { x: -1, y: -1 });
            let is_none_below_right = get_is_none_by_offset(world, pos, IVec2 { x: 1, y: -1 });
            move_if_none(to_swap_list, is_none_below_left, is_none_below_right, pos, rng)
        },
    }
}

/// The read phase for a fluid cell at `pos`: queues its move, if it has one. Returns the
/// toss that settled a tie, between the two diagonals or the two sides, `false` where none
/// was drawn.
pub fn fluid_physics(
    pos: IVec2,
    world: &CellWorld,
    to_swap_list: &mut Vec<Intent>,
    rng: &mut fastrand::Rng,
) -> (toss: bool)
    requires
        world.wf(),
    ensures
        final(to_swap_list)@ == old(to_swap_list)@ + intent_seq(
            cell_intent(world@, Some(CellPhysicsType::Fluid), pos, toss),
        ),
{
    match get_is_none_by_offset(world, pos, IVec2 { x: 0, y: -1 }) {
        Some(below) => {
            to_swap_list.push(Intent::Move { from: pos, to: below });
            false
        },
        None => {
            let is_none_below_left = get_is_none_by_offset(world, pos, IVec2 { x: -1, y: -1 });
            let is_none_below_right = get_is_none_by_offset(world, pos, IVec2 { x: 1, y: -1 });
            if is_none_below_left.is_some() || is_none_below_right.is_some() {
                move_if_none(to_swap_list, is_none_below_left, is_none_below_right, pos, rng)
            } else {
                let is_none_left = get_is_none_by_offset(world, pos, IVec2 { x: -1, y: 0 });
                let is_none_right = get_is_none_by_offset(world, pos, IVec2 { x: 1, y: 0 });
                move_if_none(to_swap_list, is_none_left, is_none_right, pos, rng)
            }
        },
    }
}

/// The read phase for a tap at `pos`: queues a cell of material `to_spawn` for the cell
/// below, if that cell is empty.
pub fn tap_physics(to_insert_list: &mut Vec<Intent>, pos: IVec2, world: &CellWorld, to_spawn: usize)
    requires
        world.wf(),
    ensures
        final(to_insert_list)@ == old(to_insert_list)@ + intent_seq(
            cell_intent(world@, Some(CellPhysicsType::Tap(to_spawn)), pos, false),
        ),
{
    match get_is_none_by_offset(world, pos, IVec2 { x: 0, y: -1 }) {
        Some(below) => {
            to_insert_list.push(Intent::Spawn { at: below, material_id: to_spawn });
        },
        None => {},
    }
}

/// The global coordinate of the slot `index` of the chunk at `c`, where it is addressable.
pub open spec fn slot_pos(c: IVec2, index: int) -> Option<IVec2> {
    recombine(c, index_to_local(index))
}

/// The intent that the read phase computes for the slot `index` of the chunk at `c`: none
/// for an empty slot, else that of the cell's material, with the toss `choice` gives for
/// the cell.
pub open spec fn slot_intent(
    cells: Map<IVec2, CellRef>,
    assets: Seq<CellAssetView>,
    c: IVec2,
    index: int,
    choice: spec_fn(IVec2) -> bool,
) -> Option<Intent> {
    match slot_pos(c, index) {
        Some(pos) => if cells.contains_key(pos) {
            cell_intent(
                cells,
                CellAssets::behavior(assets, cells[pos].material_id),
                pos,
                choice(pos),
            )
        } else {
            None
        },
        None => None,
    }
}

/// The intents of the first `n` slots of the chunk at `c`, by ascending slot number.
pub open spec fn chunk_plan(
    cells: Map<IVec2, CellRef>,
    assets: Seq<CellAssetView>,
    c: IVec2,
    n: nat,
    choice: spec_fn(IVec2) -> bool,
) -> Seq<Intent>
    decreases n,
{
    if n == 0 {
        Seq::empty()
    } else {
        chunk_plan(cells, assets, c, (n - 1) as nat, choice) + intent_seq(
            slot_intent(cells, assets, c, n - 1, choice),
        )
    }
}

/// The intents of the first `k` chunks of `order`, chunk after chunk.
pub open spec fn world_plan(
    cells: Map<IVec2, CellRef>,
    assets: Seq<CellAssetView>,
    order: Seq<IVec2>,
    k: nat,
    choice: spec_fn(IVec2) -> bool,
) -> Seq<Intent>
    decreases k,
{
    if k == 0 {
        Seq::empty()
    } else {
        world_plan(cells, assets, order, (k - 1) as nat, choice) + chunk_plan(
            cells,
            assets,
            order[k - 1],
            CHUNK_SIZE_LEN as nat,
            choice,
        )
    }
}

/// The plan of a chunk depends on the tosses for the cells of that chunk only.
pub proof fn lemma_chunk_plan_frame(
    cells: Map<IVec2, CellRef>,
    assets: Seq<CellAssetView>,
    c: IVec2,
    n: nat,
    first: spec_fn(IVec2) -> bool,
    second: spec_fn(IVec2) -> bool,
)
    requires
        n <= CHUNK_SIZE_LEN,
        forall|i: int| 0 <= i < n ==> (#[trigger] slot_pos(c, i) matches Some(pos) ==> first(pos) == second(pos)),
    ensures
        chunk_plan(cells, assets, c, n, first) == chunk_plan(cells, assets, c, n, second),
    decreases n,
{
    if n > 0 {
        lemma_chunk_plan_frame(cells, assets, c, (n - 1) as nat, first, second);
        assert(slot_pos(c, n - 1) matches Some(pos) ==> first(pos) == second(pos));
    }
}

/// The plan of a run of chunks depends on the tosses for the cells of those chunks only.
pub proof fn lemma_world_plan_frame(
    cells: Map<IVec2, CellRef>,
    assets: Seq<CellAssetView>,
    order: Seq<IVec2>,
    k: nat,
    first: spec_fn(IVec2) -> bool,
    second: spec_fn(IVec2) -> bool,
)
    requires
        k <= order.len(),
        forall|pos: IVec2, i: int| 0 <= i < k && chunk_of(pos) == #[trigger] order[i] ==> #[trigger] first(pos) == second(pos),
    ensures
        world_plan(cells, assets, order, k, first) == world_plan(cells, assets, order, k, second),
    decreases k,
{
    if k > 0 {
        lemma_world_plan_frame(cells, assets, order, (k - 1) as nat, first, second);
        let c = order[k - 1];
        assert forall|i: int| 0 <= i < CHUNK_SIZE_LEN implies (#[trigger] slot_pos(c, i) matches Some(pos)
            ==> first(pos) == second(pos)) by {
            if slot_pos(c, i) is Some {
                let pos = slot_pos(c, i).unwrap();
                lemma_index_round_trip(index_to_local(i), i);
                lemma_recombine_unique(c, index_to_local(i), pos);
                assert(chunk_of(pos) == order[k - 1]);
            }
        }
        lemma_chunk_plan_frame(cells, assets, c, CHUNK_SIZE_LEN as nat, first, second);
    }
}

/// The tosses `choice` with the one for `pos` replaced by `toss`.
pub open spec fn with_toss(choice: spec_fn(IVec2) -> bool, pos: IVec2, toss: bool) -> spec_fn(
    IVec2,
) -> bool {
    |q: IVec2| if q == pos { toss } else { choice(q) }
}

/// The read phase for the occupied cell at `pos`: resolves the material and queues what its
/// behaviour asks for. A material that the registry does not know is left alone, like a
/// static one. Returns the toss that settled a tie, `false` where none was drawn.
fn scan_cell(
    world: &CellWorld,
    assets: &CellAssets,
    pos: IVec2,
    cell: CellRef,
    intents: &mut Vec<Intent>,
    rng: &mut fastrand::Rng,
) -> (toss: bool)
    requires
        world.wf(),
        assets.wf(),
    ensures
        final(intents)@ == old(intents)@ + intent_seq(
            cell_intent(world@, CellAssets::behavior(assets@, cell.material_id), pos, toss),
        ),
{
    match assets.get_physics_behavior(cell.material_id) {
        Some(CellPhysicsType::Sand) => sand_physics(pos, world, intents, rng),
        Some(CellPhysicsType::Fluid) => fluid_physics(pos, world, intents, rng),
        Some(CellPhysicsType::Tap(to_spawn)) => {
            tap_physics(intents, pos, world, to_spawn);
            false
        },
        Some(CellPhysicsType::Static) => {
            assert(intents@ + Seq::<Intent>::empty() =~= intents@);
            false
        },
        None => {
            assert(intents@ + Seq::<Intent>::empty() =~= intents@);
            false
        },
    }
}

/// The read phase for the chunk at `c`: scans its slots by ascending slot number. `choice`
/// holds the tosses drawn so far; the result adds those drawn for this chunk.
fn scan_chunk(
    world: &CellWorld,
    assets: &CellAssets,
    c: IVec2,
    intents: &mut Vec<Intent>,
    rng: &mut fastrand::Rng,
    Ghost(choice): Ghost<spec_fn(IVec2) -> bool>,
) -> (after: Ghost<spec_fn(IVec2) -> bool>)
    requires
        world.wf(),
        assets.wf(),
        world.resident(c),
    ensures
        final(intents)@ == old(intents)@ + chunk_plan(
            world@,
            assets@,
            c,
            CHUNK_SIZE_LEN as nat,
            after@,
        ),
        forall|pos: IVec2| chunk_of(pos) != c ==> #[trigger] after@(pos) == choice(pos),
{
    let ghost start = intents@;
    let ghost mut cur = choice;
    let chunk = world.chunk_at(c).unwrap();
    let mut index: usize = 0;
    assert(start + Seq::<Intent>::empty() =~= start);
    while index < CHUNK_SIZE_LEN
        invariant
            index <= CHUNK_SIZE_LEN,
            world.wf(),
            assets.wf(),
            world.resident(c),
            chunk.wf(),
            chunk@ == world.chunk_slots(c),
            intents@ == start + chunk_plan(world@, assets@, c, index as nat, cur),
            forall|pos: IVec2| chunk_of(pos) != c ==> #[trigger] cur(pos) == choice(pos),
        decreases CHUNK_SIZE_LEN - index,
    {
        let ghost scanned = chunk_plan(world@, assets@, c, index as nat, cur);
        let local = Chunk::vec_index_to_ivec(index).unwrap();
        let ghost mut next = cur;
        match recombine_pos(c, local) {
            Some(pos) => {
                proof {
                    lemma_recombine_unique(c, local, pos);
                }
                match chunk.get(local) {
                    Some(cell) => {
                        assert(world@.contains_key(pos) && world@[pos] == cell);
                        let toss = scan_cell(world, assets, pos, cell, intents, rng);
                        proof {
                            next = with_toss(cur, pos, toss);
                            assert forall|i: int| 0 <= i < index implies (#[trigger] slot_pos(c, i) matches Some(q)
                                ==> cur(q) == next(q)) by {
                                if slot_pos(c, i) is Some {
                                    let q = slot_pos(c, i).unwrap();
                                    lemma_index_round_trip(index_to_local(i), i);
                                    lemma_recombine_unique(c, index_to_local(i), q);
                                }
                            }
                            lemma_chunk_plan_frame(world@, assets@, c, index as nat, cur, next);
                        }
                    },
                    None => {
                        assert(!world@.contains_key(pos));
                    },
                }
            },
            None => {},
        }
        proof {
            assert(intents@ == start + scanned + intent_seq(
                slot_intent(world@, assets@, c, index as int, next),
            )) by {
                assert(start + scanned + Seq::<Intent>::empty() =~= start + scanned);
            }
            assert(start + scanned + intent_seq(slot_intent(world@, assets@, c, index as int, next))
                =~= start + (scanned + intent_seq(
                slot_intent(world@, assets@, c, index as int, next),
            )));
            cur = next;
        }
        index = index + 1;
    }
    Ghost(cur)
}

/// The read phase of a tick: the intents of all occupied cells, read from the world as it
/// stands and without changing it. Chunks are visited in ascending order of their
/// coordinate, slots by ascending slot number; the generator is asked once for every tie
/// between two free cells.
pub fn plan_tick(world: &CellWorld, assets: &CellAssets, rng: &mut fastrand::Rng) -> (intents: Vec<
    Intent,
>)
    requires
        world.wf(),
        assets.wf(),
    ensures
        exists|choice: spec_fn(IVec2) -> bool|
            intents@ == #[trigger] world_plan(
                world@,
                assets@,
                world.chunk_order(),
                world.chunk_order().len(),
                choice,
            ),
{
    let mut intents: Vec<Intent> = Vec::new();
    let ghost mut cur: spec_fn(IVec2) -> bool = |pos: IVec2| false;
    let order = world.chunks();
    let mut k: usize = 0;
    proof {
        world.lemma_wf();
    }
    while k < order.len()
        invariant
            k <= order@.len(),
            world.wf(),
            assets.wf(),
            order@ == world.chunk_order(),
            intents@ == world_plan(world@, assets@, order@, k as nat, cur),
        decreases order@.len() - k,
    {
        let c = order[k];
        proof {
            world.lemma_wf();
            assert(order@.contains(c));
        }
        let ghost before = cur;
        let after = scan_chunk(world, assets, c, &mut intents, rng, Ghost(cur));
        proof {
            cur = after@;
            assert forall|pos: IVec2, i: int| 0 <= i < k && chunk_of(pos) == #[trigger] order@[i] implies #[trigger] before(
                pos,
            ) == cur(pos) by {
                assert(crate::math::coord_lt(order@[i], order@[k as int]));
            }
            lemma_world_plan_frame(world@, assets@, order@, k as nat, before, cur);
        }
        k = k + 1;
    }
    intents
}

/// Whether an intent still applies to `cells` at commit time: the destination is empty,
/// and for a move the source still holds a cell.
pub open spec fn takes_effect(cells: Map<IVec2, CellRef>, intent: Intent) -> bool {
    match intent {
        Intent::Move { from, to } => cells.contains_key(from) && !cells.contains_key(to),
        Intent::Spawn { at, material_id } => !cells.contains_key(at),
    }
}

/// The cell that an intent fills.
pub open spec fn destination(intent: Intent) -> IVec2 {
    match intent {
        Intent::Move { from, to } => to,
        Intent::Spawn { at, material_id } => at,
    }
}

/// The cells after one intent is committed. A move empties the source and puts its cell at
/// the destination; a spawn puts a new cell there. An intent that no longer applies changes
/// nothing.
pub open spec fn apply_intent(cells: Map<IVec2, CellRef>, intent: Intent) -> Map<IVec2, CellRef> {
    if takes_effect(cells, intent) {
        match intent {
            Intent::Move { from, to } => cells.remove(from).insert(to, cells[from]),
            Intent::Spawn { at, material_id } => cells.insert(at, CellRef::spec_new(material_id)),
        }
    } else {
        cells
    }
}

/// The cells after the intents are committed one after the other, first to last.
pub open spec fn apply_all(cells: Map<IVec2, CellRef>, intents: Seq<Intent>) -> Map<IVec2, CellRef>
    decreases intents.len(),
{
    if intents.len() == 0 {
        cells
    } else {
        apply_intent(apply_all(cells, intents.drop_last()), intents.last())
    }
}

/// What committing a list of intents amounts to.
pub struct Tally {
    /// Moves that took effect.
    pub moved: nat,
    /// Spawns that took effect.
    pub spawned: nat,
    /// Intents that found their destination taken, or their source gone.
    pub dropped: nat,
    /// Chunk coordinates of the destinations that were filled.
    pub touched: Set<IVec2>,
}

/// The tally of committing `intents` to `cells`, first to last.
pub open spec fn tally(cells: Map<IVec2, CellRef>, intents: Seq<Intent>) -> Tally
    decreases intents.len(),
{
    if intents.len() == 0 {
        Tally { moved: 0, spawned: 0, dropped: 0, touched: Set::empty() }
    } else {
        let earlier = tally(cells, intents.drop_last());
        let last = intents.last();
        if !takes_effect(apply_all(cells, intents.drop_last()), last) {
            Tally { dropped: earlier.dropped + 1, ..earlier }
        } else if last is Move {
            Tally {
                moved: earlier.moved + 1,
                touched: earlier.touched.insert(chunk_of(destination(last))),
                ..earlier
            }
        } else {
            Tally {
                spawned: earlier.spawned + 1,
                touched: earlier.touched.insert(chunk_of(destination(last))),
                ..earlier
            }
        }
    }
}

/// What a tick did, in numbers.
#[derive(Clone, Copy, Debug, PartialEq, Eq, Structural)]
pub struct TickReport {
    /// Cells that moved.
    pub moved: usize,
    /// Cells that taps created.
    pub spawned: usize,
    /// Intents dropped at commit because an earlier one had filled their destination.
    pub dropped: usize,
}

/// Whether `after` and `report` are what committing `intents` to `before` gives: the cells,
/// the resident chunks and the numbers reported.
pub open spec fn committed(
    before: CellWorld,
    after: CellWorld,
    intents: Seq<Intent>,
    report: TickReport,
) -> bool {
    let sum = tally(before@, intents);
    &&& after@ == apply_all(before@, intents)
    &&& report.moved == sum.moved
    &&& report.spawned == sum.spawned
    &&& report.dropped == sum.dropped
    &&& forall|c: IVec2| #[trigger] after.resident(c) <==> before.resident(c) || sum.touched.contains(c)
}

/// Commits one intent, if it still applies, and says whether it did.
pub fn apply(world: &mut CellWorld, intent: Intent) -> (applied: bool)
    requires
        old(world).wf(),
    ensures
        final(world).wf(),
        applied == takes_effect(old(world)@, intent),
        final(world)@ == apply_intent(old(world)@, intent),
        forall|c: IVec2| #[trigger]
            final(world).resident(c) <==> old(world).resident(c) || (applied && c == chunk_of(
                destination(intent),
            )),
{
    match intent {
        Intent::Move { from, to } => {
            match world.get(from) {
                Some(cell) => {
                    if world.is_cell_empty(to) {
                        world.insert(from, None);
                        world.insert(to, Some(cell));
                        true
                    } else {
                        false
                    }
                },
                None => false,
            }
        },
        Intent::Spawn { at, material_id } => {
            if world.is_cell_empty(at) {
                world.insert(at, Some(CellRef::new(material_id)));
                true
            } else {
                false
            }
        },
    }
}

/// The commit phase of a tick: applies the intents in the order of the list. An intent
/// whose destination was filled by an earlier one is dropped, so no cell is overwritten.
pub fn commit(world: &mut CellWorld, intents: &Vec<Intent>) -> (report: TickReport)
    requires
        old(world).wf(),
    ensures
        final(world).wf(),
        committed(*old(world), *final(world), intents@, report),
{
    let ghost before = *world;
    let mut report = TickReport { moved: 0, spawned: 0, dropped: 0 };
    let mut i: usize = 0;
    assert(intents@.subrange(0, 0) =~= Seq::<Intent>::empty());
    while i < intents.len()
        invariant
            i <= intents@.len(),
            world.wf(),
            report.moved + report.spawned + report.dropped == i,
            committed(before, *world, intents@.subrange(0, i as int), report),
        decreases intents@.len() - i,
    {
        let intent = intents[i];
        proof {
            assert(intents@.subrange(0, i + 1).drop_last() =~= intents@.subrange(0, i as int));
            assert(intents@.subrange(0, i + 1).last() == intent);
        }
        let applied = apply(world, intent);
        if !applied {
            report.dropped = report.dropped + 1;
        } else {
            match intent {
                Intent::Move { from, to } => {
                    report.moved = report.moved + 1;
                },
                Intent::Spawn { at, material_id } => {
                    report.spawned = report.spawned + 1;
                },
            }
        }
        i = i + 1;
    }
    proof {
        assert(intents@.subrange(0, i as int) =~= intents@);
    }
    report
}

/// One tick: reads the intents of all cells from the world as it stands, then commits
/// them in the order they were read.
pub fn physics(world: &mut CellWorld, assets: &CellAssets, rng: &mut fastrand::Rng) -> (report:
    TickReport)
    requires
        old(world).wf(),
        assets.wf(),
    ensures
        final(world).wf(),
        exists|choice: spec_fn(IVec2) -> bool|
            committed(
                *old(world),
                *final(world),
                #[trigger] world_plan(
                    old(world)@,
                    assets@,
                    old(world).chunk_order(),
                    old(world).chunk_order().len(),
                    choice,
                ),
                report,
            ),
{
    let intents = plan_tick(world, assets, rng);
    commit(world, &intents)
}

/// Whether no material of the registry is a tap.
pub open spec fn no_taps(assets: Seq<CellAssetView>) -> bool {
    forall|id: int| 0 <= id < assets.len() ==> !((#[trigger] assets[id]).physics_behavior is Tap)
}

/// Whether no occupied cell is a tap: none has a material that resolves to one.
pub open spec fn no_tap_cells(cells: Map<IVec2, CellRef>, assets: Seq<CellAssetView>) -> bool {
    forall|pos: IVec2| #[trigger]
        cells.contains_key(pos) ==> !(CellAssets::behavior(assets, cells[pos].material_id) matches Some(
            behavior,
        ) && behavior is Tap)
}

/// A registry without taps makes no cell a tap.
pub proof fn lemma_no_taps(cells: Map<IVec2, CellRef>, assets: Seq<CellAssetView>)
    requires
        no_taps(assets),
    ensures
        no_tap_cells(cells, assets),
{
    assert forall|pos: IVec2| #[trigger] cells.contains_key(pos) implies !(CellAssets::behavior(
        assets,
        cells[pos].material_id,
    ) matches Some(behavior) && behavior is Tap) by {
        let id = cells[pos].material_id;
        if id < assets.len() {
            assert(!(assets[id as int].physics_behavior is Tap));
        }
    }
}

/// Where no cell is a tap, the intents of a chunk are moves.
pub proof fn lemma_chunk_plan_moves(
    cells: Map<IVec2, CellRef>,
    assets: Seq<CellAssetView>,
    c: IVec2,
    n: nat,
    choice: spec_fn(IVec2) -> bool,
)
    requires
        no_tap_cells(cells, assets),
    ensures
        forall|i: int|
            0 <= i < chunk_plan(cells, assets, c, n, choice).len() ==> (#[trigger] chunk_plan(
                cells,
                assets,
                c,
                n,
                choice,
            )[i]) is Move,
    decreases n,
{
    if n > 0 {
        lemma_chunk_plan_moves(cells, assets, c, (n - 1) as nat, choice);
    }
}

/// Where no cell is a tap, the intents of a tick are moves.
pub proof fn lemma_world_plan_moves(
    cells: Map<IVec2, CellRef>,
    assets: Seq<CellAssetView>,
    order: Seq<IVec2>,
    k: nat,
    choice: spec_fn(IVec2) -> bool,
)
    requires
        no_tap_cells(cells, assets),
    ensures
        forall|i: int|
            0 <= i < world_plan(cells, assets, order, k, choice).len() ==> (#[trigger] world_plan(
                cells,
                assets,
                order,
                k,
                choice,
            )[i]) is Move,
    decreases k,
{
    if k > 0 {
        lemma_world_plan_moves(cells, assets, order, (k - 1) as nat, choice);
        lemma_chunk_plan_moves(cells, assets, order[k - 1], CHUNK_SIZE_LEN as nat, choice);
    }
}

/// Every intent is counted once, as moved, spawned or dropped, and a list without spawns
/// spawns nothing.
pub proof fn lemma_tally(cells: Map<IVec2, CellRef>, intents: Seq<Intent>)
    ensures
        tally(cells, intents).moved + tally(cells, intents).spawned + tally(cells, intents).dropped
            == intents.len(),
        (forall|i: int| 0 <= i < intents.len() ==> (#[trigger] intents[i]) is Move) ==> tally(
            cells,
            intents,
        ).spawned == 0,
    decreases intents.len(),
{
    if intents.len() > 0 {
        lemma_tally(cells, intents.drop_last());
        if forall|i: int| 0 <= i < intents.len() ==> (#[trigger] intents[i]) is Move {
            assert forall|i: int| 0 <= i < intents.drop_last().len() implies (#[trigger] intents.drop_last()[i]) is Move by {
                assert(intents.drop_last()[i] == intents[i]);
            }
            assert(intents.last() == intents[intents.len() - 1]);
        }
    }
}

/// Committing intents changes the number of occupied cells by the number of spawns that
/// took effect: a move neither adds a cell nor loses one, and a dropped intent does nothing.
pub proof fn lemma_commit_count(cells: Map<IVec2, CellRef>, intents: Seq<Intent>)
    requires
        cells.dom().finite(),
    ensures
        apply_all(cells, intents).dom().finite(),
        apply_all(cells, intents).dom().len() == cells.dom().len() + tally(cells, intents).spawned,
    decreases intents.len(),
{
    if intents.len() > 0 {
        lemma_commit_count(cells, intents.drop_last());
        let mid = apply_all(cells, intents.drop_last());
        let last = intents.last();
        if takes_effect(mid, last) {
            match last {
                Intent::Move { from, to } => {
                    assert(apply_intent(mid, last).dom() =~= mid.dom().remove(from).insert(to));
                },
                Intent::Spawn { at, material_id } => {
                    assert(apply_intent(mid, last).dom() =~= mid.dom().insert(at));
                },
            }
        }
    }
}

/// A tick changes the number of occupied cells by the number of cells that taps created,
/// and by nothing where no occupied cell is a tap, as in a world whose registry has no
/// taps; this whatever the tosses.
pub proof fn lemma_tick_conserves(
    cells: Map<IVec2, CellRef>,
    assets: Seq<CellAssetView>,
    order: Seq<IVec2>,
    choice: spec_fn(IVec2) -> bool,
)
    requires
        cells.dom().finite(),
    ensures
        ({
            let plan = world_plan(cells, assets, order, order.len(), choice);
            &&& apply_all(cells, plan).dom().finite()
            &&& apply_all(cells, plan).dom().len() == cells.dom().len() + tally(cells, plan).spawned
            &&& no_tap_cells(cells, assets) ==> tally(cells, plan).spawned == 0 && apply_all(
                cells,
                plan,
            ).dom().len() == cells.dom().len()
            &&& no_taps(assets) ==> no_tap_cells(cells, assets)
        }),
{
    let plan = world_plan(cells, assets, order, order.len(), choice);
    lemma_commit_count(cells, plan);
    if no_taps(assets) {
        lemma_no_taps(cells, assets);
    }
    if no_tap_cells(cells, assets) {
        lemma_world_plan_moves(cells, assets, order, order.len(), choice);
        lemma_tally(cells, plan);
    }
}

} // verus!
