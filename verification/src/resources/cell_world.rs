use vstd::prelude::*;
use crate::enums::{CHUNK_SIZE, CHUNK_SIZE_LEN};
use crate::math::{
    ascending, chunk_of, coord_before, coord_lt, div_floor, in_chunk, index_of, index_to_local,
    lemma_slots_distinct, local_of, mod_floor, IVec2,
};
use crate::resources::chunk_index::{chunk_index_contents, ChunkIndex};

verus! {

/// What an occupied cell holds.
#[derive(Clone, Copy, Debug, PartialEq, Eq, Structural)]
pub struct CellRef {
    /// Id of the cell's material in the registry.
    pub material_id: usize,
    /// Horizontal offset inside the cell, reserved for animation: the bit pattern of a
    /// single-precision number. Nothing here reads it; it travels with the cell.
    pub offset_x_bits: u32,
    /// Vertical offset inside the cell, kept like `offset_x_bits`.
    pub offset_y_bits: u32,
}

impl CellRef {
    /// A cell of the given material with no offset.
    pub fn new(material_id: usize) -> (cell: CellRef)
        ensures
            cell == CellRef::spec_new(material_id),
    {
        CellRef { material_id, offset_x_bits: 0, offset_y_bits: 0 }
    }

    pub open spec fn spec_new(material_id: usize) -> CellRef {
        CellRef { material_id, offset_x_bits: 0, offset_y_bits: 0 }
    }
}

/// Number of occupied slots in a sequence of slots.
pub open spec fn count_occupied(slots: Seq<Option<CellRef>>) -> nat
    decreases slots.len(),
{
    if slots.len() == 0 {
        0
    } else {
        count_occupied(slots.drop_last()) + if slots.last() is Some {
            1nat
        } else {
            0nat
        }
    }
}

/// No more slots are occupied than there are.
pub proof fn lemma_count_occupied_bound(slots: Seq<Option<CellRef>>)
    ensures
        count_occupied(slots) <= slots.len(),
    decreases slots.len(),
{
    if slots.len() > 0 {
        lemma_count_occupied_bound(slots.drop_last());
    }
}

/// Writing one slot changes the count by what that slot gains or loses.
pub proof fn lemma_count_occupied_update(slots: Seq<Option<CellRef>>, i: int, cell: Option<CellRef>)
    requires
        0 <= i < slots.len(),
    ensures
        count_occupied(slots.update(i, cell)) + (if slots[i] is Some { 1nat } else { 0nat })
            == count_occupied(slots) + (if cell is Some { 1nat } else { 0nat }),
    decreases slots.len(),
{
    if i == slots.len() - 1 {
        assert(slots.update(i, cell).drop_last() =~= slots.drop_last());
    } else {
        assert(slots.update(i, cell).drop_last() =~= slots.drop_last().update(i, cell));
        lemma_count_occupied_update(slots.drop_last(), i, cell);
    }
}

/// Whether two runs of slots are filled in the same places.
pub open spec fn same_filled(first: Seq<Option<CellRef>>, second: Seq<Option<CellRef>>) -> bool {
    &&& first.len() == second.len()
    &&& forall|i: int| 0 <= i < first.len() ==> (#[trigger] first[i] is Some) == (second[i] is Some)
}

/// Runs of slots that are filled in the same places have as many occupied slots.
pub proof fn lemma_count_occupied_same(first: Seq<Option<CellRef>>, second: Seq<Option<CellRef>>)
    requires
        same_filled(first, second),
    ensures
        count_occupied(first) == count_occupied(second),
    decreases first.len(),
{
    if first.len() > 0 {
        assert(first[first.len() - 1] is Some == second[first.len() - 1] is Some);
        assert forall|i: int| 0 <= i < first.drop_last().len() implies (#[trigger] first.drop_last()[i] is Some)
            == (second.drop_last()[i] is Some) by {
            assert(first[i] is Some == second[i] is Some);
        }
        lemma_count_occupied_same(first.drop_last(), second.drop_last());
    }
}

/// A run of empty slots has nothing occupied.
pub proof fn lemma_count_occupied_empty(slots: Seq<Option<CellRef>>)
    requires
        forall|i: int| 0 <= i < slots.len() ==> slots[i] is None,
    ensures
        count_occupied(slots) == 0,
    decreases slots.len(),
{
    if slots.len() > 0 {
        lemma_count_occupied_empty(slots.drop_last());
    }
}

/// A dense block of `CHUNK_SIZE` by `CHUNK_SIZE` cell slots, row by row, with the number of
/// occupied slots kept beside them.
pub struct Chunk {
    cells: Vec<Option<CellRef>>,
    cell_count: usize,
}

impl View for Chunk {
    type V = Seq<Option<CellRef>>;

    /// The slots, in row-major order.
    closed spec fn view(&self) -> Seq<Option<CellRef>> {
        self.cells@
    }
}

impl Default for Chunk {
    /// A chunk with every slot empty.
    fn default() -> (chunk: Chunk)
        ensures
            chunk.wf(),
            chunk.count() == 0,
            forall|i: int| 0 <= i < CHUNK_SIZE_LEN ==> chunk@[i] is None,
    {
        let mut cells: Vec<Option<CellRef>> = Vec::with_capacity(CHUNK_SIZE_LEN);
        let mut i: usize = 0;
        while i < CHUNK_SIZE_LEN
            invariant
                i <= CHUNK_SIZE_LEN,
                cells@.len() == i,
                forall|j: int| 0 <= j < i ==> cells@[j] is None,
            decreases CHUNK_SIZE_LEN - i,
        {
            cells.push(None);
            i = i + 1;
        }
        proof {
            lemma_count_occupied_empty(cells@);
        }
        Chunk { cells, cell_count: 0 }
    }
}

impl Chunk {
    /// The occupancy counter.
    pub closed spec fn count(&self) -> nat {
        self.cell_count as nat
    }

    /// The chunk is fully allocated and its counter is the number of occupied slots.
    pub open spec fn wf(&self) -> bool {
        &&& self@.len() == CHUNK_SIZE_LEN
        &&& self.count() == count_occupied(self@)
    }

    /// The slot at the local coordinate `pos`; empty where `pos` is outside the chunk.
    pub open spec fn slot(&self, pos: IVec2) -> Option<CellRef> {
        if in_chunk(pos) {
            self@[index_of(pos)]
        } else {
            None
        }
    }

    /// The slot number of a local coordinate, `None` outside the chunk.
    pub fn ivec_to_vec_index(pos: IVec2) -> (index: Option<usize>)
        ensures
            in_chunk(pos) ==> index == Some(index_of(pos) as usize) && index_of(pos)
                < CHUNK_SIZE_LEN,
            !in_chunk(pos) ==> index is None,
    {
        if pos.x >= 0 && pos.x < CHUNK_SIZE && pos.y >= 0 && pos.y < CHUNK_SIZE {
            Some((pos.y * CHUNK_SIZE + pos.x) as usize)
        } else {
            None
        }
    }

    /// The local coordinate of a slot number, `None` past the last slot.
    pub fn vec_index_to_ivec(index: usize) -> (pos: Option<IVec2>)
        ensures
            index < CHUNK_SIZE_LEN ==> pos == Some(index_to_local(index as int)) && in_chunk(
                index_to_local(index as int),
            ) && index_of(index_to_local(index as int)) == index,
            index >= CHUNK_SIZE_LEN ==> pos is None,
    {
        if index < CHUNK_SIZE_LEN {
            let side: usize = CHUNK_SIZE as usize;
            Some(IVec2 { x: (index % side) as i32, y: (index / side) as i32 })
        } else {
            None
        }
    }

    /// The coordinate of a global position inside its chunk.
    pub fn global_pos_to_chunk_pos(global_pos: IVec2) -> (local: IVec2)
        ensures
            local == local_of(global_pos),
            in_chunk(local),
    {
        IVec2 { x: mod_floor(global_pos.x), y: mod_floor(global_pos.y) }
    }

    /// Whether a local coordinate lies inside the chunk.
    pub fn check_bounds(pos: IVec2) -> (inside: bool)
        ensures
            inside == in_chunk(pos),
    {
        Chunk::ivec_to_vec_index(pos).is_some()
    }

    /// What the slot at `pos` holds; `None` where it is empty or `pos` is outside the chunk.
    pub fn get(&self, pos: IVec2) -> (cell: Option<CellRef>)
        requires
            self.wf(),
        ensures
            cell == self.slot(pos),
    {
        match Chunk::ivec_to_vec_index(pos) {
            Some(index) => self.cells[index],
            None => None,
        }
    }

    /// Writes the slot at `pos` and moves the counter by what the slot gained or lost.
    /// Outside the chunk nothing changes.
    pub fn insert(&mut self, pos: IVec2, cell: Option<CellRef>)
        requires
            old(self).wf(),
        ensures
            final(self).wf(),
            in_chunk(pos) ==> final(self)@ == old(self)@.update(index_of(pos), cell),
            !in_chunk(pos) ==> final(self)@ == old(self)@,
            final(self).count() + (if old(self).slot(pos) is Some { 1nat } else { 0nat })
                == old(self).count() + (if in_chunk(pos) && cell is Some { 1nat } else { 0nat }),
    {
        match Chunk::ivec_to_vec_index(pos) {
            Some(index) => {
                proof {
                    lemma_count_occupied_update(self.cells@, index as int, cell);
                    lemma_count_occupied_bound(self.cells@.update(index as int, cell));
                }
                let was: bool = self.cells[index].is_some();
                let now: bool = cell.is_some();
                self.cells.set(index, cell);
                if was && !now {
                    self.cell_count = self.cell_count - 1;
                } else if !was && now {
                    self.cell_count = self.cell_count + 1;
                }
            },
            None => {},
        }
    }

    /// The slot at `pos`, for writing; `None` where `pos` is outside the chunk. The counter
    /// is left as it is: a write through the slot that fills an empty slot or empties a
    /// filled one leaves a chunk that is no longer well formed, and `insert` is the way to
    /// do that.
    pub fn get_mut(&mut self, pos: IVec2) -> (slot: Option<&mut Option<CellRef>>)
        requires
            old(self).wf(),
        ensures
            slot is Some == in_chunk(pos),
            slot matches Some(s) ==> *s == old(self).slot(pos),
            slot matches Some(s) ==> final(self)@ == old(self)@.update(index_of(pos), *final(s)),
            slot is None ==> final(self)@ == old(self)@,
            final(self).count() == old(self).count(),
            slot matches Some(s) ==> (((*final(s)) is Some) == (old(self).slot(pos) is Some)
                ==> final(self).wf()),
            slot is None ==> final(self).wf(),
    {
        match Chunk::ivec_to_vec_index(pos) {
            Some(index) => {
                let slot = &mut self.cells[index];
                proof {
                    lemma_count_occupied_update(old(self).cells@, index as int, *final(slot));
                }
                Some(slot)
            },
            None => None,
        }
    }

    /// Number of occupied slots.
    pub fn cell_count(&self) -> (n: usize)
        ensures
            n == self.count(),
    {
        self.cell_count
    }
}

/// Sum of the occupancy counters of a run of chunks.
spec fn sum_counts(chunks: Seq<Chunk>) -> nat
    decreases chunks.len(),
{
    if chunks.len() == 0 {
        0
    } else {
        sum_counts(chunks.drop_last()) + chunks.last().count()
    }
}

/// Replacing one chunk changes the sum by the difference of the two counters.
proof fn lemma_sum_counts_update(chunks: Seq<Chunk>, i: int, chunk: Chunk)
    requires
        0 <= i < chunks.len(),
    ensures
        sum_counts(chunks.update(i, chunk)) + chunks[i].count() == sum_counts(chunks)
            + chunk.count(),
    decreases chunks.len(),
{
    if i == chunks.len() - 1 {
        assert(chunks.update(i, chunk).drop_last() =~= chunks.drop_last());
    } else {
        assert(chunks.update(i, chunk).drop_last() =~= chunks.drop_last().update(i, chunk));
        lemma_sum_counts_update(chunks.drop_last(), i, chunk);
    }
}

/// What a map of occupied cells holds at `pos`.
pub open spec fn read_cell(cells: Map<IVec2, CellRef>, pos: IVec2) -> Option<CellRef> {
    if cells.contains_key(pos) {
        Some(cells[pos])
    } else {
        None
    }
}

/// The occupied cells after `cell` is written at `pos`: `Some` places a cell there, `None`
/// clears the slot.
pub open spec fn write_cell(cells: Map<IVec2, CellRef>, pos: IVec2, cell: Option<CellRef>) -> Map<
    IVec2,
    CellRef,
> {
    match cell {
        Some(held) => cells.insert(pos, held),
        None => cells.remove(pos),
    }
}

/// A cell that was written is read back, a cell that was cleared reads as empty, and a
/// write leaves every other cell as it was.
pub proof fn lemma_write_then_read(
    cells: Map<IVec2, CellRef>,
    pos: IVec2,
    cell: CellRef,
    other: IVec2,
)
    ensures
        read_cell(write_cell(cells, pos, Some(cell)), pos) == Some(cell),
        read_cell(write_cell(write_cell(cells, pos, Some(cell)), pos, None), pos) is None,
        other != pos ==> read_cell(write_cell(cells, pos, Some(cell)), other) == read_cell(
            cells,
            other,
        ),
        other != pos ==> read_cell(write_cell(cells, pos, None), other) == read_cell(cells, other),
{
}

/// The sparse world: a chunk for every region that was ever written, found by its chunk
/// coordinate. A region without a chunk reads as empty.
pub struct CellWorld {
    /// Chunk coordinate to position in `chunks`.
    index: ChunkIndex,
    /// The chunks, in the order of their creation.
    chunks: Vec<Chunk>,
    /// The coordinates of the resident chunks, ascending.
    order: Vec<IVec2>,
}

impl View for CellWorld {
    type V = Map<IVec2, CellRef>;

    /// The occupied cells, by global coordinate.
    open spec fn view(&self) -> Map<IVec2, CellRef> {
        Map::new(|g: IVec2| self.cell_at(g) is Some, |g: IVec2| self.cell_at(g).unwrap())
    }
}

impl Default for CellWorld {
    /// A world without chunks.
    fn default() -> (world: CellWorld)
        ensures
            world.wf(),
            world.chunk_order() == Seq::<IVec2>::empty(),
            forall|c: IVec2| !world.resident(c),
            world@ == Map::<IVec2, CellRef>::empty(),
    {
        let world = CellWorld { index: ChunkIndex::new(), chunks: Vec::new(), order: Vec::new() };
        proof {
            assert(world@ =~= Map::<IVec2, CellRef>::empty());
        }
        world
    }
}

impl CellWorld {
    /// Whether a chunk exists at the chunk coordinate `c`.
    pub closed spec fn resident(&self, c: IVec2) -> bool {
        chunk_index_contents(self.index).contains_key((c.x, c.y))
    }

    /// The slots of the chunk at the chunk coordinate `c`, for a resident `c`.
    pub closed spec fn chunk_slots(&self, c: IVec2) -> Seq<Option<CellRef>> {
        self.chunks@[chunk_index_contents(self.index)[(c.x, c.y)] as int]@
    }

    /// The coordinates of the resident chunks, in visiting order.
    pub closed spec fn chunk_order(&self) -> Seq<IVec2> {
        self.order@
    }

    /// What the cell at the global coordinate `g` holds.
    pub open spec fn cell_at(&self, g: IVec2) -> Option<CellRef> {
        if self.resident(chunk_of(g)) {
            self.chunk_slots(chunk_of(g))[index_of(local_of(g))]
        } else {
            None
        }
    }

    /// The index, the chunk storage and the visiting order agree, and every chunk is well
    /// formed.
    pub closed spec fn wf(&self) -> bool {
        let contents = chunk_index_contents(self.index);
        &&& self.chunks@.len() == self.order@.len()
        &&& ascending(self.order@)
        &&& forall|c: IVec2| #[trigger] self.order@.contains(c) <==> contents.contains_key((c.x, c.y))
        &&& forall|key: (i32, i32)| #[trigger] contents.contains_key(key) ==> contents[key] < self.chunks@.len()
        &&& forall|a: (i32, i32), b: (i32, i32)|
            #[trigger] contents.contains_key(a) && #[trigger] contents.contains_key(b) && a != b
                ==> contents[a] != contents[b]
        &&& forall|i: int| 0 <= i < self.chunks@.len() ==> (#[trigger] self.chunks@[i]).wf()
        &&& self@.dom().finite()
        &&& self@.dom().len() == sum_counts(self.chunks@)
    }

    /// What a well-formed world promises: the visiting order is strictly ascending and lists
    /// exactly the resident chunks, a resident chunk has all its slots, and the occupied
    /// cells are finitely many.
    pub proof fn lemma_wf(&self)
        requires
            self.wf(),
        ensures
            ascending(self.chunk_order()),
            forall|c: IVec2| #[trigger] self.chunk_order().contains(c) <==> self.resident(c),
            forall|c: IVec2| #[trigger] self.resident(c) ==> self.chunk_slots(c).len() == CHUNK_SIZE_LEN,
            self@.dom().finite(),
    {
    }

    /// The chunk coordinate of a global position.
    pub fn calculate_chunk_pos(pos: IVec2) -> (c: IVec2)
        ensures
            c == chunk_of(pos),
    {
        IVec2 { x: div_floor(pos.x), y: div_floor(pos.y) }
    }

    /// What the cell at `pos` holds. A region without a chunk is empty.
    pub fn get(&self, pos: IVec2) -> (cell: Option<CellRef>)
        requires
            self.wf(),
        ensures
            cell == self.cell_at(pos),
            cell == read_cell(self@, pos),
    {
        let c = CellWorld::calculate_chunk_pos(pos);
        match self.index.get(c.x, c.y) {
            Some(slot) => self.chunks[slot].get(Chunk::global_pos_to_chunk_pos(pos)),
            None => None,
        }
    }

    /// Whether the cell at `pos` is empty.
    pub fn is_cell_empty(&self, pos: IVec2) -> (empty: bool)
        requires
            self.wf(),
        ensures
            empty == (self.cell_at(pos) is None),
            empty == !self@.contains_key(pos),
    {
        match self.get(pos) {
            None => true,
            Some(_) => false,
        }
    }

    /// The chunk that holds `pos`, if the region has one.
    pub fn get_chunk(&self, pos: IVec2) -> (chunk: Option<&Chunk>)
        requires
            self.wf(),
        ensures
            chunk is Some == self.resident(chunk_of(pos)),
            chunk matches Some(found) ==> found.wf() && found@ == self.chunk_slots(chunk_of(pos)),
    {
        let c = CellWorld::calculate_chunk_pos(pos);
        match self.index.get(c.x, c.y) {
            Some(slot) => Some(&self.chunks[slot]),
            None => None,
        }
    }

    /// Puts `c` at its place in the ascending list `order`.
    fn insert_sorted(order: &mut Vec<IVec2>, c: IVec2)
        requires
            ascending(old(order)@),
            !old(order)@.contains(c),
        ensures
            ascending(final(order)@),
            final(order)@.len() == old(order)@.len() + 1,
            forall|d: IVec2| #[trigger] final(order)@.contains(d) <==> old(order)@.contains(d) || d == c,
    {
        let mut at: usize = 0;
        while at < order.len() && coord_before(order[at], c)
            invariant
                at <= order@.len(),
                order@ == old(order)@,
                forall|i: int| 0 <= i < at ==> coord_lt(#[trigger] order@[i], c),
            decreases order@.len() - at,
        {
            at = at + 1;
        }
        proof {
            if at < order@.len() {
                assert(order@.contains(order@[at as int]));
                assert(coord_lt(c, order@[at as int]));
            }
            let ghost after = order@.insert(at as int, c);
            assert(after[at as int] == c);
            assert forall|d: IVec2| #[trigger] after.contains(d) <==> order@.contains(d) || d == c by {
                if after.contains(d) {
                    let k = choose|k: int| 0 <= k < after.len() && after[k] == d;
                    if k < at {
                        assert(order@[k] == d);
                    } else if k > at {
                        assert(order@[k - 1] == d);
                    }
                }
                if order@.contains(d) {
                    let k = choose|k: int| 0 <= k < order@.len() && order@[k] == d;
                    if k < at {
                        assert(after[k] == d);
                    } else {
                        assert(after[k + 1] == d);
                    }
                }
            }
            assert forall|i: int, j: int| 0 <= i < j < after.len() implies coord_lt(
                #[trigger] after[i],
                #[trigger] after[j],
            ) by {
                if j < at {
                } else if j == at {
                } else if i < at {
                    assert(after[j] == order@[j - 1]);
                    if j - 1 > at {
                        assert(coord_lt(order@[at as int], order@[j - 1]));
                    }
                } else if i == at {
                    assert(after[j] == order@[j - 1]);
                    if j - 1 > at {
                        assert(coord_lt(order@[at as int], order@[j - 1]));
                    }
                } else {
                    assert(after[i] == order@[i - 1]);
                    assert(after[j] == order@[j - 1]);
                }
            }
        }
        order.insert(at, c);
    }

    /// Writes the cell at `pos`: `Some` places a cell, `None` clears the slot. The region's
    /// chunk is created first where there is none, also when the slot is cleared.
    pub fn insert(&mut self, pos: IVec2, cell: Option<CellRef>)
        requires
            old(self).wf(),
        ensures
            final(self).wf(),
            final(self).cell_at(pos) == cell,
            forall|g: IVec2| g != pos ==> #[trigger] final(self).cell_at(g) == old(self).cell_at(g),
            final(self)@ == write_cell(old(self)@, pos, cell),
            forall|c: IVec2| #[trigger]
                final(self).resident(c) <==> old(self).resident(c) || c == chunk_of(pos),
    {
        let c = CellWorld::calculate_chunk_pos(pos);
        let local = Chunk::global_pos_to_chunk_pos(pos);
        let ghost before = *self;
        match self.index.get(c.x, c.y) {
            Some(slot) => {
                self.chunks[slot].insert(local, cell);
                proof {
                    lemma_sum_counts_update(before.chunks@, slot as int, self.chunks@[slot as int]);
                    assert(self.chunks@ == before.chunks@.update(slot as int, self.chunks@[slot as int]));
                }
            },
            None => {
                let mut chunk = Chunk::default();
                chunk.insert(local, cell);
                let slot = self.chunks.len();
                self.chunks.push(chunk);
                self.index.insert(c.x, c.y, slot);
                proof {
                    assert(!before.order@.contains(c));
                    assert(self.chunks@.drop_last() =~= before.chunks@);
                }
                CellWorld::insert_sorted(&mut self.order, c);
            },
        }
        proof {
            assert forall|g: IVec2| g != pos implies #[trigger] self.cell_at(g) == before.cell_at(g) by {
                lemma_slots_distinct(g, pos);
                lemma_slots_distinct(pos, g);
            }
            lemma_slots_distinct(pos, pos);
            assert(self.cell_at(pos) == cell);
            match cell {
                Some(held) => {
                    assert(self@ =~= before@.insert(pos, held));
                    assert(self@.dom() =~= before@.dom().insert(pos));
                },
                None => {
                    assert(self@ =~= before@.remove(pos));
                    assert(self@.dom() =~= before@.dom().remove(pos));
                },
            }
        }
    }

    /// A world whose chunk in one storage place was exchanged for a well-formed chunk that
    /// is filled in the same places is well formed, and has its cells in the same places.
    proof fn lemma_exchange_keeps_wf(before: CellWorld, after: CellWorld, place: int)
        requires
            before.wf(),
            0 <= place < before.chunks@.len(),
            after.index == before.index,
            after.order == before.order,
            after.chunks@ == before.chunks@.update(place, after.chunks@[place]),
        ensures
            after.chunks@[place].wf() && same_filled(before.chunks@[place]@, after.chunks@[place]@)
                ==> after.wf() && after@.dom() == before@.dom(),
    {
        let was = before.chunks@[place];
        let now = after.chunks@[place];
        if now.wf() && same_filled(was@, now@) {
            lemma_sum_counts_update(before.chunks@, place, now);
            lemma_count_occupied_same(was@, now@);
            assert forall|g: IVec2| (#[trigger] after.cell_at(g) is Some) == (before.cell_at(g) is Some) by {
                lemma_slots_distinct(g, g);
            }
            assert(after@.dom() =~= before@.dom());
        }
    }

    /// The slot at `pos`, for writing; `None` where the region has no chunk. The chunks'
    /// counters are left as they are: a write through the slot that fills an empty cell or
    /// empties a filled one leaves a world that is no longer well formed, and `insert` is
    /// the way to do that.
    pub fn get_mut(&mut self, pos: IVec2) -> (slot: Option<&mut Option<CellRef>>)
        requires
            old(self).wf(),
        ensures
            slot is Some == old(self).resident(chunk_of(pos)),
            slot matches Some(s) ==> *s == old(self).cell_at(pos),
            slot matches Some(s) ==> final(self)@ == write_cell(old(self)@, pos, *final(s)),
            slot is None ==> final(self)@ == old(self)@,
            forall|c: IVec2| #[trigger] final(self).resident(c) == old(self).resident(c),
            final(self).chunk_order() == old(self).chunk_order(),
            slot matches Some(s) ==> (((*final(s)) is Some) == (old(self).cell_at(pos) is Some)
                ==> final(self).wf()),
            slot is None ==> final(self).wf(),
    {
        let c = CellWorld::calculate_chunk_pos(pos);
        let local = Chunk::global_pos_to_chunk_pos(pos);
        match self.index.get(c.x, c.y) {
            Some(slot) => {
                let cell = self.chunks[slot].get_mut(local);
                proof {
                    let before = *old(self);
                    let after = *after_borrow(self);
                    assert(after.chunks@ == before.chunks@.update(slot as int, after.chunks@[slot as int]));
                    lemma_sum_counts_update(before.chunks@, slot as int, after.chunks@[slot as int]);
                    assert forall|g: IVec2| g != pos implies #[trigger] after.cell_at(g) == before.cell_at(g) by {
                        lemma_slots_distinct(g, pos);
                        lemma_slots_distinct(pos, g);
                    }
                    lemma_slots_distinct(pos, pos);
                    assert(after.cell_at(pos) == *final(cell->0));
                    assert(after@ =~= write_cell(before@, pos, *final(cell->0)));
                    assert(same_filled(before.chunks@[slot as int]@, after.chunks@[slot as int]@) == ((
                    *final(cell->0)) is Some == before.cell_at(pos) is Some));
                    CellWorld::lemma_exchange_keeps_wf(before, after, slot as int);
                }
                cell
            },
            None => None,
        }
    }

    /// The chunk that holds `pos`, for writing; `None` where the region has none. What is
    /// written to the chunk is written to the world. The world stays well formed where the
    /// chunk does and is afterwards filled in the same places as before; cells are placed
    /// and cleared with `insert`.
    pub fn get_mut_chunk(&mut self, pos: IVec2) -> (chunk: Option<&mut Chunk>)
        requires
            old(self).wf(),
        ensures
            chunk is Some == old(self).resident(chunk_of(pos)),
            chunk matches Some(found) ==> found.wf() && found@ == old(self).chunk_slots(chunk_of(pos)),
            chunk matches Some(found) ==> final(self).chunk_slots(chunk_of(pos)) == final(found)@,
            forall|c: IVec2|
                old(self).resident(c) && c != chunk_of(pos) ==> #[trigger] final(self).chunk_slots(c)
                    == old(self).chunk_slots(c),
            forall|c: IVec2| #[trigger] final(self).resident(c) == old(self).resident(c),
            final(self).chunk_order() == old(self).chunk_order(),
            chunk is None ==> final(self)@ == old(self)@ && final(self).wf(),
            chunk matches Some(found) ==> (final(found).wf() && same_filled(found@, final(found)@)
                ==> final(self).wf()),
    {
        let c = CellWorld::calculate_chunk_pos(pos);
        match self.index.get(c.x, c.y) {
            Some(slot) => {
                let chunk = &mut self.chunks[slot];
                proof {
                    let before = *old(self);
                    let after = *after_borrow(self);
                    assert(after.chunks@ == before.chunks@.update(slot as int, *final(chunk)));
                    CellWorld::lemma_exchange_keeps_wf(before, after, slot as int);
                }
                Some(chunk)
            },
            None => None,
        }
    }

    /// The chunk at the chunk coordinate `c`, if there is one.
    pub fn chunk_at(&self, c: IVec2) -> (chunk: Option<&Chunk>)
        requires
            self.wf(),
        ensures
            chunk is Some == self.resident(c),
            chunk matches Some(found) ==> found.wf() && found@ == self.chunk_slots(c),
    {
        match self.index.get(c.x, c.y) {
            Some(slot) => Some(&self.chunks[slot]),
            None => None,
        }
    }

    /// The coordinates of the resident chunks, ascending by `x`, then by `y`: the order in
    /// which a tick visits them.
    pub fn chunks(&self) -> (coords: &Vec<IVec2>)
        requires
            self.wf(),
        ensures
            coords@ == self.chunk_order(),
    {
        &self.order
    }

    /// Number of occupied cells in the whole world, summed from the chunks' counters. The
    /// result is wide enough for any number of chunks.
    pub fn total_occupancy(&self) -> (total: u128)
        requires
            self.wf(),
        ensures
            total == self@.dom().len(),
    {
        let mut total: u128 = 0;
        let mut i: usize = 0;
        while i < self.chunks.len()
            invariant
                self.wf(),
                i <= self.chunks@.len(),
                total == sum_counts(self.chunks@.subrange(0, i as int)),
                total <= i * CHUNK_SIZE_LEN,
            decreases self.chunks@.len() - i,
        {
            let n = self.chunks[i].cell_count();
            proof {
                lemma_count_occupied_bound(self.chunks@[i as int]@);
                assert(self.chunks@.subrange(0, i + 1).drop_last() =~= self.chunks@.subrange(
                    0,
                    i as int,
                ));
            }
            total = total + n as u128;
            i = i + 1;
        }
        proof {
            assert(self.chunks@.subrange(0, i as int) =~= self.chunks@);
        }
        total
    }

    /// Number of resident chunks.
    pub fn chunk_count(&self) -> (n: usize)
        requires
            self.wf(),
        ensures
            n == self.chunk_order().len(),
    {
        self.order.len()
    }
}

} // verus!
