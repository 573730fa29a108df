use vstd::prelude::*;
use crate::enums::{CHUNK_SIZE, CHUNK_SIZE_LEN};

verus! {

/// A pair of signed 32-bit integers: a cell, chunk or local coordinate, or an offset.
#[derive(Clone, Copy, Debug, PartialEq, Eq, Hash, Structural)]
pub struct IVec2 {
    pub x: i32,
    pub y: i32,
}

impl IVec2 {
    pub fn new(x: i32, y: i32) -> (v: IVec2)
        ensures
            v == (IVec2 { x, y }),
    {
        IVec2 { x, y }
    }
}

/// The chunk that holds the coordinate `a` on one axis: the quotient by the chunk side,
/// rounded toward negative infinity.
pub open spec fn chunk_coord(a: int) -> int {
    a / (CHUNK_SIZE as int)
}

/// The place of the coordinate `a` inside its chunk on one axis, in `0..CHUNK_SIZE`.
pub open spec fn local_coord(a: int) -> int {
    a % (CHUNK_SIZE as int)
}

/// Whether both components fit in an `i32`.
pub open spec fn fits_i32(x: int, y: int) -> bool {
    i32::MIN <= x <= i32::MAX && i32::MIN <= y <= i32::MAX
}

/// The chunk coordinate of the global cell coordinate `g`.
pub open spec fn chunk_of(g: IVec2) -> IVec2 {
    IVec2 { x: chunk_coord(g.x as int) as i32, y: chunk_coord(g.y as int) as i32 }
}

/// The coordinate of `g` inside its chunk.
pub open spec fn local_of(g: IVec2) -> IVec2 {
    IVec2 { x: local_coord(g.x as int) as i32, y: local_coord(g.y as int) as i32 }
}

/// Whether `l` lies inside a chunk, that is in `0..CHUNK_SIZE` on both axes.
pub open spec fn in_chunk(l: IVec2) -> bool {
    0 <= l.x < CHUNK_SIZE && 0 <= l.y < CHUNK_SIZE
}

/// The row-major slot number of the local coordinate `l`.
pub open spec fn index_of(l: IVec2) -> int {
    l.y * CHUNK_SIZE + l.x
}

/// The local coordinate of the slot number `i`.
pub open spec fn index_to_local(i: int) -> IVec2 {
    IVec2 { x: (i % (CHUNK_SIZE as int)) as i32, y: (i / (CHUNK_SIZE as int)) as i32 }
}

/// The global coordinate of the local coordinate `l` in chunk `c`, where it is addressable.
pub open spec fn recombine(c: IVec2, l: IVec2) -> Option<IVec2> {
    let x = c.x * CHUNK_SIZE + l.x;
    let y = c.y * CHUNK_SIZE + l.y;
    if fits_i32(x, y) {
        Some(IVec2 { x: x as i32, y: y as i32 })
    } else {
        None
    }
}

/// The coordinate `dx` to the right of and `dy` above `g`, where it is addressable.
pub open spec fn neighbor(g: IVec2, dx: int, dy: int) -> Option<IVec2> {
    if fits_i32(g.x + dx, g.y + dy) {
        Some(IVec2 { x: (g.x + dx) as i32, y: (g.y + dy) as i32 })
    } else {
        None
    }
}

/// Floored quotient of `a` by the chunk side.
pub fn div_floor(a: i32) -> (q: i32)
    ensures
        q == chunk_coord(a as int),
        q * CHUNK_SIZE <= a < q * CHUNK_SIZE + CHUNK_SIZE,
{
    if a < 0 {
        let below: i32 = -(a + 1);
        -(below / CHUNK_SIZE) - 1
    } else {
        a / CHUNK_SIZE
    }
}

/// Remainder of `a` by the chunk side, never negative.
pub fn mod_floor(a: i32) -> (r: i32)
    ensures
        r == local_coord(a as int),
        0 <= r < CHUNK_SIZE,
{
    let q: i64 = div_floor(a) as i64;
    (a as i64 - q * (CHUNK_SIZE as i64)) as i32
}

/// Puts a chunk coordinate and a local coordinate back together.
/// `None` where the sum leaves the 32-bit range on either axis.
pub fn recombine_pos(c: IVec2, l: IVec2) -> (g: Option<IVec2>)
    ensures
        g == recombine(c, l),
{
    let side: i64 = CHUNK_SIZE as i64;
    assert(side == 100);
    let x: i64 = (c.x as i64) * side + (l.x as i64);
    let y: i64 = (c.y as i64) * side + (l.y as i64);
    if x < i32::MIN as i64 || x > i32::MAX as i64 || y < i32::MIN as i64 || y > i32::MAX as i64 {
        None
    } else {
        Some(IVec2 { x: x as i32, y: y as i32 })
    }
}

/// The cell `offset` away from `g`. `None` where it leaves the 32-bit range.
pub fn neighbor_pos(g: IVec2, offset: IVec2) -> (n: Option<IVec2>)
    ensures
        n == neighbor(g, offset.x as int, offset.y as int),
{
    let x: i64 = (g.x as i64) + (offset.x as i64);
    let y: i64 = (g.y as i64) + (offset.y as i64);
    if x < i32::MIN as i64 || x > i32::MAX as i64 || y < i32::MIN as i64 || y > i32::MAX as i64 {
        None
    } else {
        Some(IVec2 { x: x as i32, y: y as i32 })
    }
}

/// The local coordinate lies in the chunk, and chunk and local coordinate give the global
/// coordinate back: for every `g`, negative or not,
/// `recombine(chunk_of(g), local_of(g)) == Some(g)`.
pub proof fn lemma_round_trip(g: IVec2)
    ensures
        in_chunk(local_of(g)),
        recombine(chunk_of(g), local_of(g)) == Some(g),
{
}

/// Chunk and local coordinate are the only decomposition: a local coordinate inside chunk
/// `c` that recombines to `g` is `local_of(g)`, and `c` is `chunk_of(g)`.
pub proof fn lemma_recombine_unique(c: IVec2, l: IVec2, g: IVec2)
    requires
        in_chunk(l),
        recombine(c, l) == Some(g),
    ensures
        chunk_of(g) == c,
        local_of(g) == l,
{
}

/// Slot numbers and local coordinates inside a chunk correspond one to one.
pub proof fn lemma_index_round_trip(l: IVec2, i: int)
    ensures
        in_chunk(l) ==> 0 <= index_of(l) < CHUNK_SIZE_LEN && index_to_local(index_of(l)) == l,
        0 <= i < CHUNK_SIZE_LEN ==> in_chunk(index_to_local(i)) && index_of(index_to_local(i)) == i,
{
}

/// Two different cells of one chunk have different slot numbers, and every slot number is
/// inside the chunk.
pub proof fn lemma_slots_distinct(g: IVec2, h: IVec2)
    ensures
        0 <= index_of(local_of(g)) < CHUNK_SIZE_LEN,
        chunk_of(g) == chunk_of(h) && g != h ==> index_of(local_of(g)) != index_of(local_of(h)),
{
}

/// Chunk coordinates in visiting order: by `x`, then by `y`.
pub open spec fn coord_lt(a: IVec2, b: IVec2) -> bool {
    a.x < b.x || (a.x == b.x && a.y < b.y)
}

/// Whether a sequence of coordinates is strictly ascending in visiting order.
pub open spec fn ascending(coords: Seq<IVec2>) -> bool {
    forall|i: int, j: int| 0 <= i < j < coords.len() ==> coord_lt(#[trigger] coords[i], #[trigger] coords[j])
}

/// Whether `a` comes before `b` in visiting order.
pub fn coord_before(a: IVec2, b: IVec2) -> (before: bool)
    ensures
        before == coord_lt(a, b),
{
    a.x < b.x || (a.x == b.x && a.y < b.y)
}

} // verus!
