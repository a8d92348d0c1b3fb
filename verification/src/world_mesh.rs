use vstd::prelude::*;
use crate::grid::{CellGrid, grid_cells};
use crate::world::{Cell, CHUNK_SIZE};

verus! {

/// The vertices meshed for one chunk.
pub struct ChunkMesh<V> {
    position: (i32, i32),
    verts: Vec<V>,
}

impl<V> ChunkMesh<V> {
    pub fn new(position: (i32, i32), verts: Vec<V>) -> (m: ChunkMesh<V>)
        ensures
            m.position() == position,
            m.verts() == verts@,
    {
        ChunkMesh { position, verts }
    }

    pub closed spec fn position(&self) -> (i32, i32) {
        self.position
    }

    pub closed spec fn verts(&self) -> Seq<V> {
        self.verts@
    }
}

/// The cells of a chunk's `(CHUNK_SIZE + 1)`-square block in the order the meshing shader
/// reads them: the cell at `(x, y)` goes to position `y * 33 + x`.
pub fn shader_cell_order(data: &CellGrid) -> (order: Vec<Cell>)
    requires
        forall|x: usize, y: usize| x < 33 && y < 33 ==> grid_cells(*data).contains_key((x, y)),
    ensures
        order.len() == 33 * 33,
        forall|x: usize, y: usize|
            x < 33 && y < 33 ==> #[trigger] order@[y * 33 + x] == grid_cells(*data)[(x, y)],
{
    let mut order: Vec<Cell> = Vec::new();
    let mut n: usize = 0;
    while n < (CHUNK_SIZE.0 + 1) * (CHUNK_SIZE.1 + 1)
        invariant
            n <= 33 * 33,
            order.len() == n,
        decreases 33 * 33 - n,
    {
        order.push(Cell::default());
        n += 1;
    }
    let mut x: usize = 0;
    while x < CHUNK_SIZE.0 + 1
        invariant
            x <= 33,
            order.len() == 33 * 33,
            forall|x: usize, y: usize| x < 33 && y < 33 ==> grid_cells(*data).contains_key((x, y)),
            forall|x2: usize, y2: usize|
                x2 < x && y2 < 33 ==> #[trigger] order@[y2 * 33 + x2] == grid_cells(*data)[(x2, y2)],
        decreases 33 - x,
    {
        let mut y: usize = 0;
        while y < CHUNK_SIZE.1 + 1
            invariant
                x < 33,
                y <= 33,
                order.len() == 33 * 33,
                forall|x: usize, y: usize| x < 33 && y < 33 ==> grid_cells(*data).contains_key((x, y)),
                forall|x2: usize, y2: usize|
                    (x2 < x && y2 < 33) || (x2 == x && y2 < y) ==> #[trigger] order@[y2 * 33 + x2]
                        == grid_cells(*data)[(x2, y2)],
            decreases 33 - y,
        {
            let i = y * (CHUNK_SIZE.0 + 1) + x;
            let cell = data.get_elem(x, y).unwrap();
            order.set(i, cell);
            y += 1;
        }
        x += 1;
    }
    order
}

/// No two entries of `s` are stored for the same chunk position.
pub open spec fn positions_unique<B>(s: Seq<((i32, i32), B)>) -> bool {
    forall|i: int, j: int|
        0 <= i < s.len() && 0 <= j < s.len() && i != j ==> #[trigger] s[i].0 != #[trigger] s[j].0
}

/// The buffer that `s` stores for chunk position `pos`, if any.
pub open spec fn buffer_for<B>(s: Seq<((i32, i32), B)>, pos: (i32, i32)) -> Option<B> {
    if exists|i: int| 0 <= i < s.len() && #[trigger] s[i].0 == pos {
        Some(s[choose|i: int| 0 <= i < s.len() && #[trigger] s[i].0 == pos].1)
    } else {
        None
    }
}

/// Writing `(chunk_pos, buffer)` at index `i`, in place of the entry for `chunk_pos` or
/// appended when there is none, keeps positions unique, stores `buffer` for `chunk_pos` and
/// leaves the buffer of every other chunk position as it was.
proof fn lemma_store_keeps_other_buffers<B>(
    before: Seq<((i32, i32), B)>,
    after: Seq<((i32, i32), B)>,
    i: int,
    chunk_pos: (i32, i32),
    buffer: B,
)
    requires
        positions_unique(before),
        0 <= i <= before.len(),
        i < before.len() ==> before[i].0 == chunk_pos && after == before.update(i, (chunk_pos, buffer)),
        i == before.len() ==> after == before.push((chunk_pos, buffer)) && forall|j: int|
            0 <= j < before.len() ==> #[trigger] before[j].0 != chunk_pos,
    ensures
        positions_unique(after),
        buffer_for(after, chunk_pos) == Some(buffer),
        forall|p: (i32, i32)| p != chunk_pos ==> #[trigger] buffer_for(after, p) == buffer_for(before, p),
{
    assert forall|p: (i32, i32)| p != chunk_pos implies #[trigger] buffer_for(after, p) == buffer_for(
        before,
        p,
    ) by {
        if exists|j: int| 0 <= j < before.len() && #[trigger] before[j].0 == p {
            let j = choose|j: int| 0 <= j < before.len() && #[trigger] before[j].0 == p;
            assert(after[j].0 == p);
        }
        if exists|j: int| 0 <= j < after.len() && #[trigger] after[j].0 == p {
            let j = choose|j: int| 0 <= j < after.len() && #[trigger] after[j].0 == p;
            assert(before[j].0 == p);
        }
    }
    assert(after[i].0 == chunk_pos);
}

/// Per-chunk vertex buffers of the terrain, at most one per chunk position, and the
/// material lookup that meshing uses.
pub struct WorldMesh<B, L> {
    stored_buffers: Vec<((i32, i32), B)>,
    pub mat_lookup: L,
}

impl<B, L> WorldMesh<B, L> {
    /// The stored `(chunk position, buffer)` entries, in the order they were first stored.
    pub closed spec fn buffers(&self) -> Seq<((i32, i32), B)> {
        self.stored_buffers@
    }

    /// The material lookup the store was made with.
    pub closed spec fn lookup(&self) -> L {
        self.mat_lookup
    }

    /// Every chunk position has at most one buffer.
    pub open spec fn wf(&self) -> bool {
        positions_unique(self.buffers())
    }

    /// A mesh store with no buffer.
    pub fn new(mat_lookup: L) -> (m: WorldMesh<B, L>)
        ensures
            m.wf(),
            m.buffers() == Seq::<((i32, i32), B)>::empty(),
            m.lookup() == mat_lookup,
    {
        WorldMesh { stored_buffers: Vec::new(), mat_lookup }
    }

    /// The stored `(chunk position, buffer)` entries.
    pub fn stored_buffers(&self) -> (r: &Vec<((i32, i32), B)>)
        ensures
            r@ == self.buffers(),
    {
        &self.stored_buffers
    }

    /// Stores `buffer` as the mesh of chunk `chunk_pos`: it replaces the buffer already
    /// stored for that chunk in place, or is appended when there is none.
    pub fn store_buffer(&mut self, chunk_pos: (i32, i32), buffer: B)
        requires
            old(self).wf(),
        ensures
            final(self).wf(),
            final(self).lookup() == old(self).lookup(),
            (forall|i: int|
                0 <= i < old(self).buffers().len() ==> old(self).buffers()[i].0 != chunk_pos)
                ==> final(self).buffers() == old(self).buffers().push((chunk_pos, buffer)),
            forall|i: int|
                0 <= i < old(self).buffers().len() && (#[trigger] old(self).buffers()[i]).0 == chunk_pos
                    ==> final(self).buffers() == old(self).buffers().update(i, (chunk_pos, buffer)),
            buffer_for(final(self).buffers(), chunk_pos) == Some(buffer),
            forall|p: (i32, i32)|
                p != chunk_pos ==> #[trigger] buffer_for(final(self).buffers(), p) == buffer_for(
                    old(self).buffers(),
                    p,
                ),
    {
        let mut i: usize = 0;
        let mut replaced = false;
        while i < self.stored_buffers.len()
            invariant_except_break
                i <= self.stored_buffers.len(),
                !replaced,
                forall|j: int| 0 <= j < i ==> self.stored_buffers@[j].0 != chunk_pos,
            invariant
                self.stored_buffers@ == old(self).stored_buffers@,
                self.mat_lookup == old(self).mat_lookup,
            ensures
                replaced ==> i < self.stored_buffers.len() && self.stored_buffers@[i as int].0
                    == chunk_pos,
                !replaced ==> forall|j: int|
                    0 <= j < self.stored_buffers.len() ==> self.stored_buffers@[j].0 != chunk_pos,
            decreases self.stored_buffers.len() - i,
        {
            let pos = self.stored_buffers[i].0;
            if pos.0 == chunk_pos.0 && pos.1 == chunk_pos.1 {
                replaced = true;
                break;
            }
            i += 1;
        }
        let ghost before = self.stored_buffers@;
        if replaced {
            self.stored_buffers.set(i, (chunk_pos, buffer));
            proof {
                lemma_store_keeps_other_buffers(before, self.stored_buffers@, i as int, chunk_pos, buffer);
            }
        } else {
            self.stored_buffers.push((chunk_pos, buffer));
            proof {
                lemma_store_keeps_other_buffers(
                    before,
                    self.stored_buffers@,
                    before.len() as int,
                    chunk_pos,
                    buffer,
                );
            }
        }
    }

    /// Drops the buffer stored for chunk `chunk_pos`, if any; the other entries keep their
    /// order.
    pub fn free_buffer(&mut self, chunk_pos: (i32, i32))
        requires
            old(self).wf(),
        ensures
            final(self).wf(),
            final(self).lookup() == old(self).lookup(),
            (forall|i: int|
                0 <= i < old(self).buffers().len() ==> old(self).buffers()[i].0 != chunk_pos)
                ==> final(self).buffers() == old(self).buffers(),
            forall|i: int|
                0 <= i < old(self).buffers().len() && (#[trigger] old(self).buffers()[i]).0 == chunk_pos
                    ==> final(self).buffers() == old(self).buffers().remove(i),
            buffer_for(final(self).buffers(), chunk_pos) == None::<B>,
            forall|p: (i32, i32)|
                p != chunk_pos ==> #[trigger] buffer_for(final(self).buffers(), p) == buffer_for(
                    old(self).buffers(),
                    p,
                ),
    {
        let mut to_free: Vec<usize> = Vec::new();
        let mut i: usize = 0;
        while i < self.stored_buffers.len()
            invariant
                i <= self.stored_buffers.len(),
                self.stored_buffers@ == old(self).stored_buffers@,
                self.mat_lookup == old(self).mat_lookup,
                positions_unique(self.stored_buffers@),
                forall|k: int| 0 <= k < to_free.len() ==> to_free@[k] < i && self.stored_buffers@[to_free@[k] as int].0 == chunk_pos,
                forall|j: int| 0 <= j < i && self.stored_buffers@[j].0 == chunk_pos ==> to_free@.contains(j as usize),
                to_free.len() <= 1,
            decreases self.stored_buffers.len() - i,
        {
            let pos = self.stored_buffers[i].0;
            if chunk_pos.0 == pos.0 && chunk_pos.1 == pos.1 {
                proof {
                    if to_free.len() == 1 {
                        assert(self.stored_buffers@[to_free@[0] as int].0 == chunk_pos);
                    }
                }
                let ghost prev = to_free@;
                to_free.push(i);
                proof {
                    assert forall|j: int|
                        0 <= j < i + 1 && self.stored_buffers@[j].0 == chunk_pos implies to_free@.contains(
                        j as usize,
                    ) by {
                        if j < i {
                            let n = choose|n: int| 0 <= n < prev.len() && prev[n] == j as usize;
                            assert(to_free@[n] == j as usize);
                        } else {
                            assert(to_free@[prev.len() as int] == i);
                        }
                    }
                }
            }
            i += 1;
        }
        let ghost before = self.stored_buffers@;
        let mut k: usize = 0;
        while k < to_free.len()
            invariant
                to_free.len() <= 1,
                k <= to_free.len(),
                forall|n: int| 0 <= n < to_free.len() ==> to_free@[n] < before.len(),
                k == 0 ==> self.stored_buffers@ == before,
                k == 1 ==> self.stored_buffers@ == before.remove(to_free@[0] as int),
                self.mat_lookup == old(self).mat_lookup,
            decreases to_free.len() - k,
        {
            self.stored_buffers.remove(to_free[k]);
            k += 1;
        }
        proof {
            let after = self.stored_buffers@;
            if to_free.len() == 1 {
                let idx = to_free@[0] as int;
                assert forall|a: int, b: int|
                    0 <= a < after.len() && 0 <= b < after.len() && a != b implies #[trigger] after[a].0
                    != #[trigger] after[b].0 by {
                    let a2 = if a < idx { a } else { a + 1 };
                    let b2 = if b < idx { b } else { b + 1 };
                    assert(after[a] == before[a2]);
                    assert(after[b] == before[b2]);
                }
                assert forall|p: (i32, i32)| p != chunk_pos implies #[trigger] buffer_for(after, p)
                    == buffer_for(before, p) by {
                    if exists|j: int| 0 <= j < before.len() && #[trigger] before[j].0 == p {
                        let j = choose|j: int| 0 <= j < before.len() && #[trigger] before[j].0 == p;
                        assert(j != idx);
                        let j2 = if j < idx { j } else { j - 1 };
                        assert(after[j2] == before[j]);
                    }
                    if exists|j: int| 0 <= j < after.len() && #[trigger] after[j].0 == p {
                        let j = choose|j: int| 0 <= j < after.len() && #[trigger] after[j].0 == p;
                        let j2 = if j < idx { j } else { j + 1 };
                        assert(after[j] == before[j2]);
                    }
                }
                if exists|j: int| 0 <= j < after.len() && #[trigger] after[j].0 == chunk_pos {
                    let j = choose|j: int| 0 <= j < after.len() && #[trigger] after[j].0 == chunk_pos;
                    let j2 = if j < idx { j } else { j + 1 };
                    assert(after[j] == before[j2]);
                }
            }
        }
    }
}

} // verus!
