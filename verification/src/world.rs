use vstd::prelude::*;
use std::collections::BTreeMap;
use crate::world_mesh::{WorldMesh, buffer_for};
use crate::grid::{CellGrid, grid_at, grid_cells, grid_shape, filled_cells};

verus! {

/// What a cell of the terrain is made of.
#[derive(Clone, Copy, Debug, Hash, PartialEq, Eq, Structural)]
pub enum GroundMaterial {
    Dirt,
    Stone,
    Brick,
}

impl Default for GroundMaterial {
    fn default() -> (r: GroundMaterial)
        ensures
            r == GroundMaterial::Dirt,
    {
        GroundMaterial::Dirt
    }
}

/// One terrain sample. `value_bits` is the bit pattern of the cell's density
/// (an `f32` in the game); the terrain store keeps and hands it back unchanged.
#[derive(Clone, Copy, Debug, PartialEq, Eq, Structural)]
pub struct Cell {
    pub value_bits: u32,
    pub material: GroundMaterial,
}

/// The cell that an unloaded position reads as: density bits 0 (the float 0.0), dirt.
pub open spec fn empty_cell() -> Cell {
    Cell { value_bits: 0, material: GroundMaterial::Dirt }
}

impl Default for Cell {
    fn default() -> (r: Cell)
        ensures
            r == empty_cell(),
    {
        Cell { value_bits: 0, material: GroundMaterial::Dirt }
    }
}

impl Cell {
    /// A dirt cell with the given density bits.
    pub fn new(value_bits: u32) -> (r: Cell)
        ensures
            r == (Cell { value_bits, material: GroundMaterial::Dirt }),
    {
        Cell { value_bits, material: GroundMaterial::Dirt }
    }
}

/// Number of cells along each axis of a chunk.
pub const CHUNK_SIZE: (usize, usize) = (32, 32);
/// `CHUNK_SIZE` as signed integers.
pub const CHUNK_SIZE_I32: (i32, i32) = (32, 32);

/// The chunk coordinate along one axis that `chunk_cell` gives for world coordinate `x`.
pub open spec fn spec_chunk_index(x: int) -> int {
    if x >= 0 {
        x / 32
    } else {
        -((-x) / 32) - 1
    }
}

/// The in-chunk cell index along one axis that `chunk_cell` gives for world coordinate `x`.
pub open spec fn spec_cell_index(x: int) -> int {
    if x >= 0 {
        x % 32
    } else {
        (-x) % 32
    }
}

/// Splits a world cell coordinate into its chunk coordinate and the cell index in that chunk.
pub fn chunk_cell(x: i32, y: i32) -> (r: (i32, i32, usize, usize))
    ensures
        r.0 == spec_chunk_index(x as int),
        r.1 == spec_chunk_index(y as int),
        r.2 == spec_cell_index(x as int),
        r.3 == spec_cell_index(y as int),
        r.2 < CHUNK_SIZE.0,
        r.3 < CHUNK_SIZE.1,
{
    let mut chunk_x = x / CHUNK_SIZE_I32.0;
    let mut chunk_y = y / CHUNK_SIZE_I32.1;
    if x < 0 {
        chunk_x -= 1;
    }
    if y < 0 {
        chunk_y -= 1;
    }
    let rem_x = x % CHUNK_SIZE_I32.0;
    let rem_y = y % CHUNK_SIZE_I32.1;
    let cell_x = (if rem_x < 0 { -rem_x } else { rem_x }) as usize;
    let cell_y = (if rem_y < 0 { -rem_y } else { rem_y }) as usize;
    (chunk_x, chunk_y, cell_x, cell_y)
}


/// Distinct world coordinates never share both their chunk coordinate and their cell index.
pub proof fn lemma_chunk_cell_injective(a: int, b: int)
    requires
        spec_chunk_index(a) == spec_chunk_index(b),
        spec_cell_index(a) == spec_cell_index(b),
    ensures
        a == b,
{
}

/// For non-negative coordinates, `cell_pos` undoes `chunk_cell`: the chunk coordinate
/// times the chunk size plus the cell index is the coordinate again, and a chunk
/// coordinate with an in-chunk index is split back into the same two parts.
pub proof fn lemma_cell_pos_inverts_chunk_cell(x: int, chunk: int, cell: int)
    ensures
        x >= 0 ==> spec_chunk_index(x) * 32 + spec_cell_index(x) == x,
        chunk >= 0 && 0 <= cell < 32 ==> spec_chunk_index(chunk * 32 + cell) == chunk
            && spec_cell_index(chunk * 32 + cell) == cell,
{
}

/// Converts a chunk coordinate and an in-chunk cell index into a world cell coordinate.
/// The index is converted with `as i32`, as the game does.
pub fn cell_pos(chunk_pos: (i32, i32), cell: (usize, usize)) -> (r: (i32, i32))
    requires
        i32::MIN <= chunk_pos.0 * 32 <= i32::MAX,
        i32::MIN <= chunk_pos.1 * 32 <= i32::MAX,
        i32::MIN <= chunk_pos.0 * 32 + (cell.0 as i32) <= i32::MAX,
        i32::MIN <= chunk_pos.1 * 32 + (cell.1 as i32) <= i32::MAX,
    ensures
        r.0 == chunk_pos.0 * 32 + (cell.0 as i32),
        r.1 == chunk_pos.1 * 32 + (cell.1 as i32),
{
    (
        chunk_pos.0 * CHUNK_SIZE_I32.0 + cell.0 as i32,
        chunk_pos.1 * CHUNK_SIZE_I32.1 + cell.1 as i32,
    )
}

/// A square block of terrain cells and whether its mesh must be rebuilt.
pub struct Chunk {
    pub cells: CellGrid,
    pub remesh_queued: bool,
}

impl Chunk {
    /// A chunk of `CHUNK_SIZE` empty cells, queued for meshing.
    pub fn new() -> (c: Chunk)
        ensures
            grid_shape(c.cells) == CHUNK_SIZE,
            grid_cells(c.cells) == filled_cells(32, 32, empty_cell()),
            c.remesh_queued,
    {
        Chunk { cells: CellGrid::filled(CHUNK_SIZE.0, CHUNK_SIZE.1, Cell::new(0)), remesh_queued: true }
    }
}

/// The cell that a grid holds at `(i, j)`, or the empty cell outside its shape.
pub open spec fn grid_cell_or_empty(g: CellGrid, i: usize, j: usize) -> Cell {
    match grid_at(g, i, j) {
        Some(c) => c,
        None => empty_cell(),
    }
}

/// The chunk key that world cell `(x, y)` falls in.
pub open spec fn chunk_key(x: i32, y: i32) -> (i32, i32) {
    (spec_chunk_index(x as int) as i32, spec_chunk_index(y as int) as i32)
}

/// How far, in chunks, the neighbour that shares the border at in-chunk index `i` lies:
/// -1 at the first index, 1 at the last, 0 in between.
pub open spec fn edge_offset(i: int) -> int {
    if i == 0 {
        -1
    } else if i == 32 - 1 {
        1
    } else {
        0
    }
}

/// The neighbouring chunks whose meshes `set_cell(x, y, _)` queues for rebuilding:
/// those across the border (or corner) that the cell touches.
pub open spec fn border_neighbours(x: i32, y: i32) -> Set<(i32, i32)> {
    let cx = spec_chunk_index(x as int);
    let cy = spec_chunk_index(y as int);
    let rx = edge_offset(spec_cell_index(x as int));
    let ry = edge_offset(spec_cell_index(y as int));
    Set::new(
        |k: (i32, i32)|
            (rx != 0 && k == ((cx + rx) as i32, cy as i32)) || ((rx != 0 || ry != 0) && k == (
                (cx + rx) as i32,
                (cy + ry) as i32,
            )) || (ry != 0 && k == (cx as i32, (cy + ry) as i32)),
    )
}

/// `new` is `old` with the remesh flag raised on every loaded chunk whose key is in `keys`,
/// and nothing else changed.
pub open spec fn flags_raised(
    old: Map<(i32, i32), Chunk>,
    new: Map<(i32, i32), Chunk>,
    keys: Set<(i32, i32)>,
) -> bool {
    &&& new.dom() == old.dom()
    &&& forall|k: (i32, i32)|
        #[trigger] old.contains_key(k) ==> new[k].cells == old[k].cells && new[k].remesh_queued == (
        old[k].remesh_queued || keys.contains(k))
}

/// Raising flags on `s` and then on `t` raises them on `s` and `t` together.
pub proof fn lemma_flags_raised_compose(
    a: Map<(i32, i32), Chunk>,
    b: Map<(i32, i32), Chunk>,
    c: Map<(i32, i32), Chunk>,
    s: Set<(i32, i32)>,
    t: Set<(i32, i32)>,
)
    requires
        flags_raised(a, b, s),
        flags_raised(b, c, t),
    ensures
        flags_raised(a, c, s.union(t)),
{
    assert forall|k: (i32, i32)| #[trigger] a.contains_key(k) implies c[k].cells == a[k].cells
        && c[k].remesh_queued == (a[k].remesh_queued || s.union(t).contains(k)) by {
        assert(b.contains_key(k));
    }
}

/// The eight chunks around `chunk_pos`, which `load_chunk` queues for meshing.
pub open spec fn surrounding(chunk_pos: (i32, i32)) -> Set<(i32, i32)> {
    Set::new(
        |k: (i32, i32)|
            -1 <= k.0 - chunk_pos.0 <= 1 && -1 <= k.1 - chunk_pos.1 <= 1 && k != chunk_pos,
    )
}

/// Whether `(i, j)` is a cell index inside a chunk.
pub open spec fn in_chunk(k: (usize, usize)) -> bool {
    k.0 < 32 && k.1 < 32
}

/// The contents of a chunk generated from `cells`, where the cell at index `(i, j)` is
/// `cells[i * 32 + j]`.
pub open spec fn chunk_from_cells(cells: Seq<Cell>) -> Map<(usize, usize), Cell> {
    Map::new(|k: (usize, usize)| in_chunk(k), |k: (usize, usize)| cells[k.0 * 32 + k.1])
}

/// The cell index that a world coordinate falls on is an index of every chunk.
pub proof fn lemma_cell_key_in_chunk(x: i32, y: i32)
    ensures
        in_chunk(cell_key(x, y)),
{
}

/// The in-chunk cell index `(i, j)` that world cell `(x, y)` falls on.
pub open spec fn cell_key(x: i32, y: i32) -> (usize, usize) {
    (spec_cell_index(x as int) as usize, spec_cell_index(y as int) as usize)
}

/// The loaded chunks of the terrain, keyed by chunk coordinate.
pub struct World {
    pub chunks: BTreeMap<(i32, i32), Chunk>,
}

impl World {
    /// The cell that `get_cell(x, y)` reads: the stored cell where its chunk is loaded,
    /// the empty cell elsewhere.
    pub open spec fn cell_at(self, x: i32, y: i32) -> Cell {
        let key = chunk_key(x, y);
        if self.chunks@.contains_key(key) {
            grid_cell_or_empty(self.chunks@[key].cells, cell_key(x, y).0, cell_key(x, y).1)
        } else {
            empty_cell()
        }
    }

    /// Every loaded chunk holds exactly the cells of a chunk: one per in-chunk index.
    pub open spec fn wf(self) -> bool {
        forall|k: (i32, i32)|
            #[trigger] self.chunks@.contains_key(k) ==> grid_cells(self.chunks@[k].cells).dom()
                == Set::new(|c: (usize, usize)| in_chunk(c))
    }

    /// `new` is this world after `load_chunk(chunk_pos, cells)`: unchanged where the chunk
    /// was loaded; otherwise the chunk is added with the given cells and queued for meshing,
    /// and the loaded chunks around it are queued too.
    pub open spec fn loads_chunk(self, new: World, chunk_pos: (i32, i32), cells: Seq<Cell>) -> bool {
        &&& self.chunks@.contains_key(chunk_pos) ==> new.chunks@ == self.chunks@
        &&& !self.chunks@.contains_key(chunk_pos) ==> {
            &&& new.chunks@.dom() == self.chunks@.dom().insert(chunk_pos)
            &&& flags_raised(self.chunks@, new.chunks@.remove(chunk_pos), surrounding(chunk_pos))
            &&& grid_shape(new.chunks@[chunk_pos].cells) == CHUNK_SIZE
            &&& grid_cells(new.chunks@[chunk_pos].cells) == chunk_from_cells(cells)
            &&& new.chunks@[chunk_pos].remesh_queued
        }
    }

    /// `new` is this world after `set_cell(x, y, value)`: the cell is written where its chunk
    /// is loaded and holds that index, which queues the chunk; the loaded neighbours across
    /// the borders the cell touches are queued; nothing else changes.
    pub open spec fn writes_cell(self, new: World, x: i32, y: i32, value: Cell) -> bool {
        &&& new.chunks@.dom() == self.chunks@.dom()
        &&& forall|k: (i32, i32)|
            #![trigger new.chunks@[k]]
            self.chunks@.contains_key(k) ==> {
                let before = self.chunks@[k];
                let after = new.chunks@[k];
                let written = k == chunk_key(x, y) && grid_cells(before.cells).contains_key(
                    cell_key(x, y),
                );
                &&& grid_shape(after.cells) == grid_shape(before.cells)
                &&& grid_cells(after.cells) == (if written {
                    grid_cells(before.cells).insert(cell_key(x, y), value)
                } else {
                    grid_cells(before.cells)
                })
                &&& after.remesh_queued == (before.remesh_queued || written || border_neighbours(
                    x,
                    y,
                ).contains(k))
            }
    }

    /// A world with no chunk loaded.
    pub fn new() -> (w: World)
        ensures
            w.wf(),
            w.chunks@ == Map::<(i32, i32), Chunk>::empty(),
    {
        World { chunks: BTreeMap::new() }
    }

    /// The cell at world coordinate `(x, y)`.
    pub fn get_cell(&self, x: i32, y: i32) -> (r: Cell)
        ensures
            r == self.cell_at(x, y),
    {
        broadcast use crate::key_laws::ordered_map_laws;
        let (chunk_x, chunk_y, cell_x, cell_y) = chunk_cell(x, y);
        if let Some(chunk) = self.chunks.get(&(chunk_x, chunk_y)) {
            return match chunk.cells.cell(cell_x, cell_y) {
                Some(c) => c,
                None => Cell::default(),
            };
        }
        Cell::default()
    }

    /// Queues the chunk at `chunk_pos` for meshing, if it is loaded.
    fn mark_remesh(&mut self, chunk_pos: (i32, i32))
        ensures
            flags_raised(old(self).chunks@, final(self).chunks@, set![chunk_pos]),
    {
        broadcast use crate::key_laws::ordered_map_laws;
        if let Some(mut chunk) = self.chunks.remove(&chunk_pos) {
            chunk.remesh_queued = true;
            self.chunks.insert(chunk_pos, chunk);
        }
        assert(final(self).chunks@.dom() =~= old(self).chunks@.dom());
    }

    /// Whether the chunk at `chunk_pos` is loaded and queued for meshing; the queue flag is
    /// cleared, so the chunk is handed out for meshing once per change.
    pub fn take_remesh(&mut self, chunk_pos: (i32, i32)) -> (queued: bool)
        ensures
            queued == (old(self).chunks@.contains_key(chunk_pos) && old(
                self,
            ).chunks@[chunk_pos].remesh_queued),
            old(self).chunks@.contains_key(chunk_pos) ==> final(self).chunks@ == old(
                self,
            ).chunks@.insert(
                chunk_pos,
                Chunk { cells: old(self).chunks@[chunk_pos].cells, remesh_queued: false },
            ),
            !old(self).chunks@.contains_key(chunk_pos) ==> final(self).chunks@ == old(
                self,
            ).chunks@,
            old(self).wf() ==> final(self).wf(),
    {
        broadcast use crate::key_laws::ordered_map_laws;
        if let Some(mut chunk) = self.chunks.remove(&chunk_pos) {
            let queued = chunk.remesh_queued;
            chunk.remesh_queued = false;
            self.chunks.insert(chunk_pos, chunk);
            proof {
                assert(self.chunks@ =~= old(self).chunks@.insert(
                    chunk_pos,
                    Chunk { cells: old(self).chunks@[chunk_pos].cells, remesh_queued: false },
                ));
            }
            queued
        } else {
            false
        }
    }

    /// The `(CHUNK_SIZE + 1)`-square block of cells that starts at chunk `chunk_pos`: the
    /// chunk's own cells and the first row and column of its neighbours, which the mesh of
    /// the chunk needs. The element at `(i, j)` is the cell at world coordinate
    /// `(chunk_pos.0 * 32 + i, chunk_pos.1 * 32 + j)`.
    pub fn get_chunk_cell_arr(&self, chunk_pos: (i32, i32)) -> (arr: CellGrid)
        requires
            i32::MIN <= chunk_pos.0 * 32,
            chunk_pos.0 * 32 + 32 <= i32::MAX,
            i32::MIN <= chunk_pos.1 * 32,
            chunk_pos.1 * 32 + 32 <= i32::MAX,
        ensures
            grid_shape(arr) == (33usize, 33usize),
            grid_cells(arr).dom() == Set::new(|k: (usize, usize)| k.0 < 33 && k.1 < 33),
            forall|i: usize, j: usize|
                i < 33 && j < 33 ==> #[trigger] grid_cells(arr)[(i, j)] == self.cell_at(
                    (chunk_pos.0 * 32 + i) as i32,
                    (chunk_pos.1 * 32 + j) as i32,
                ),
    {
        let mut arr = CellGrid::filled(CHUNK_SIZE.0 + 1, CHUNK_SIZE.1 + 1, Cell::default());
        let mut x: usize = 0;
        while x < CHUNK_SIZE.0 + 1
            invariant
                x <= 33,
                i32::MIN <= chunk_pos.0 * 32,
                chunk_pos.0 * 32 + 32 <= i32::MAX,
                i32::MIN <= chunk_pos.1 * 32,
                chunk_pos.1 * 32 + 32 <= i32::MAX,
                grid_shape(arr) == (33usize, 33usize),
                grid_cells(arr).dom() == Set::new(|k: (usize, usize)| k.0 < 33 && k.1 < 33),
                forall|i: usize, j: usize|
                    i < x && j < 33 ==> #[trigger] grid_cells(arr)[(i, j)] == self.cell_at(
                        (chunk_pos.0 * 32 + i) as i32,
                        (chunk_pos.1 * 32 + j) as i32,
                    ),
            decreases 33 - x,
        {
            let mut y: usize = 0;
            while y < CHUNK_SIZE.1 + 1
                invariant
                    x < 33,
                    y <= 33,
                    i32::MIN <= chunk_pos.0 * 32,
                    chunk_pos.0 * 32 + 32 <= i32::MAX,
                    i32::MIN <= chunk_pos.1 * 32,
                    chunk_pos.1 * 32 + 32 <= i32::MAX,
                    grid_shape(arr) == (33usize, 33usize),
                    grid_cells(arr).dom() == Set::new(|k: (usize, usize)| k.0 < 33 && k.1 < 33),
                    forall|i: usize, j: usize|
                        (i < x && j < 33) || (i == x && j < y) ==> #[trigger] grid_cells(arr)[(
                            i,
                            j,
                        )] == self.cell_at(
                            (chunk_pos.0 * 32 + i) as i32,
                            (chunk_pos.1 * 32 + j) as i32,
                        ),
                decreases 33 - y,
            {
                let cell = self.get_cell(
                    chunk_pos.0 * CHUNK_SIZE_I32.0 + x as i32,
                    chunk_pos.1 * CHUNK_SIZE_I32.1 + y as i32,
                );
                assert(grid_cells(arr).contains_key((x, y)));
                arr.set_elem(x, y, cell);
                y += 1;
            }
            x += 1;
        }
        arr
    }

    /// Loads the chunk at `chunk_pos` with the generated `cells`, where the cell at index
    /// `(i, j)` is `cells[i * 32 + j]`, and queues the eight surrounding chunks that are loaded
    /// for meshing. A chunk that is already loaded is left as it is.
    pub fn load_chunk(&mut self, chunk_pos: (i32, i32), cells: &Vec<Cell>)
        requires
            !old(self).chunks@.contains_key(chunk_pos) ==> {
                &&& cells.len() == 32 * 32
                &&& i32::MIN < chunk_pos.0 < i32::MAX
                &&& i32::MIN < chunk_pos.1 < i32::MAX
            },
        ensures
            old(self).loads_chunk(*final(self), chunk_pos, cells@),
            old(self).wf() ==> final(self).wf(),
            !old(self).chunks@.contains_key(chunk_pos) ==> forall|x: i32, y: i32|
                chunk_key(x, y) == chunk_pos ==> #[trigger] final(self).cell_at(x, y)
                    == cells@[cell_key(x, y).0 * 32 + cell_key(x, y).1],
            forall|x: i32, y: i32|
                chunk_key(x, y) != chunk_pos ==> #[trigger] final(self).cell_at(x, y) == old(
                    self,
                ).cell_at(x, y),
    {
        broadcast use crate::key_laws::ordered_map_laws;
        if self.chunks.contains_key(&chunk_pos) {
            return ;
        }
        let offsets: [(i32, i32); 8] = [
            (1, 0),
            (0, 1),
            (1, 1),
            (1, -1),
            (-1, 0),
            (0, -1),
            (-1, -1),
            (-1, 1),
        ];
        let ghost start = self.chunks@;
        let mut n: usize = 0;
        while n < 8
            invariant
                0 <= n <= 8,
                i32::MIN < chunk_pos.0 < i32::MAX,
                i32::MIN < chunk_pos.1 < i32::MAX,
                !self.chunks@.contains_key(chunk_pos),
                offsets@ == seq![
                    (1i32, 0i32),
                    (0i32, 1i32),
                    (1i32, 1i32),
                    (1i32, -1i32),
                    (-1i32, 0i32),
                    (0i32, -1i32),
                    (-1i32, -1i32),
                    (-1i32, 1i32),
                ],
                flags_raised(
                    start,
                    self.chunks@,
                    Set::new(
                        |k: (i32, i32)|
                            exists|m: int|
                                0 <= m < n && k == (
                                    (chunk_pos.0 + offsets@[m].0) as i32,
                                    (chunk_pos.1 + offsets@[m].1) as i32,
                                ),
                    ),
                ),
            decreases 8 - n,
        {
            let (dx, dy) = offsets[n];
            let ghost before = self.chunks@;
            let key = (chunk_pos.0 + dx, chunk_pos.1 + dy);
            self.mark_remesh(key);
            proof {
                let done = Set::new(
                    |k: (i32, i32)|
                        exists|m: int|
                            0 <= m < n && k == (
                                (chunk_pos.0 + offsets@[m].0) as i32,
                                (chunk_pos.1 + offsets@[m].1) as i32,
                            ),
                );
                let next = Set::new(
                    |k: (i32, i32)|
                        exists|m: int|
                            0 <= m < n + 1 && k == (
                                (chunk_pos.0 + offsets@[m].0) as i32,
                                (chunk_pos.1 + offsets@[m].1) as i32,
                            ),
                );
                lemma_flags_raised_compose(
                    start,
                    before,
                    self.chunks@,
                    done,
                    set![key],
                );
                assert(done.union(set![key]) =~= next) by {
                    assert forall|k: (i32, i32)| next.contains(k) implies done.union(
                        set![key],
                    ).contains(k) by {
                        let m = choose|m: int|
                            0 <= m < n + 1 && k == (
                                (chunk_pos.0 + offsets@[m].0) as i32,
                                (chunk_pos.1 + offsets@[m].1) as i32,
                            );
                        if m < n {
                            assert(done.contains(k));
                        }
                    }
                    assert forall|k: (i32, i32)|
                        done.union(set![key]).contains(
                            k,
                        ) implies next.contains(k) by {
                        if k == key {
                            assert(0 <= n < n + 1);
                        } else {
                            let m = choose|m: int|
                                0 <= m < n && k == (
                                    (chunk_pos.0 + offsets@[m].0) as i32,
                                    (chunk_pos.1 + offsets@[m].1) as i32,
                                );
                            assert(0 <= m < n + 1);
                        }
                    }
                }
            }
            n += 1;
        }
        proof {
            let done = Set::new(
                |k: (i32, i32)|
                    exists|m: int|
                        0 <= m < 8 && k == (
                            (chunk_pos.0 + offsets@[m].0) as i32,
                            (chunk_pos.1 + offsets@[m].1) as i32,
                        ),
            );
            assert(done =~= surrounding(chunk_pos)) by {
                assert forall|k: (i32, i32)| surrounding(chunk_pos).contains(k) implies done.contains(
                    k,
                ) by {
                    let dx = k.0 - chunk_pos.0;
                    let dy = k.1 - chunk_pos.1;
                    if dx == 1 && dy == 0 {
                        assert(k == ((chunk_pos.0 + offsets@[0].0) as i32, (chunk_pos.1 + offsets@[0].1) as i32));
                    } else if dx == 0 && dy == 1 {
                        assert(k == ((chunk_pos.0 + offsets@[1].0) as i32, (chunk_pos.1 + offsets@[1].1) as i32));
                    } else if dx == 1 && dy == 1 {
                        assert(k == ((chunk_pos.0 + offsets@[2].0) as i32, (chunk_pos.1 + offsets@[2].1) as i32));
                    } else if dx == 1 && dy == -1 {
                        assert(k == ((chunk_pos.0 + offsets@[3].0) as i32, (chunk_pos.1 + offsets@[3].1) as i32));
                    } else if dx == -1 && dy == 0 {
                        assert(k == ((chunk_pos.0 + offsets@[4].0) as i32, (chunk_pos.1 + offsets@[4].1) as i32));
                    } else if dx == 0 && dy == -1 {
                        assert(k == ((chunk_pos.0 + offsets@[5].0) as i32, (chunk_pos.1 + offsets@[5].1) as i32));
                    } else if dx == -1 && dy == -1 {
                        assert(k == ((chunk_pos.0 + offsets@[6].0) as i32, (chunk_pos.1 + offsets@[6].1) as i32));
                    } else {
                        assert(k == ((chunk_pos.0 + offsets@[7].0) as i32, (chunk_pos.1 + offsets@[7].1) as i32));
                    }
                }
            }
        }
        let ghost neighbours_done = self.chunks@;
        let mut chunk = Chunk::new();
        let mut cell_x: usize = 0;
        while cell_x < CHUNK_SIZE.0
            invariant
                cell_x <= 32,
                cells.len() == 32 * 32,
                grid_shape(chunk.cells) == CHUNK_SIZE,
                chunk.remesh_queued,
                grid_cells(chunk.cells).dom() == Set::new(|k: (usize, usize)| in_chunk(k)),
                forall|k: (usize, usize)|
                    #![trigger grid_cells(chunk.cells)[k]]
                    in_chunk(k) ==> grid_cells(chunk.cells)[k] == (if k.0 < cell_x {
                        cells@[k.0 * 32 + k.1]
                    } else {
                        empty_cell()
                    }),
            decreases 32 - cell_x,
        {
            let mut cell_y: usize = 0;
            while cell_y < CHUNK_SIZE.1
                invariant
                    cell_x < 32,
                    cell_y <= 32,
                    cells.len() == 32 * 32,
                    grid_shape(chunk.cells) == CHUNK_SIZE,
                    chunk.remesh_queued,
                    grid_cells(chunk.cells).dom() == Set::new(|k: (usize, usize)| in_chunk(k)),
                    forall|k: (usize, usize)|
                        #![trigger grid_cells(chunk.cells)[k]]
                        in_chunk(k) ==> grid_cells(chunk.cells)[k] == (if k.0 < cell_x || (k.0
                            == cell_x && k.1 < cell_y) {
                            cells@[k.0 * 32 + k.1]
                        } else {
                            empty_cell()
                        }),
                decreases 32 - cell_y,
            {
                let ghost before = grid_cells(chunk.cells);
                assert(before.contains_key((cell_x, cell_y)));
                chunk.cells.set_elem(cell_x, cell_y, cells[cell_x * CHUNK_SIZE.1 + cell_y]);
                cell_y += 1;
            }
            cell_x += 1;
        }
        assert(grid_cells(chunk.cells) =~= chunk_from_cells(cells@));
        self.chunks.insert(chunk_pos, chunk);
        assert(self.chunks@.remove(chunk_pos) =~= neighbours_done);
        assert forall|x: i32, y: i32| chunk_key(x, y) != chunk_pos implies #[trigger] self.cell_at(x, y)
            == old(self).cell_at(x, y) by {
            let k = chunk_key(x, y);
            if old(self).chunks@.contains_key(k) {
                assert(neighbours_done.contains_key(k));
            }
        }
        assert forall|x: i32, y: i32| chunk_key(x, y) == chunk_pos implies #[trigger] self.cell_at(x, y)
            == cells@[cell_key(x, y).0 * 32 + cell_key(x, y).1] by {
            assert(in_chunk(cell_key(x, y)));
        }
    }

    /// Drops the chunk at `chunk_pos` and the mesh buffer stored for it.
    pub fn unload_chunk<B, L>(&mut self, world_mesh: &mut WorldMesh<B, L>, chunk_pos: (i32, i32))
        requires
            old(world_mesh).wf(),
        ensures
            final(self).chunks@ == old(self).chunks@.remove(chunk_pos),
            old(self).wf() ==> final(self).wf(),
            final(world_mesh).wf(),
            final(world_mesh).lookup() == old(world_mesh).lookup(),
            buffer_for(final(world_mesh).buffers(), chunk_pos) == None::<B>,
            forall|p: (i32, i32)|
                p != chunk_pos ==> #[trigger] buffer_for(final(world_mesh).buffers(), p)
                    == buffer_for(old(world_mesh).buffers(), p),
            forall|i: int|
                0 <= i < old(world_mesh).buffers().len() && old(world_mesh).buffers()[i].0
                    == chunk_pos ==> final(world_mesh).buffers() == old(
                    world_mesh,
                ).buffers().remove(i),
            (forall|i: int|
                0 <= i < old(world_mesh).buffers().len() ==> old(world_mesh).buffers()[i].0
                    != chunk_pos) ==> final(world_mesh).buffers() == old(world_mesh).buffers(),
            forall|x: i32, y: i32|
                chunk_key(x, y) == chunk_pos ==> #[trigger] final(self).cell_at(x, y)
                    == empty_cell(),
            forall|x: i32, y: i32|
                chunk_key(x, y) != chunk_pos ==> #[trigger] final(self).cell_at(x, y) == old(
                    self,
                ).cell_at(x, y),
    {
        broadcast use crate::key_laws::ordered_map_laws;
        self.chunks.remove(&chunk_pos);
        world_mesh.free_buffer(chunk_pos);
    }

    /// Writes `value` at world coordinate `(x, y)`. A chunk that is not loaded is loaded
    /// first from `generated` (as `load_chunk` does; `generated` is not read otherwise). The
    /// cell's chunk is queued for meshing, and so is every loaded neighbour across the border
    /// the cell touches.
    pub fn set_cell(&mut self, x: i32, y: i32, value: Cell, generated: &Vec<Cell>)
        requires
            !old(self).chunks@.contains_key(chunk_key(x, y)) ==> generated.len() == 32 * 32,
        ensures
            old(self).chunks@.contains_key(chunk_key(x, y)) ==> old(self).writes_cell(
                *final(self),
                x,
                y,
                value,
            ),
            !old(self).chunks@.contains_key(chunk_key(x, y)) ==> exists|loaded: World|
                old(self).loads_chunk(loaded, chunk_key(x, y), generated@)
                    && #[trigger] loaded.writes_cell(*final(self), x, y, value),
            final(self).chunks@.dom() == old(self).chunks@.dom().insert(chunk_key(x, y)),
            old(self).wf() ==> final(self).wf(),
            old(self).wf() || !old(self).chunks@.contains_key(chunk_key(x, y)) ==> {
                &&& final(self).cell_at(x, y) == value
                &&& final(self).chunks@[chunk_key(x, y)].remesh_queued
            },
            forall|x2: i32, y2: i32|
                (x2, y2) != (x, y) ==> #[trigger] final(self).cell_at(x2, y2) == (if !old(
                    self,
                ).chunks@.contains_key(chunk_key(x, y)) && chunk_key(x2, y2) == chunk_key(x, y) {
                    generated@[cell_key(x2, y2).0 * 32 + cell_key(x2, y2).1]
                } else {
                    old(self).cell_at(x2, y2)
                }),
    {
        broadcast use crate::key_laws::ordered_map_laws;
        let (chunk_x, chunk_y, _, _) = chunk_cell(x, y);
        if !self.chunks.contains_key(&(chunk_x, chunk_y)) {
            self.load_chunk((chunk_x, chunk_y), generated);
            let ghost loaded = *self;
            proof {
                lemma_cell_key_in_chunk(x, y);
            }
            assert(grid_cells(loaded.chunks@[chunk_key(x, y)].cells).contains_key(cell_key(x, y)));
            self.write_loaded_cell(x, y, value);
            assert(loaded.writes_cell(*self, x, y, value));
            assert(self.chunks@.dom() =~= old(self).chunks@.dom().insert(chunk_key(x, y)));
            assert(self.chunks@.contains_key(chunk_key(x, y)));
        } else {
            self.write_loaded_cell(x, y, value);
            assert(self.chunks@.dom() =~= old(self).chunks@.dom().insert(chunk_key(x, y)));
            proof {
                lemma_cell_key_in_chunk(x, y);
            }
        }
    }

    /// Writes `value` at world coordinate `(x, y)` when its chunk is loaded, queues that chunk
    /// for meshing, and queues every loaded neighbour across the border the cell touches.
    fn write_loaded_cell(&mut self, x: i32, y: i32, value: Cell)
        ensures
            old(self).writes_cell(*final(self), x, y, value),
            old(self).wf() ==> final(self).wf(),
            old(self).wf() && old(self).chunks@.contains_key(chunk_key(x, y)) ==> final(self).cell_at(
                x,
                y,
            ) == value,
            old(self).chunks@.contains_key(chunk_key(x, y)) && grid_cells(
                old(self).chunks@[chunk_key(x, y)].cells,
            ).contains_key(cell_key(x, y)) ==> final(self).cell_at(x, y) == value,
            forall|x2: i32, y2: i32|
                (x2, y2) != (x, y) ==> #[trigger] final(self).cell_at(x2, y2) == old(self).cell_at(
                    x2,
                    y2,
                ),
    {
        broadcast use crate::key_laws::ordered_map_laws;
        let (chunk_x, chunk_y, cell_x, cell_y) = chunk_cell(x, y);
        if let Some(mut chunk) = self.chunks.remove(&(chunk_x, chunk_y)) {
            if chunk.cells.set_elem(cell_x, cell_y, value) {
                chunk.remesh_queued = true;
            }
            self.chunks.insert((chunk_x, chunk_y), chunk);
        }
        let ghost written_map = self.chunks@;
        assert(written_map.dom() =~= old(self).chunks@.dom());
        let remesh_x: i32 = if cell_x == 0 {
            -1
        } else if cell_x == CHUNK_SIZE.0 - 1 {
            1
        } else {
            0
        };
        let remesh_y: i32 = if cell_y == 0 {
            -1
        } else if cell_y == CHUNK_SIZE.1 - 1 {
            1
        } else {
            0
        };
        let ghost m0 = self.chunks@;
        if remesh_x != 0 {
            self.mark_remesh((chunk_x + remesh_x, chunk_y));
        }
        let ghost m1 = self.chunks@;
        if remesh_x != 0 || remesh_y != 0 {
            self.mark_remesh((chunk_x + remesh_x, chunk_y + remesh_y));
        }
        let ghost m2 = self.chunks@;
        if remesh_y != 0 {
            self.mark_remesh((chunk_x, chunk_y + remesh_y));
        }
        assert forall|k: (i32, i32)| #[trigger] old(self).chunks@.contains_key(k) implies
            self.chunks@[k].cells == written_map[k].cells && self.chunks@[k].remesh_queued == (
            written_map[k].remesh_queued || border_neighbours(x, y).contains(k)) by {
            assert(m0.contains_key(k));
            assert(m1.contains_key(k));
            assert(m2.contains_key(k));
        }
        proof {
            if old(self).wf() {
                assert forall|k: (i32, i32)| #[trigger] self.chunks@.contains_key(k) implies grid_cells(
                    self.chunks@[k].cells,
                ).dom() == Set::new(|c: (usize, usize)| in_chunk(c)) by {
                    assert(old(self).chunks@.contains_key(k));
                    let before = grid_cells(old(self).chunks@[k].cells);
                    if k == chunk_key(x, y) && before.contains_key(cell_key(x, y)) {
                        assert(before.insert(cell_key(x, y), value).dom() =~= before.dom());
                    }
                }
            }
        }
        assert forall|x2: i32, y2: i32| (x2, y2) != (x, y) implies #[trigger] self.cell_at(x2, y2)
            == old(self).cell_at(x2, y2) by {
            if chunk_key(x2, y2) == chunk_key(x, y) && cell_key(x2, y2) == cell_key(x, y) {
                lemma_chunk_cell_injective(x as int, x2 as int);
                lemma_chunk_cell_injective(y as int, y2 as int);
            }
        }
    }
}

/// Loading a chunk twice has the effect of loading it once: the second `load_chunk` at the
/// same position finds the chunk loaded and changes nothing, whatever cells it is given.
pub proof fn lemma_load_chunk_idempotent(
    w0: World,
    w1: World,
    w2: World,
    chunk_pos: (i32, i32),
    first: Seq<Cell>,
    second: Seq<Cell>,
)
    requires
        w0.loads_chunk(w1, chunk_pos, first),
        w1.loads_chunk(w2, chunk_pos, second),
    ensures
        w2.chunks@ == w1.chunks@,
        w1.loads_chunk(w2, chunk_pos, first),
{
    assert(w1.chunks@.contains_key(chunk_pos));
}

/// How many chunk steps apart two chunk keys are, counting a diagonal step as one.
pub open spec fn chunk_distance(a: (i32, i32), b: (i32, i32)) -> int {
    let dx = if a.0 >= b.0 { a.0 - b.0 } else { b.0 - a.0 };
    let dy = if a.1 >= b.1 { a.1 - b.1 } else { b.1 - a.1 };
    if dx >= dy { dx } else { dy }
}

/// Loading a chunk that was not loaded queues it and every loaded chunk one step away, the
/// diagonals included: among them each chunk whose 33-by-33 meshing block reads a row or
/// column of the new chunk. No other chunk's flag changes, and no loaded chunk's cells do.
pub proof fn lemma_load_queues_neighbours(
    w0: World,
    w1: World,
    chunk_pos: (i32, i32),
    cells: Seq<Cell>,
    k: (i32, i32),
)
    requires
        w0.loads_chunk(w1, chunk_pos, cells),
        !w0.chunks@.contains_key(chunk_pos),
        w0.chunks@.contains_key(k),
    ensures
        w1.chunks@.contains_key(chunk_pos),
        w1.chunks@[chunk_pos].remesh_queued,
        w1.chunks@.contains_key(k),
        w1.chunks@[k].cells == w0.chunks@[k].cells,
        w1.chunks@[k].remesh_queued == (w0.chunks@[k].remesh_queued || chunk_distance(k, chunk_pos)
            == 1),
        0 <= chunk_pos.0 - k.0 <= 1 && 0 <= chunk_pos.1 - k.1 <= 1 ==> w1.chunks@[k].remesh_queued,
{
    let rest = w1.chunks@.remove(chunk_pos);
    assert(rest.contains_key(k));
    assert(rest[k] == w1.chunks@[k]);
}

} // verus!
