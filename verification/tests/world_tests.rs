use swirly_world::grid::CellGrid;
use swirly_world::world::{cell_pos, chunk_cell, Cell, Chunk, GroundMaterial, World, CHUNK_SIZE};
use swirly_world::world_mesh::WorldMesh;

fn stone(bits: u32) -> Cell {
    Cell { value_bits: bits, material: GroundMaterial::Stone }
}

fn generated(seed: u32) -> Vec<Cell> {
    (0..32 * 32).map(|i| stone(seed + i as u32)).collect()
}

#[test]
fn chunk_cell_splits_positive_coordinates() {
    assert_eq!(chunk_cell(0, 0), (0, 0, 0, 0));
    assert_eq!(chunk_cell(31, 32), (0, 1, 31, 0));
    assert_eq!(chunk_cell(70, 5), (2, 0, 6, 5));
}

#[test]
fn chunk_cell_splits_negative_coordinates() {
    // Negative coordinates step one chunk down and keep the remainder's magnitude.
    assert_eq!(chunk_cell(-1, -31), (-1, -1, 1, 31));
    assert_eq!(chunk_cell(-32, -33), (-2, -2, 0, 1));
    assert_eq!(chunk_cell(i32::MIN, i32::MAX), (-67108865, 67108863, 0, 31));
}

#[test]
fn cell_pos_joins_chunk_and_cell() {
    assert_eq!(cell_pos((0, 0), (5, 7)), (5, 7));
    assert_eq!(cell_pos((2, -3), (1, 31)), (65, -65));
}

#[test]
fn cell_pos_undoes_chunk_cell_for_non_negative_coordinates() {
    for x in [0, 1, 31, 32, 33, 1000, 123456] {
        let (cx, cy, ix, iy) = chunk_cell(x, x + 7);
        assert_eq!(cell_pos((cx, cy), (ix, iy)), (x, x + 7));
    }
}

#[test]
fn cell_pos_does_not_undo_chunk_cell_below_zero() {
    let (cx, cy, ix, iy) = chunk_cell(-1, -1);
    assert_eq!(cell_pos((cx, cy), (ix, iy)), (-31, -31));
}

#[test]
fn unloaded_world_reads_empty_cells() {
    let world = World::new();
    assert_eq!(world.get_cell(5, -9), Cell::default());
    assert_eq!(Cell::default(), Cell { value_bits: 0, material: GroundMaterial::Dirt });
    assert_eq!(GroundMaterial::default(), GroundMaterial::Dirt);
    assert_eq!(Cell::new(7), Cell { value_bits: 7, material: GroundMaterial::Dirt });
}

#[test]
fn new_chunk_is_empty_and_queued() {
    let chunk = Chunk::new();
    assert!(chunk.remesh_queued);
    assert_eq!(chunk.cells.shape(), CHUNK_SIZE);
    assert_eq!(chunk.cells.cell(31, 31), Some(Cell::default()));
    assert_eq!(chunk.cells.cell(32, 0), None);
}

#[test]
fn load_chunk_stores_generated_cells() {
    let mut world = World::new();
    world.load_chunk((1, 0), &generated(100));
    assert_eq!(world.get_cell(32, 0), stone(100));
    assert_eq!(world.get_cell(33, 2), stone(100 + 32 + 2));
    assert_eq!(world.get_cell(63, 31), stone(100 + 31 * 32 + 31));
    assert_eq!(world.get_cell(31, 0), Cell::default());
}

#[test]
fn load_chunk_keeps_a_loaded_chunk() {
    let mut world = World::new();
    world.load_chunk((0, 0), &generated(1));
    world.take_remesh((0, 0));
    world.load_chunk((0, 0), &generated(500));
    assert_eq!(world.get_cell(0, 0), stone(1));
    assert!(!world.chunks[&(0, 0)].remesh_queued);
}

#[test]
fn load_chunk_queues_loaded_neighbours() {
    let mut world = World::new();
    world.load_chunk((0, 0), &generated(0));
    world.load_chunk((5, 5), &generated(0));
    assert!(world.take_remesh((0, 0)));
    assert!(world.take_remesh((5, 5)));
    world.load_chunk((1, 1), &generated(0));
    assert!(world.chunks[&(0, 0)].remesh_queued);
    assert!(!world.chunks[&(5, 5)].remesh_queued);
    assert!(world.chunks[&(1, 1)].remesh_queued);
}

#[test]
fn take_remesh_hands_out_a_chunk_once() {
    let mut world = World::new();
    assert!(!world.take_remesh((0, 0)));
    world.load_chunk((0, 0), &generated(0));
    assert!(world.take_remesh((0, 0)));
    assert!(!world.take_remesh((0, 0)));
}

#[test]
fn set_cell_then_get_cell_reads_the_value() {
    let mut world = World::new();
    world.load_chunk((0, 0), &generated(0));
    world.set_cell(10, 12, stone(9999), &Vec::new());
    assert_eq!(world.get_cell(10, 12), stone(9999));
    assert_eq!(world.get_cell(12, 10), stone(12 * 32 + 10));
}

#[test]
fn set_cell_in_unloaded_chunk_loads_it_first() {
    let mut world = World::new();
    world.set_cell(33, 5, stone(9999), &generated(100));
    assert_eq!(world.chunks.len(), 1);
    assert!(world.chunks.contains_key(&(1, 0)));
    assert_eq!(world.get_cell(33, 5), stone(9999));
    assert_eq!(world.get_cell(34, 7), stone(100 + 2 * 32 + 7));
    assert!(world.chunks[&(1, 0)].remesh_queued);
}

#[test]
fn set_cell_at_the_origin_of_a_fresh_world_reads_back() {
    let mut world = World::new();
    world.set_cell(0, 0, stone(7), &generated(0));
    assert_eq!(world.get_cell(0, 0), stone(7));
    assert!(world.chunks[&(0, 0)].remesh_queued);
}

#[test]
fn set_cell_in_a_loaded_chunk_ignores_the_generated_cells() {
    let mut world = World::new();
    world.load_chunk((0, 0), &generated(0));
    world.set_cell(1, 1, stone(5), &Vec::new());
    assert_eq!(world.chunks.len(), 1);
    assert_eq!(world.get_cell(1, 1), stone(5));
    assert_eq!(world.get_cell(2, 1), stone(2 * 32 + 1));
}

#[test]
fn load_chunk_on_a_loaded_edge_chunk_changes_nothing() {
    let mut world = World::new();
    world.set_cell(i32::MAX, i32::MAX, stone(1), &generated(0));
    let key = (i32::MAX / 32, i32::MAX / 32);
    world.take_remesh(key);
    world.load_chunk(key, &generated(50));
    assert_eq!(world.chunks.len(), 1);
    assert_eq!(world.get_cell(i32::MAX, i32::MAX), stone(1));
    assert!(!world.chunks[&key].remesh_queued);
}

#[test]
fn set_cell_queues_the_chunk_and_border_neighbours() {
    let mut world = World::new();
    for pos in [(0, 0), (-1, 0), (-1, -1), (0, -1), (1, 0)] {
        world.load_chunk(pos, &generated(0));
    }
    for pos in [(0, 0), (-1, 0), (-1, -1), (0, -1), (1, 0)] {
        world.take_remesh(pos);
    }
    // The corner cell (0, 0) of chunk (0, 0) touches the chunks to the left and above.
    world.set_cell(0, 0, stone(3), &Vec::new());
    assert!(world.chunks[&(0, 0)].remesh_queued);
    assert!(world.chunks[&(-1, 0)].remesh_queued);
    assert!(world.chunks[&(-1, -1)].remesh_queued);
    assert!(world.chunks[&(0, -1)].remesh_queued);
    assert!(!world.chunks[&(1, 0)].remesh_queued);
}

#[test]
fn set_cell_in_the_middle_queues_only_its_chunk() {
    let mut world = World::new();
    world.load_chunk((0, 0), &generated(0));
    world.load_chunk((1, 0), &generated(0));
    world.take_remesh((0, 0));
    world.take_remesh((1, 0));
    world.set_cell(15, 15, stone(3), &Vec::new());
    assert!(world.chunks[&(0, 0)].remesh_queued);
    assert!(!world.chunks[&(1, 0)].remesh_queued);
}

#[test]
fn chunk_cell_array_includes_the_neighbour_border() {
    let mut world = World::new();
    world.load_chunk((0, 0), &generated(0));
    world.load_chunk((1, 0), &generated(2000));
    let arr = world.get_chunk_cell_arr((0, 0));
    assert_eq!(arr.shape(), (33, 33));
    assert_eq!(arr.cell(3, 4), Some(stone(3 * 32 + 4)));
    assert_eq!(arr.cell(32, 4), Some(stone(2000 + 4)));
    assert_eq!(arr.cell(4, 32), Some(Cell::default()));
    assert_eq!(arr.cell(33, 0), None);
}

#[test]
fn unload_chunk_drops_cells_and_buffer() {
    let mut world = World::new();
    let mut mesh: WorldMesh<u32, ()> = WorldMesh::new(());
    world.load_chunk((0, 0), &generated(1));
    world.load_chunk((1, 0), &generated(1));
    mesh.store_buffer((0, 0), 10);
    mesh.store_buffer((1, 0), 11);
    world.unload_chunk(&mut mesh, (0, 0));
    assert_eq!(world.get_cell(0, 0), Cell::default());
    assert_eq!(world.get_cell(32, 0), stone(1));
    assert_eq!(mesh.stored_buffers(), &vec![((1, 0), 11)]);
}

#[test]
fn grid_reads_what_it_was_filled_with() {
    let chunk = Chunk::new();
    let grid: &CellGrid = &chunk.cells;
    assert_eq!(grid.cell(0, 0), Some(Cell::default()));
    assert_eq!(grid.cell(0, 32), None);
}
