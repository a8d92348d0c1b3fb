use swirly_world::world::{Cell, GroundMaterial, World};
use swirly_world::world_mesh::{shader_cell_order, ChunkMesh, WorldMesh};

#[test]
fn store_buffer_appends_then_replaces() {
    let mut mesh: WorldMesh<&str, u8> = WorldMesh::new(7);
    assert_eq!(mesh.mat_lookup, 7);
    mesh.store_buffer((0, 0), "a");
    mesh.store_buffer((1, 0), "b");
    mesh.store_buffer((0, 0), "c");
    assert_eq!(mesh.stored_buffers(), &vec![((0, 0), "c"), ((1, 0), "b")]);
}

#[test]
fn free_buffer_removes_only_that_chunk() {
    let mut mesh: WorldMesh<&str, ()> = WorldMesh::new(());
    mesh.store_buffer((0, 0), "a");
    mesh.store_buffer((1, 0), "b");
    mesh.store_buffer((2, 0), "c");
    mesh.free_buffer((1, 0));
    assert_eq!(mesh.stored_buffers(), &vec![((0, 0), "a"), ((2, 0), "c")]);
    mesh.free_buffer((9, 9));
    assert_eq!(mesh.stored_buffers().len(), 2);
}

#[test]
fn shader_order_is_column_major() {
    let mut world = World::new();
    let cells: Vec<Cell> = (0..1024).map(|i| Cell { value_bits: i, material: GroundMaterial::Brick }).collect();
    world.load_chunk((0, 0), &cells);
    let arr = world.get_chunk_cell_arr((0, 0));
    let order = shader_cell_order(&arr);
    assert_eq!(order.len(), 33 * 33);
    // Cell (x, y) = (2, 5) goes to 5 * 33 + 2 and holds generated index 2 * 32 + 5.
    assert_eq!(order[5 * 33 + 2].value_bits, 2 * 32 + 5);
    assert_eq!(order[0], cells[0]);
}

#[test]
fn chunk_mesh_keeps_its_vertices() {
    let _m = ChunkMesh::new((1, 2), vec![1u8, 2, 3]);
}
