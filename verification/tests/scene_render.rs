use vkrender::render::mesh_pool::MeshPool;
use vkrender::scene_render::{plan_draws, DrawCommand, DrawInstance};

#[test]
fn bindings_are_not_repeated() {
    let mut pool = MeshPool::new(1024, 4096, 4);
    let indexed = pool.alloc_mesh(32, 2, 3, 6).unwrap();
    let plain = pool.alloc_mesh(32, 0, 4, 0).unwrap();
    let meshes = vec![indexed, plain];
    let instances = vec![
        DrawInstance { mesh_id: 0, offset_bytes: 0 },
        DrawInstance { mesh_id: 0, offset_bytes: 128 },
        DrawInstance { mesh_id: 1, offset_bytes: 256 },
    ];
    let cmds = plan_draws(&meshes, &instances);
    assert!(cmds == vec![
        DrawCommand::BindVertexBuffer { vpool_id: 0 },
        DrawCommand::BindIndexBuffer { index_size: 2 },
        DrawCommand::BindInstance { offset: 0 },
        DrawCommand::DrawIndexed { index_count: 6, first_index: 0, vertex_offset: 0 },
        DrawCommand::BindInstance { offset: 128 },
        DrawCommand::DrawIndexed { index_count: 6, first_index: 0, vertex_offset: 0 },
        DrawCommand::BindVertexBuffer { vpool_id: 1 },
        DrawCommand::BindInstance { offset: 256 },
        DrawCommand::Draw { vertex_count: 4, first_vertex: 0 },
    ]);
}

#[test]
fn instance_offset_keeps_low_bits() {
    let mut pool = MeshPool::new(1024, 4096, 4);
    let plain = pool.alloc_mesh(32, 0, 4, 0).unwrap();
    let cmds = plan_draws(&vec![plain], &vec![DrawInstance { mesh_id: 0, offset_bytes: (1u64 << 32) + 64 }]);
    assert!(cmds[1] == DrawCommand::BindInstance { offset: 64 });
    assert!(plan_draws(&vec![plain], &Vec::new()).is_empty());
}
