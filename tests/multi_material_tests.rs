use symbios_mesh::LSystemMeshBuilder;

#[test]
fn test_multi_material_bucket_generation() {
    // Segment 0 starts at a point of material 0, segment 1 at one of material 1.
    let strands = vec![vec![0u8, 1u8, 1u8]];
    let layout = LSystemMeshBuilder::default().build(&strands);

    assert_eq!(layout.buckets.len(), 2, "Should generate 2 separate meshes");
    assert!(layout.bucket(0).is_some(), "Missing Material 0 bucket");
    assert!(layout.bucket(1).is_some(), "Missing Material 1 bucket");

    // Segment 0: 2 rings * (8 resolution + 1 wrap) = 18 verts
    assert_eq!(layout.vertex_count(0), 18, "Mesh 0 vertex count mismatch");
    // Segment 1: 2 rings * 9 verts = 18 verts
    assert_eq!(layout.vertex_count(1), 18, "Mesh 1 vertex count mismatch");
}
