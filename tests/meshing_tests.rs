use symbios_mesh::mesher::{MeshLayout, RingRef};
use symbios_mesh::LSystemMeshBuilder;

fn vertex_count(layout: &MeshLayout, material_id: u8) -> usize {
    layout.vertex_count(material_id)
}

fn index_count(layout: &MeshLayout, material_id: u8) -> usize {
    layout.bucket(material_id).map(|b| b.indices.len()).unwrap_or(0)
}

#[test]
fn test_mesh_generation_basics() {
    // A single two-point strand of material 0.
    let strands = vec![vec![0u8, 0u8]];
    let builder = LSystemMeshBuilder::default();
    let layout = builder.build(&strands);

    let bucket = layout
        .bucket(0)
        .expect("Mesh for material 0 not generated");
    // 2 rings * (8 resolution + 1 duplicate for wrapping) = 18 verts
    assert_eq!(bucket.rings.len(), 2);
    assert_eq!(vertex_count(&layout, 0), 18);
    // 8 quads * 6 indices = 48 indices
    assert_eq!(bucket.indices.len(), 48);
}

#[test]
fn test_empty_skeleton() {
    let strands: Vec<Vec<u8>> = vec![];
    let layout = LSystemMeshBuilder::default().build(&strands);
    assert!(layout.buckets.is_empty());
}

#[test]
fn test_vertex_sharing_same_material() {
    let strands = vec![vec![0u8, 0u8, 0u8]];
    let layout = LSystemMeshBuilder::default().build(&strands);
    // 3 unique rings * (8 resolution + 1 wrap) = 27 vertices
    assert_eq!(
        vertex_count(&layout, 0),
        27,
        "Vertex sharing should reduce 4 rings to 3"
    );
    // 2 segments * 8 quads * 2 triangles * 3 indices = 96 indices
    assert_eq!(index_count(&layout, 0), 96);
}

#[test]
fn test_no_vertex_sharing_across_materials() {
    let strands = vec![vec![0u8, 1u8, 1u8]];
    let layout = LSystemMeshBuilder::default().build(&strands);
    assert_eq!(vertex_count(&layout, 0), 18);
    assert_eq!(vertex_count(&layout, 1), 18);
}

#[test]
fn test_resolution_clamping() {
    let strands = vec![vec![0u8, 0u8]];
    let high = LSystemMeshBuilder::new()
        .with_resolution(1_000_000)
        .build(&strands);
    // 2 rings * (128 resolution + 1 wrap) = 258 vertices
    assert_eq!(vertex_count(&high, 0), 258, "Should clamp to max 128");

    let low = LSystemMeshBuilder::new().with_resolution(1).build(&strands);
    // 2 rings * (3 resolution + 1 wrap) = 8 vertices
    assert_eq!(vertex_count(&low, 0), 8, "Should clamp to min 3");
}

#[test]
fn resolution_in_range_is_kept() {
    assert_eq!(LSystemMeshBuilder::new().resolution(), 8);
    assert_eq!(LSystemMeshBuilder::new().with_resolution(3).resolution(), 3);
    assert_eq!(LSystemMeshBuilder::new().with_resolution(12).resolution(), 12);
    assert_eq!(LSystemMeshBuilder::new().with_resolution(128).resolution(), 128);
    assert_eq!(LSystemMeshBuilder::new().with_resolution(129).resolution(), 128);
    assert_eq!(LSystemMeshBuilder::new().with_resolution(0).resolution(), 3);
    assert_eq!(LSystemMeshBuilder::new().with_resolution(2).resolution(), 3);
}

#[test]
fn quad_strip_indices_are_exact() {
    let strands = vec![vec![5u8, 5u8]];
    let layout = LSystemMeshBuilder::new().with_resolution(3).build(&strands);
    let bucket = layout.bucket(5).unwrap();
    assert_eq!(
        bucket.rings,
        vec![
            RingRef { strand: 0, point: 0 },
            RingRef { strand: 0, point: 1 }
        ]
    );
    // Bottom ring starts at vertex 0, top ring at vertex 4.
    assert_eq!(
        bucket.indices,
        vec![0, 4, 1, 1, 4, 5, 1, 5, 2, 2, 5, 6, 2, 6, 3, 3, 6, 7]
    );
}

#[test]
fn shared_ring_is_reused_as_bottom() {
    let strands = vec![vec![0u8, 0u8, 0u8]];
    let layout = LSystemMeshBuilder::new().with_resolution(3).build(&strands);
    let bucket = layout.bucket(0).unwrap();
    assert_eq!(bucket.rings.len(), 3);
    assert_eq!(bucket.rings[1], RingRef { strand: 0, point: 1 });
    // Second segment joins ring 1 (vertex 4) to ring 2 (vertex 8).
    assert_eq!(&bucket.indices[18..24], &[4, 8, 5, 5, 8, 9]);
}

#[test]
fn one_material_strand_has_one_ring_per_point() {
    let strands = vec![vec![2u8; 6]];
    let layout = LSystemMeshBuilder::default().build(&strands);
    let bucket = layout.bucket(2).unwrap();
    assert_eq!(bucket.rings.len(), 6);
    assert_eq!(bucket.indices.len(), 5 * 8 * 6);
}

#[test]
fn alternating_materials_give_two_rings_per_segment() {
    // Three segments alternating 0, 1, 0: no ring is shared.
    let strands = vec![vec![0u8, 1u8, 0u8, 0u8]];
    let layout = LSystemMeshBuilder::default().build(&strands);
    let r0 = layout.bucket(0).unwrap().rings.len();
    let r1 = layout.bucket(1).unwrap().rings.len();
    assert_eq!(r0, 4);
    assert_eq!(r1, 2);
    assert_eq!(r0 + r1, 2 * 3);
}

#[test]
fn material_change_then_return_starts_fresh_ring() {
    // Segments of material 0, 1, 0, 0: the second run of 0 has 2 segments.
    let strands = vec![vec![0u8, 1u8, 0u8, 0u8, 7u8]];
    let layout = LSystemMeshBuilder::new().with_resolution(4).build(&strands);
    let bucket = layout.bucket(0).unwrap();
    let points: Vec<usize> = bucket.rings.iter().map(|r| r.point).collect();
    assert_eq!(points, vec![0, 1, 2, 3, 4]);
    assert_eq!(bucket.indices.len(), 3 * 4 * 6);
    assert_eq!(vertex_count(&layout, 0), 5 * 5);
    assert!(layout.bucket(7).is_none());
}

#[test]
fn short_strands_contribute_nothing() {
    let strands = vec![vec![], vec![3u8], vec![4u8, 4u8]];
    let layout = LSystemMeshBuilder::default().build(&strands);
    assert_eq!(layout.buckets.len(), 1);
    let bucket = layout.bucket(4).unwrap();
    assert_eq!(
        bucket.rings,
        vec![
            RingRef { strand: 2, point: 0 },
            RingRef { strand: 2, point: 1 }
        ]
    );
    assert_eq!(vertex_count(&layout, 3), 0);
}

#[test]
fn buckets_accumulate_across_strands() {
    let strands = vec![vec![0u8, 0u8], vec![0u8, 0u8]];
    let layout = LSystemMeshBuilder::new().with_resolution(3).build(&strands);
    let bucket = layout.bucket(0).unwrap();
    assert_eq!(bucket.rings.len(), 4);
    // The second strand's rings start at vertex 8 and 12.
    assert_eq!(&bucket.indices[18..24], &[8, 12, 9, 9, 12, 13]);
}

#[test]
fn indices_name_vertices_of_their_own_bucket() {
    let strands = vec![
        vec![0u8, 0u8, 1u8, 1u8, 0u8, 2u8],
        vec![1u8, 1u8, 1u8],
        vec![2u8, 0u8, 2u8, 2u8],
    ];
    let layout = LSystemMeshBuilder::new().with_resolution(5).build(&strands);
    for bucket in &layout.buckets {
        let vertices = (bucket.rings.len() * 6) as u32;
        assert!(bucket.indices.iter().all(|&i| i < vertices));
        assert_eq!(bucket.indices.len() % 30, 0);
    }
}

#[test]
fn rings_of_a_bucket_are_distinct_and_ordered() {
    let strands = vec![vec![3u8, 3u8, 4u8, 3u8, 3u8], vec![4u8, 3u8, 3u8]];
    let layout = LSystemMeshBuilder::default().build(&strands);
    for bucket in &layout.buckets {
        for pair in bucket.rings.windows(2) {
            assert!((pair[0].strand, pair[0].point) < (pair[1].strand, pair[1].point));
        }
    }
    let points3: Vec<(usize, usize)> = layout
        .bucket(3)
        .unwrap()
        .rings
        .iter()
        .map(|r| (r.strand, r.point))
        .collect();
    assert_eq!(points3, vec![(0, 0), (0, 1), (0, 2), (0, 3), (0, 4), (1, 1), (1, 2)]);
}

#[test]
fn totals_over_buckets() {
    // Alternating: 3 segments, 2 * 3 rings, 3 * 8 * 6 indices in all.
    let strands = vec![vec![0u8, 1u8, 0u8, 0u8]];
    let layout = LSystemMeshBuilder::default().build(&strands);
    let rings: usize = layout.buckets.iter().map(|b| b.rings.len()).sum();
    let indices: usize = layout.buckets.iter().map(|b| b.indices.len()).sum();
    assert_eq!(rings, 6);
    assert_eq!(indices, 3 * 8 * 6);
    // One material: 4 points, 4 rings.
    let one = LSystemMeshBuilder::default().build(&vec![vec![9u8; 4]]);
    let rings: usize = one.buckets.iter().map(|b| b.rings.len()).sum();
    assert_eq!(rings, 4);
}

#[test]
fn every_segment_is_stitched() {
    // Segment 1 (point 1 to point 2) carries material 1.
    let strands = vec![vec![0u8, 1u8, 0u8, 0u8]];
    let layout = LSystemMeshBuilder::new().with_resolution(3).build(&strands);
    let bucket = layout.bucket(1).unwrap();
    let x = bucket.rings.iter().position(|r| r.point == 1).unwrap() as u32;
    let y = bucket.rings.iter().position(|r| r.point == 2).unwrap() as u32;
    let (b, t) = (x * 4, y * 4);
    let expected: Vec<u32> = (0..3)
        .flat_map(|q| vec![b + q, t + q, b + q + 1, b + q + 1, t + q, t + q + 1])
        .collect();
    assert!(bucket.indices.windows(18).any(|w| w == expected.as_slice()));
}
