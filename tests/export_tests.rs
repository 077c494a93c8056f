use symbios_mesh::export::{
    build_empty_glb, meshes_to_glb, obj_faces, obj_object_header, obj_vertex_offsets,
    pack_buffers, pack_glb, BufferView, ExportFormat, GlbPrimitive,
};
use symbios_mesh::scene::scene_json;

fn read_u32(bytes: &[u8], at: usize) -> u32 {
    u32::from_le_bytes([bytes[at], bytes[at + 1], bytes[at + 2], bytes[at + 3]])
}

#[test]
fn format_names_and_extensions() {
    assert_eq!(ExportFormat::Obj.name(), "OBJ");
    assert_eq!(ExportFormat::Glb.name(), "GLB");
    assert_eq!(ExportFormat::Obj.extension(), "obj");
    assert_eq!(ExportFormat::Glb.extension(), "glb");
}

#[test]
fn glb_header_and_json_chunk() {
    let glb = pack_glb("{}", &[]);
    // 12-byte header + 8-byte chunk header + "{}" padded to 4 bytes.
    assert_eq!(glb.len(), 24);
    assert_eq!(read_u32(&glb, 0), 0x46546C67);
    assert_eq!(read_u32(&glb, 4), 2);
    assert_eq!(read_u32(&glb, 8) as usize, glb.len());
    assert_eq!(read_u32(&glb, 12), 4);
    assert_eq!(read_u32(&glb, 16), 0x4E4F534A);
    assert_eq!(&glb[20..24], b"{}  ");
}

#[test]
fn glb_binary_chunk_is_zero_padded() {
    let glb = pack_glb("abcd", &[1, 2, 3, 4, 5]);
    // header 12 + json chunk 8 + 4 + bin chunk 8 + 8
    assert_eq!(glb.len(), 40);
    assert_eq!(read_u32(&glb, 8) as usize, glb.len());
    assert_eq!(read_u32(&glb, 24), 8);
    assert_eq!(read_u32(&glb, 24) % 4, 0);
    assert_eq!(read_u32(&glb, 28), 0x004E4942);
    assert_eq!(&glb[32..40], &[1, 2, 3, 4, 5, 0, 0, 0]);
}

#[test]
fn glb_length_field_matches_for_many_sizes() {
    for json_len in 0..9usize {
        for bin_len in 0..9usize {
            let json = "x".repeat(json_len);
            let bin = vec![7u8; bin_len];
            let glb = pack_glb(&json, &bin);
            assert_eq!(read_u32(&glb, 8) as usize, glb.len());
            assert_eq!(glb.len() % 4, 0);
            if bin_len > 0 {
                let at = 20 + read_u32(&glb, 12) as usize;
                assert_eq!(read_u32(&glb, at) % 4, 0);
                assert_eq!(glb.len(), at + 8 + read_u32(&glb, at) as usize);
            } else {
                assert_eq!(glb.len(), 20 + read_u32(&glb, 12) as usize);
            }
        }
    }
}

#[test]
fn empty_glb_has_no_binary_chunk() {
    let glb = build_empty_glb();
    assert_eq!(read_u32(&glb, 8) as usize, glb.len());
    let json_len = read_u32(&glb, 12) as usize;
    assert_eq!(glb.len(), 20 + json_len);
    let json = std::str::from_utf8(&glb[20..]).unwrap();
    assert!(json.starts_with("{\"asset\":{\"version\":\"2.0\""));
    assert!(json.contains("\"scenes\":[{\"name\":\"Empty\"}]"));
}

#[test]
fn buffers_are_laid_end_to_end() {
    let prims = vec![
        GlbPrimitive {
            material_id: 0,
            positions: vec![1u8; 24],
            normals: Some(vec![2u8; 24]),
            colors: None,
            indices: Some(vec![0, 1, 258]),
            bounds: String::new(),
        },
        GlbPrimitive {
            material_id: 1,
            positions: vec![],
            normals: Some(vec![9u8; 12]),
            colors: None,
            indices: None,
            bounds: String::new(),
        },
        GlbPrimitive {
            material_id: 2,
            positions: vec![3u8; 12],
            normals: None,
            colors: Some(vec![4u8; 16]),
            indices: None,
            bounds: String::new(),
        },
    ];
    let (bin, views) = pack_buffers(&prims);
    assert_eq!(
        views,
        vec![
            BufferView { offset: 0, length: 24, target: 34962 },
            BufferView { offset: 24, length: 24, target: 34962 },
            BufferView { offset: 48, length: 12, target: 34963 },
            BufferView { offset: 60, length: 12, target: 34962 },
            BufferView { offset: 72, length: 16, target: 34962 },
        ]
    );
    assert_eq!(bin.len(), 88);
    assert_eq!(&bin[48..60], &[0, 0, 0, 0, 1, 0, 0, 0, 2, 1, 0, 0]);
    assert!(views.iter().all(|v| v.offset % 4 == 0));
}

#[test]
fn obj_faces_with_normals_and_offset() {
    let text = obj_faces(&vec![0, 1, 2, 2, 1, 3, 7], 10, true);
    assert_eq!(text, "f 11//11 12//12 13//13\nf 13//13 12//12 14//14\n");
}

#[test]
fn obj_faces_without_normals() {
    let text = obj_faces(&vec![0, 9, 99], 0, false);
    assert_eq!(text, "f 1 10 100\n");
    assert_eq!(obj_faces(&vec![], 5, true), "");
}

#[test]
fn obj_faces_do_not_wrap_large_indices() {
    let text = obj_faces(&vec![u32::MAX, 0, 1], 1, false);
    assert_eq!(text, "f 4294967297 2 3\n");
}

#[test]
fn obj_header_line() {
    assert_eq!(obj_object_header("tree_mat3"), "o tree_mat3\n");
}

fn single_prim() -> GlbPrimitive {
    GlbPrimitive {
        material_id: 3,
        positions: vec![0u8; 12],
        normals: None,
        colors: None,
        indices: Some(vec![0, 0, 0]),
        bounds: "\"min\":[0,0,0],\"max\":[0,0,0]".to_string(),
    }
}

fn single_scene() -> String {
    [
        "{\"asset\":{\"version\":\"2.0\",\"generator\":\"bevy_symbios\"},\"scene\":0,",
        "\"scenes\":[{\"name\":\"LSystem\",\"nodes\":[0]}],",
        "\"nodes\":[{\"name\":\"node_mat3\",\"mesh\":0}],",
        "\"meshes\":[{\"name\":\"mesh_mat3\",\"primitives\":[{\"attributes\":{\"POSITION\":0},\"indices\":1,\"material\":0}]}],",
        "\"materials\":[{\"name\":\"Material_3\"}],",
        "\"accessors\":[{\"bufferView\":0,\"componentType\":5126,\"count\":1,\"type\":\"VEC3\",\"min\":[0,0,0],\"max\":[0,0,0]},",
        "{\"bufferView\":1,\"componentType\":5125,\"count\":3,\"type\":\"SCALAR\"}],",
        "\"bufferViews\":[{\"buffer\":0,\"byteOffset\":0,\"byteLength\":12,\"target\":34962},",
        "{\"buffer\":0,\"byteOffset\":12,\"byteLength\":12,\"target\":34963}],",
        "\"buffers\":[{\"byteLength\":24}]}",
    ]
    .concat()
}

#[test]
fn scene_json_for_one_bucket() {
    let prims = vec![single_prim()];
    let (bin, views) = pack_buffers(&prims);
    let materials = vec!["{\"name\":\"Material_3\"}".to_string()];
    let json = scene_json(&prims, &materials, &views, bin.len());
    assert_eq!(json, single_scene());
}

#[test]
fn glb_export_wraps_scene_and_buffer() {
    let prims = vec![single_prim()];
    let materials = vec!["{\"name\":\"Material_3\"}".to_string()];
    let glb = meshes_to_glb(&prims, &materials).unwrap();
    assert_eq!(read_u32(&glb, 8) as usize, glb.len());
    let json_len = read_u32(&glb, 12) as usize;
    assert_eq!(json_len % 4, 0);
    let json = std::str::from_utf8(&glb[20..20 + json_len]).unwrap();
    assert_eq!(json.trim_end(), single_scene());
    let at = 20 + json_len;
    assert_eq!(read_u32(&glb, at), 24);
    assert_eq!(read_u32(&glb, at + 4), 0x004E4942);
    assert_eq!(glb.len(), at + 8 + 24);
}

#[test]
fn glb_export_without_vertices_is_empty_container() {
    let mut prim = single_prim();
    prim.positions = vec![];
    let glb = meshes_to_glb(&vec![prim], &vec!["{}".to_string()]).unwrap();
    assert_eq!(glb, build_empty_glb());
    assert_eq!(meshes_to_glb(&vec![], &vec![]).unwrap(), build_empty_glb());
}

#[test]
fn scene_json_numbers_accessors_across_buckets() {
    let mut a = single_prim();
    a.material_id = 0;
    a.normals = Some(vec![0u8; 12]);
    a.colors = Some(vec![0u8; 16]);
    let mut b = single_prim();
    b.material_id = 1;
    b.indices = None;
    let prims = vec![a, b];
    let (bin, views) = pack_buffers(&prims);
    assert_eq!(views.len(), 5);
    let json = scene_json(&prims, &vec!["{}".to_string(), "{}".to_string()], &views, bin.len());
    assert!(json.contains("\"attributes\":{\"POSITION\":0,\"NORMAL\":1,\"COLOR_0\":2},\"indices\":3,\"material\":0"));
    assert!(json.contains("\"attributes\":{\"POSITION\":4},\"material\":1"));
    assert!(json.contains("\"nodes\":[0,1]"));
    assert!(json.contains("{\"bufferView\":2,\"componentType\":5126,\"count\":1,\"type\":\"VEC4\"}"));
    assert!(json.contains("\"buffers\":[{\"byteLength\":64}]"));
}

#[test]
fn obj_offsets_follow_vertex_counts() {
    assert_eq!(obj_vertex_offsets(&vec![18, 27, 9]), Some(vec![0, 18, 45]));
    assert_eq!(obj_vertex_offsets(&vec![]), Some(vec![]));
    // The last object's count never becomes an offset.
    assert_eq!(obj_vertex_offsets(&vec![5, usize::MAX]), Some(vec![0, 5]));
    assert_eq!(
        obj_vertex_offsets(&vec![u32::MAX as usize, 1, 0]),
        None
    );
    assert_eq!(
        obj_vertex_offsets(&vec![u32::MAX as usize, 0]),
        Some(vec![0, u32::MAX])
    );
}

#[test]
fn empty_glb_exact_lengths() {
    let glb = build_empty_glb();
    assert_eq!(glb.len(), 112);
    assert_eq!(read_u32(&glb, 12), 92);
    assert_eq!(
        std::str::from_utf8(&glb[20..]).unwrap(),
        "{\"asset\":{\"version\":\"2.0\",\"generator\":\"bevy_symbios\"},\"scene\":0,\"scenes\":[{\"name\":\"Empty\"}]}"
    );
}
