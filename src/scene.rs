//! The scene description of a binary glTF export: nodes, meshes, materials,
//! accessors and buffer views as JSON text, and the container around it.
use vstd::prelude::*;
use vstd::string::StringExecFns;
use vstd::string::StringSliceAdditionalSpecFns;
use crate::export::{
    all_streams, build_empty_glb, decimal, empty_scene, glb_bytes, pack_buffers, pack_glb, push_decimal,
    stream_bytes, stream_views, BufferView, GlbPrimitive,
};

verus! {

/// Items separated by commas.
pub open spec fn joined(items: Seq<Seq<char>>) -> Seq<char>
    decreases items.len(),
{
    if items.len() == 0 {
        seq![]
    } else if items.len() == 1 {
        items[0]
    } else {
        joined(items.drop_last()) + ","@ + items.last()
    }
}

/// A bucket with vertices; the others are left out of the scene.
pub open spec fn has_vertices(p: GlbPrimitive) -> bool {
    p.positions@.len() > 0
}

/// One when `b` holds, else zero.
pub open spec fn one_if(b: bool) -> nat {
    if b {
        1
    } else {
        0
    }
}

/// Number of vertices of a bucket: 12 position bytes each.
pub open spec fn vertex_count(p: GlbPrimitive) -> nat {
    p.positions@.len() / 12
}

/// Node entry of the `e`-th mesh of the scene.
pub open spec fn node_entry(p: GlbPrimitive, e: nat) -> Seq<char> {
    "{\"name\":\"node_mat"@ + decimal(p.material_id as nat) + "\",\"mesh\":"@ + decimal(e) + "}"@
}

/// Mesh entry of a bucket whose accessors start at `a`, using material `m`.
pub open spec fn mesh_entry(p: GlbPrimitive, m: nat, a: nat) -> Seq<char> {
    let n = one_if(p.normals is Some);
    let c = one_if(p.colors is Some);
    let attrs = "\"POSITION\":"@ + decimal(a) + if p.normals is Some {
        ",\"NORMAL\":"@ + decimal(a + 1)
    } else {
        seq![]
    } + if p.colors is Some {
        ",\"COLOR_0\":"@ + decimal(a + 1 + n)
    } else {
        seq![]
    };
    let idx = if p.indices is Some {
        ",\"indices\":"@ + decimal(a + 1 + n + c)
    } else {
        seq![]
    };
    "{\"name\":\"mesh_mat"@ + decimal(p.material_id as nat) + "\",\"primitives\":[{\"attributes\":{"@
        + attrs + "}"@ + idx + ",\"material\":"@ + decimal(m) + "}]}"@
}

/// Accessor entry over buffer view `v`.
pub open spec fn accessor_entry(v: nat, component: Seq<char>, count: nat, kind: Seq<char>) -> Seq<
    char,
> {
    "{\"bufferView\":"@ + decimal(v) + ",\"componentType\":"@ + component + ",\"count\":"@
        + decimal(count) + ",\"type\":\""@ + kind + "\"}"@
}

/// The position accessor, which also carries the bounds.
pub open spec fn position_accessor(p: GlbPrimitive, a: nat) -> Seq<char> {
    "{\"bufferView\":"@ + decimal(a) + ",\"componentType\":5126,\"count\":"@ + decimal(
        vertex_count(p),
    ) + ",\"type\":\"VEC3\","@ + p.bounds@ + "}"@
}

/// The accessors of a bucket, starting at `a`, one per buffer view.
pub open spec fn accessor_entries(p: GlbPrimitive, a: nat) -> Seq<Seq<char>> {
    let n = one_if(p.normals is Some);
    let c = one_if(p.colors is Some);
    seq![position_accessor(p, a)] + if p.normals is Some {
        seq![accessor_entry(a + 1, "5126"@, vertex_count(p), "VEC3"@)]
    } else {
        seq![]
    } + if p.colors is Some {
        seq![accessor_entry(a + 1 + n, "5126"@, vertex_count(p), "VEC4"@)]
    } else {
        seq![]
    } + match p.indices {
        Some(i) => seq![accessor_entry(a + 1 + n + c, "5125"@, i@.len(), "SCALAR"@)],
        None => seq![],
    }
}

/// Number of the first `k` buckets that have vertices.
pub open spec fn emitted(prims: Seq<GlbPrimitive>, k: nat) -> nat
    decreases k,
{
    if k == 0 {
        0
    } else {
        emitted(prims, (k - 1) as nat) + one_if(has_vertices(prims[k - 1]))
    }
}

/// Node entries of the first `k` buckets.
pub open spec fn node_entries(prims: Seq<GlbPrimitive>, k: nat) -> Seq<Seq<char>>
    decreases k,
{
    if k == 0 {
        seq![]
    } else {
        let p = prims[k - 1];
        node_entries(prims, (k - 1) as nat) + if has_vertices(p) {
            seq![node_entry(p, emitted(prims, (k - 1) as nat))]
        } else {
            seq![]
        }
    }
}

/// Mesh entries of the first `k` buckets; bucket `i` uses material `i`.
pub open spec fn mesh_entries(prims: Seq<GlbPrimitive>, k: nat) -> Seq<Seq<char>>
    decreases k,
{
    if k == 0 {
        seq![]
    } else {
        let p = prims[k - 1];
        mesh_entries(prims, (k - 1) as nat) + if has_vertices(p) {
            seq![mesh_entry(p, (k - 1) as nat, all_streams(prims, (k - 1) as nat).len())]
        } else {
            seq![]
        }
    }
}

/// Accessor entries of the first `k` buckets.
pub open spec fn accessor_list(prims: Seq<GlbPrimitive>, k: nat) -> Seq<Seq<char>>
    decreases k,
{
    if k == 0 {
        seq![]
    } else {
        let p = prims[k - 1];
        accessor_list(prims, (k - 1) as nat) + if has_vertices(p) {
            accessor_entries(p, all_streams(prims, (k - 1) as nat).len())
        } else {
            seq![]
        }
    }
}

/// Buffer view entry.
pub open spec fn view_entry(v: BufferView) -> Seq<char> {
    "{\"buffer\":0,\"byteOffset\":"@ + decimal(v.offset as nat) + ",\"byteLength\":"@ + decimal(
        v.length as nat,
    ) + ",\"target\":"@ + decimal(v.target as nat) + "}"@
}

/// The numbers `0` to `e - 1`.
pub open spec fn numbers(e: nat) -> Seq<Seq<char>> {
    Seq::new(e, |i: int| decimal(i as nat))
}

/// The scene description of an export of `prims`, with `materials` the
/// material entries, one per bucket.
#[verifier::opaque]
pub open spec fn scene_text(prims: Seq<GlbPrimitive>, materials: Seq<Seq<char>>) -> Seq<char> {
    let n = prims.len();
    let streams = all_streams(prims, n);
    "{\"asset\":{\"version\":\"2.0\",\"generator\":\"bevy_symbios\"},\"scene\":0,\"scenes\":[{\"name\":\"LSystem\",\"nodes\":["@
        + joined(numbers(emitted(prims, n))) + "]}],\"nodes\":["@ + joined(node_entries(prims, n))
        + "],\"meshes\":["@ + joined(mesh_entries(prims, n)) + "],\"materials\":["@ + joined(
        materials,
    ) + "],\"accessors\":["@ + joined(accessor_list(prims, n)) + "],\"bufferViews\":["@ + joined(
        stream_views(streams).map_values(|v: BufferView| view_entry(v)),
    ) + "],\"buffers\":[{\"byteLength\":"@ + decimal(stream_bytes(streams).len()) + "}]}"@
}

/// Appends one item to a comma-separated list.
fn append_item(list: &mut String, count: usize, items: Ghost<Seq<Seq<char>>>, item: &str)
    requires
        old(list)@ == joined(items@),
        count == items@.len(),
    ensures
        final(list)@ == joined(items@.push(item@)),
{
    if count > 0 {
        list.append(",");
    }
    list.append(item);
    assert(items@.push(item@).drop_last() =~= items@);
    assert(final(list)@ =~= joined(items@.push(item@)));
}

/// Text of a node entry.
fn node_entry_text(p: &GlbPrimitive, e: usize) -> (r: String)
    ensures
        r@ == node_entry(*p, e as nat),
{
    let mut r = String::new();
    r.append("{\"name\":\"node_mat");
    push_decimal(&mut r, p.material_id as u64);
    r.append("\",\"mesh\":");
    push_decimal(&mut r, e as u64);
    r.append("}");
    assert(r@ =~= node_entry(*p, e as nat));
    r
}

/// Text of a mesh entry.
fn mesh_entry_text(p: &GlbPrimitive, m: usize, a: usize) -> (r: String)
    requires
        a + accessor_entries(*p, a as nat).len() <= usize::MAX,
    ensures
        r@ == mesh_entry(*p, m as nat, a as nat),
{
    let n: u64 = if p.normals.is_some() {
        1
    } else {
        0
    };
    let c: u64 = if p.colors.is_some() {
        1
    } else {
        0
    };
    let a64 = a as u64;
    let mut attrs = String::new();
    attrs.append("\"POSITION\":");
    push_decimal(&mut attrs, a64);
    if p.normals.is_some() {
        attrs.append(",\"NORMAL\":");
        push_decimal(&mut attrs, a64 + 1);
    }
    if p.colors.is_some() {
        attrs.append(",\"COLOR_0\":");
        push_decimal(&mut attrs, a64 + 1 + n);
    }
    let mut r = String::new();
    r.append("{\"name\":\"mesh_mat");
    push_decimal(&mut r, p.material_id as u64);
    r.append("\",\"primitives\":[{\"attributes\":{");
    r.append(attrs.as_str());
    r.append("}");
    if p.indices.is_some() {
        r.append(",\"indices\":");
        push_decimal(&mut r, a64 + 1 + n + c);
    }
    r.append(",\"material\":");
    push_decimal(&mut r, m as u64);
    r.append("}]}");
    assert(r@ =~= mesh_entry(*p, m as nat, a as nat));
    r
}

/// Text of an accessor entry.
fn accessor_entry_text(v: u64, component: &str, count: u64, kind: &str) -> (r: String)
    ensures
        r@ == accessor_entry(v as nat, component@, count as nat, kind@),
{
    let mut r = String::new();
    r.append("{\"bufferView\":");
    push_decimal(&mut r, v);
    r.append(",\"componentType\":");
    r.append(component);
    r.append(",\"count\":");
    push_decimal(&mut r, count);
    r.append(",\"type\":\"");
    r.append(kind);
    r.append("\"}");
    assert(r@ =~= accessor_entry(v as nat, component@, count as nat, kind@));
    r
}

/// Text of the position accessor.
fn position_accessor_text(p: &GlbPrimitive, a: u64) -> (r: String)
    ensures
        r@ == position_accessor(*p, a as nat),
{
    let mut r = String::new();
    r.append("{\"bufferView\":");
    push_decimal(&mut r, a);
    r.append(",\"componentType\":5126,\"count\":");
    push_decimal(&mut r, (p.positions.len() / 12) as u64);
    r.append(",\"type\":\"VEC3\",");
    r.append(p.bounds.as_str());
    r.append("}");
    assert(r@ =~= position_accessor(*p, a as nat));
    r
}

/// Appends the accessors of one bucket, starting at `a`, to the list.
fn append_accessors(
    list: &mut String,
    count: usize,
    items: Ghost<Seq<Seq<char>>>,
    p: &GlbPrimitive,
    a: usize,
) -> (new_count: usize)
    requires
        old(list)@ == joined(items@),
        count == items@.len(),
        count + accessor_entries(*p, a as nat).len() <= usize::MAX,
        a + accessor_entries(*p, a as nat).len() <= usize::MAX,
    ensures
        final(list)@ == joined(items@ + accessor_entries(*p, a as nat)),
        new_count == items@.len() + accessor_entries(*p, a as nat).len(),
{
    let ghost entries = accessor_entries(*p, a as nat);
    let n: u64 = if p.normals.is_some() {
        1
    } else {
        0
    };
    let c: u64 = if p.colors.is_some() {
        1
    } else {
        0
    };
    let a64 = a as u64;
    let ghost mut acc = items@;
    let mut k = count;
    let pos = position_accessor_text(p, a64);
    append_item(list, k, Ghost(acc), pos.as_str());
    proof {
        acc = acc.push(pos@);
    }
    k = k + 1;
    if p.normals.is_some() {
        let t = accessor_entry_text(a64 + 1, "5126", (p.positions.len() / 12) as u64, "VEC3");
        append_item(list, k, Ghost(acc), t.as_str());
        proof {
            acc = acc.push(t@);
        }
        k = k + 1;
    }
    if p.colors.is_some() {
        let t = accessor_entry_text(a64 + 1 + n, "5126", (p.positions.len() / 12) as u64, "VEC4");
        append_item(list, k, Ghost(acc), t.as_str());
        proof {
            acc = acc.push(t@);
        }
        k = k + 1;
    }
    match &p.indices {
        Some(idx) => {
            let t = accessor_entry_text(a64 + 1 + n + c, "5125", idx.len() as u64, "SCALAR");
            append_item(list, k, Ghost(acc), t.as_str());
            proof {
                acc = acc.push(t@);
            }
            k = k + 1;
        },
        None => {},
    }
    assert(acc =~= items@ + entries);
    k
}

/// Text of a buffer view entry.
fn view_entry_text(v: &BufferView) -> (r: String)
    ensures
        r@ == view_entry(*v),
{
    let mut r = String::new();
    r.append("{\"buffer\":0,\"byteOffset\":");
    push_decimal(&mut r, v.offset as u64);
    r.append(",\"byteLength\":");
    push_decimal(&mut r, v.length as u64);
    r.append(",\"target\":");
    push_decimal(&mut r, v.target as u64);
    r.append("}");
    assert(r@ =~= view_entry(*v));
    r
}

proof fn lemma_accessors_match_streams(p: GlbPrimitive, a: nat)
    requires
        has_vertices(p),
    ensures
        accessor_entries(p, a).len() == crate::export::prim_streams(p).len(),
{
}

proof fn lemma_streams_grow(prims: Seq<GlbPrimitive>, k: nat, n: nat)
    requires
        k <= n <= prims.len(),
    ensures
        all_streams(prims, k).len() <= all_streams(prims, n).len(),
    decreases n - k,
{
    if k < n {
        lemma_streams_grow(prims, k, (n - 1) as nat);
    }
}

proof fn lemma_views_len(streams: Seq<(Seq<u8>, u32)>)
    ensures
        stream_views(streams).len() == streams.len(),
    decreases streams.len(),
{
    if streams.len() > 0 {
        lemma_views_len(streams.drop_last());
    }
}

/// The scene description of an export: `prims` are the buckets in the order
/// of their material ids, `materials` one material entry per bucket, and
/// `views` and `bin_len` the buffer views and length of the binary buffer
/// that `pack_buffers` lays out for `prims`.
pub fn scene_json(
    prims: &Vec<GlbPrimitive>,
    materials: &Vec<String>,
    views: &Vec<BufferView>,
    bin_len: usize,
) -> (json: String)
    requires
        views@ == stream_views(all_streams(prims@, prims@.len())),
        bin_len == stream_bytes(all_streams(prims@, prims@.len())).len(),
    ensures
        json@ == scene_text(prims@, materials@.map_values(|m: String| m@)),
{
    let ghost pv = prims@;
    let ghost total = all_streams(pv, pv.len());
    proof {
        lemma_views_len(total);
    }
    let mut nodes = String::new();
    let mut meshes = String::new();
    let mut accessors = String::new();
    let mut e: usize = 0;
    let mut a: usize = 0;
    let mut k: usize = 0;
    while k < prims.len()
        invariant
            k <= prims@.len(),
            pv == prims@,
            total == all_streams(pv, pv.len()),
            views@.len() == total.len(),
            e == emitted(pv, k as nat),
            e <= k,
            a == all_streams(pv, k as nat).len(),
            nodes@ == joined(node_entries(pv, k as nat)),
            node_entries(pv, k as nat).len() == e,
            meshes@ == joined(mesh_entries(pv, k as nat)),
            mesh_entries(pv, k as nat).len() == e,
            accessors@ == joined(accessor_list(pv, k as nat)),
            accessor_list(pv, k as nat).len() == a,
        decreases prims@.len() - k,
    {
        let p = &prims[k];
        proof {
            lemma_streams_grow(pv, (k + 1) as nat, pv.len());
            assert(all_streams(pv, (k + 1) as nat) == all_streams(pv, k as nat)
                + crate::export::prim_streams(pv[k as int]));
        }
        if p.positions.len() > 0 {
            proof {
                lemma_accessors_match_streams(*p, a as nat);
                assert(*p == pv[k as int]);
                assert(views@.len() == views.len());
                assert(a + accessor_entries(*p, a as nat).len() == all_streams(pv, (k + 1) as nat).len());
            }
            let node = node_entry_text(p, e);
            append_item(&mut nodes, e, Ghost(node_entries(pv, k as nat)), node.as_str());
            let mesh = mesh_entry_text(p, k, a);
            append_item(&mut meshes, e, Ghost(mesh_entries(pv, k as nat)), mesh.as_str());
            let new_a = append_accessors(&mut accessors, a, Ghost(accessor_list(pv, k as nat)), p, a);
            assert(node_entries(pv, (k + 1) as nat) =~= node_entries(pv, k as nat).push(node@));
            assert(mesh_entries(pv, (k + 1) as nat) =~= mesh_entries(pv, k as nat).push(mesh@));
            e = e + 1;
            a = new_a;
        } else {
            assert(node_entries(pv, (k + 1) as nat) =~= node_entries(pv, k as nat));
            assert(mesh_entries(pv, (k + 1) as nat) =~= mesh_entries(pv, k as nat));
            assert(accessor_list(pv, (k + 1) as nat) =~= accessor_list(pv, k as nat));
            assert(crate::export::prim_streams(pv[k as int]) =~= seq![]);
        }
        k = k + 1;
    }
    let mut json = String::new();
    json.append(
        "{\"asset\":{\"version\":\"2.0\",\"generator\":\"bevy_symbios\"},\"scene\":0,\"scenes\":[{\"name\":\"LSystem\",\"nodes\":[",
    );
    let ghost head = json@;
    let mut list = String::new();
    let mut i: usize = 0;
    while i < e
        invariant
            i <= e,
            list@ == joined(numbers(i as nat)),
        decreases e - i,
    {
        let mut t = String::new();
        push_decimal(&mut t, i as u64);
        append_item(&mut list, i, Ghost(numbers(i as nat)), t.as_str());
        assert(numbers((i + 1) as nat) =~= numbers(i as nat).push(t@));
        i = i + 1;
    }
    json.append(list.as_str());
    json.append("]}],\"nodes\":[");
    json.append(nodes.as_str());
    json.append("],\"meshes\":[");
    json.append(meshes.as_str());
    json.append("],\"materials\":[");
    let ghost mv = materials@.map_values(|m: String| m@);
    let mut mats = String::new();
    let mut j: usize = 0;
    while j < materials.len()
        invariant
            j <= materials@.len(),
            mv == materials@.map_values(|m: String| m@),
            mats@ == joined(mv.subrange(0, j as int)),
        decreases materials@.len() - j,
    {
        append_item(&mut mats, j, Ghost(mv.subrange(0, j as int)), materials[j].as_str());
        assert(mv.subrange(0, j + 1) =~= mv.subrange(0, j as int).push(materials@[j as int]@));
        j = j + 1;
    }
    assert(mv.subrange(0, materials@.len() as int) =~= mv);
    json.append(mats.as_str());
    json.append("],\"accessors\":[");
    json.append(accessors.as_str());
    json.append("],\"bufferViews\":[");
    let ghost ve = views@.map_values(|v: BufferView| view_entry(v));
    let mut vlist = String::new();
    let mut v: usize = 0;
    while v < views.len()
        invariant
            v <= views@.len(),
            ve == views@.map_values(|v: BufferView| view_entry(v)),
            vlist@ == joined(ve.subrange(0, v as int)),
        decreases views@.len() - v,
    {
        let t = view_entry_text(&views[v]);
        append_item(&mut vlist, v, Ghost(ve.subrange(0, v as int)), t.as_str());
        assert(ve.subrange(0, v + 1) =~= ve.subrange(0, v as int).push(t@));
        v = v + 1;
    }
    assert(ve.subrange(0, views@.len() as int) =~= ve);
    json.append(vlist.as_str());
    json.append("],\"buffers\":[{\"byteLength\":");
    push_decimal(&mut json, bin_len as u64);
    json.append("}]}");
    assert(json@ =~= scene_text(prims@, mv)) by {
        reveal(scene_text);
    }
    json
}

proof fn lemma_nothing_emitted(prims: Seq<GlbPrimitive>, k: nat)
    requires
        k <= prims.len(),
    ensures
        (all_streams(prims, k).len() == 0) == (emitted(prims, k) == 0),
    decreases k,
{
    if k > 0 {
        lemma_nothing_emitted(prims, (k - 1) as nat);
    }
}

/// Binary glTF container of an export: `prims` are the buckets in the order
/// of their material ids and `materials` one material entry per bucket.
/// With no bucket that has vertices it is the empty container; otherwise the
/// scene description and the packed buffer, unless the container's length
/// would not fit its 32-bit length field (`None`).
#[verifier::spinoff_prover]
pub fn meshes_to_glb(prims: &Vec<GlbPrimitive>, materials: &Vec<String>) -> (glb: Option<Vec<u8>>)
    ensures
        ({
            let streams = all_streams(prims@, prims@.len());
            let json = scene_text(prims@, materials@.map_values(|m: String| m@));
            let bin = stream_bytes(streams);
            if emitted(prims@, prims@.len()) == 0 {
                glb is Some && glb->0@ == glb_bytes(empty_scene(), seq![])
            } else {
                &&& glb is Some <==> crate::export::glb_total_len(
                    vstd::utf8::encode_utf8(json).len(),
                    bin.len(),
                ) <= u32::MAX
                &&& glb is Some ==> glb->0@ == glb_bytes(vstd::utf8::encode_utf8(json), bin)
            }
        }),
{
    let (bin, views) = pack_buffers(prims);
    proof {
        lemma_nothing_emitted(prims@, prims@.len());
        lemma_views_len(all_streams(prims@, prims@.len()));
    }
    if views.len() == 0 {
        return Some(build_empty_glb());
    }
    let json = scene_json(prims, materials, &views, bin.len());
    let js = json.as_str();
    let jb = js.as_bytes();
    let jl = jb.len();
    let bl = bin.len();
    if jl > 0xFFFF_FFFF || bl > 0xFFFF_FFFF {
        return None;
    }
    let bin_chunk: u64 = if bl > 0 {
        8 + (bl as u64 + 3) / 4 * 4
    } else {
        0
    };
    if 20 + (jl as u64 + 3) / 4 * 4 + bin_chunk > 0xFFFF_FFFF {
        return None;
    }
    let bs = bin.as_slice();
    Some(pack_glb(js, bs))
}

} // verus!
