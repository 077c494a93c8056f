//! Byte layouts of the export formats: the binary glTF container that wraps
//! a scene description and a packed vertex buffer, and the face records of
//! OBJ text.
use vstd::prelude::*;
use vstd::string::StringExecFns;
use vstd::string::StringSliceAdditionalSpecFns;

verus! {

/// Magic number at the start of a binary glTF container ("glTF").
pub const GLB_MAGIC: u32 = 0x46546C67;

/// Container format version.
pub const GLB_VERSION: u32 = 2;

/// Tag of the JSON chunk ("JSON").
pub const CHUNK_JSON: u32 = 0x4E4F534A;

/// Tag of the binary chunk ("BIN\0").
pub const CHUNK_BIN: u32 = 0x004E4942;

/// Target of a buffer view holding vertex attributes.
pub const TARGET_ARRAY_BUFFER: u32 = 34962;

/// Target of a buffer view holding triangle indices.
pub const TARGET_ELEMENT_ARRAY_BUFFER: u32 = 34963;

/// Output file formats.
#[derive(Clone, Copy, Debug, PartialEq, Eq, Structural)]
pub enum ExportFormat {
    Obj,
    Glb,
}

impl Default for ExportFormat {
    fn default() -> (r: Self)
        ensures
            r == ExportFormat::Obj,
    {
        ExportFormat::Obj
    }
}

impl ExportFormat {
    /// Display name of the format.
    pub fn name(&self) -> (r: &'static str)
        ensures
            *self == ExportFormat::Obj ==> r@ == "OBJ"@,
            *self == ExportFormat::Glb ==> r@ == "GLB"@,
    {
        match self {
            ExportFormat::Obj => "OBJ",
            ExportFormat::Glb => "GLB",
        }
    }

    /// File extension of the format, without the dot.
    pub fn extension(&self) -> (r: &'static str)
        ensures
            *self == ExportFormat::Obj ==> r@ == "obj"@,
            *self == ExportFormat::Glb ==> r@ == "glb"@,
    {
        match self {
            ExportFormat::Obj => "obj",
            ExportFormat::Glb => "glb",
        }
    }
}

/// `n` rounded up to a multiple of four.
pub open spec fn padded_len(n: nat) -> nat {
    ((n + 3) / 4 * 4) as nat
}

/// The four little-endian bytes of `x`.
pub open spec fn u32_le(x: nat) -> Seq<u8> {
    seq![
        (x % 256) as u8,
        (x / 256 % 256) as u8,
        (x / 65536 % 256) as u8,
        (x / 16777216 % 256) as u8,
    ]
}

/// The little-endian integer held by the four bytes of `s` at `off`.
pub open spec fn read_u32_le(s: Seq<u8>, off: int) -> nat {
    (s[off] + 256 * s[off + 1] + 65536 * s[off + 2] + 16777216 * s[off + 3]) as nat
}

/// Length of the container for a scene description of `json_len` bytes and
/// a binary buffer of `bin_len` bytes.
pub open spec fn glb_total_len(json_len: nat, bin_len: nat) -> nat {
    12 + 8 + padded_len(json_len) + if bin_len > 0 {
        8 + padded_len(bin_len)
    } else {
        0
    }
}

/// The container: a 12-byte header (magic, version, total length), the JSON
/// chunk padded with spaces, and, for a non-empty buffer, the binary chunk
/// padded with zero bytes; chunk lengths count the padding.
#[verifier::opaque]
pub open spec fn glb_bytes(json: Seq<u8>, bin: Seq<u8>) -> Seq<u8> {
    let jl = padded_len(json.len());
    let bl = padded_len(bin.len());
    u32_le(GLB_MAGIC as nat) + u32_le(GLB_VERSION as nat) + u32_le(
        glb_total_len(json.len(), bin.len()),
    ) + u32_le(jl) + u32_le(CHUNK_JSON as nat) + json + Seq::new(
        (jl - json.len()) as nat,
        |i: int| 0x20u8,
    ) + if bin.len() > 0 {
        u32_le(bl) + u32_le(CHUNK_BIN as nat) + bin + Seq::new((bl - bin.len()) as nat, |i: int| 0u8)
    } else {
        seq![]
    }
}

/// Appends the four little-endian bytes of `x`.
fn push_u32_le(out: &mut Vec<u8>, x: u32)
    ensures
        final(out)@ == old(out)@ + u32_le(x as nat),
{
    out.push((x % 256) as u8);
    out.push((x / 256 % 256) as u8);
    out.push((x / 65536 % 256) as u8);
    out.push((x / 16777216 % 256) as u8);
    assert(final(out)@ =~= old(out)@ + u32_le(x as nat));
}

/// Appends `bytes`, then `pad` until `len` bytes were added.
fn push_padded(out: &mut Vec<u8>, bytes: &[u8], len: usize, pad: u8)
    requires
        bytes@.len() <= len,
    ensures
        final(out)@ == old(out)@ + bytes@ + Seq::new((len - bytes@.len()) as nat, |i: int| pad),
{
    let mut i: usize = 0;
    while i < bytes.len()
        invariant
            i <= bytes@.len(),
            out@ == old(out)@ + bytes@.subrange(0, i as int),
        decreases bytes@.len() - i,
    {
        out.push(bytes[i]);
        assert(bytes@.subrange(0, i + 1) =~= bytes@.subrange(0, i as int).push(bytes@[i as int]));
        i = i + 1;
    }
    assert(bytes@.subrange(0, bytes@.len() as int) =~= bytes@);
    let mut k: usize = bytes.len();
    while k < len
        invariant
            bytes@.len() <= k <= len,
            out@ == old(out)@ + bytes@ + Seq::new((k - bytes@.len()) as nat, |i: int| pad),
        decreases len - k,
    {
        out.push(pad);
        assert(Seq::new((k + 1 - bytes@.len()) as nat, |i: int| pad) =~= Seq::new(
            (k - bytes@.len()) as nat,
            |i: int| pad,
        ).push(pad));
        k = k + 1;
    }
}

/// Wraps a scene description and a binary buffer into a binary glTF
/// container; the binary chunk is left out when the buffer is empty.
pub fn pack_glb(json: &str, bin_data: &[u8]) -> (glb: Vec<u8>)
    requires
        glb_total_len(json.spec_bytes().len(), bin_data@.len()) <= u32::MAX,
    ensures
        glb@ == glb_bytes(json.spec_bytes(), bin_data@),
{
    let json_bytes = json.as_bytes();
    let json_padded_len = (json_bytes.len() + 3) / 4 * 4;
    let bin_padded_len = (bin_data.len() + 3) / 4 * 4;
    let has_bin = bin_data.len() > 0;
    let bin_chunk_size = if has_bin {
        8 + bin_padded_len
    } else {
        0
    };
    let total_length = 12 + 8 + json_padded_len + bin_chunk_size;
    let mut glb: Vec<u8> = Vec::new();
    push_u32_le(&mut glb, GLB_MAGIC);
    push_u32_le(&mut glb, GLB_VERSION);
    push_u32_le(&mut glb, total_length as u32);
    push_u32_le(&mut glb, json_padded_len as u32);
    push_u32_le(&mut glb, CHUNK_JSON);
    push_padded(&mut glb, json_bytes, json_padded_len, 0x20u8);
    if has_bin {
        push_u32_le(&mut glb, bin_padded_len as u32);
        push_u32_le(&mut glb, CHUNK_BIN);
        push_padded(&mut glb, bin_data, bin_padded_len, 0u8);
    }
    assert(glb@ =~= glb_bytes(json.spec_bytes(), bin_data@)) by {
        reveal(glb_bytes);
    }
    glb
}

} // verus!

verus! {

proof fn lemma_u32_le_read(x: u32)
    ensures
        read_u32_le(u32_le(x as nat), 0) == x,
{
    let b0 = x % 256;
    let b1 = x / 256 % 256;
    let b2 = x / 65536 % 256;
    let b3 = x / 16777216 % 256;
    assert(b0 + 256 * b1 + 65536 * b2 + 16777216 * b3 == x) by (bit_vector)
        requires
            b0 == x % 256,
            b1 == x / 256 % 256,
            b2 == x / 65536 % 256,
            b3 == x / 16777216 % 256,
    ;
    let s = u32_le(x as nat);
    assert(s[0] == b0 && s[1] == b1 && s[2] == b2 && s[3] == b3);
}

/// The length field of a container's header holds the container's exact
/// byte length, and both chunk length fields are multiples of four that
/// count the chunk payload with its padding.
#[verifier::spinoff_prover]
pub proof fn lemma_glb_lengths(json: Seq<u8>, bin: Seq<u8>)
    requires
        glb_total_len(json.len(), bin.len()) <= u32::MAX,
    ensures
        glb_bytes(json, bin).len() == glb_total_len(json.len(), bin.len()),
        read_u32_le(glb_bytes(json, bin), 8) == glb_bytes(json, bin).len(),
        read_u32_le(glb_bytes(json, bin), 12) == padded_len(json.len()),
        read_u32_le(glb_bytes(json, bin), 12) % 4 == 0,
        bin.len() > 0 ==> {
            &&& read_u32_le(glb_bytes(json, bin), 20 + padded_len(json.len()) as int)
                == padded_len(bin.len())
            &&& read_u32_le(glb_bytes(json, bin), 20 + padded_len(json.len()) as int) % 4 == 0
            &&& glb_bytes(json, bin).len() == 20 + padded_len(json.len()) + 8 + read_u32_le(
                glb_bytes(json, bin),
                20 + padded_len(json.len()) as int,
            )
        },
{
    reveal(glb_bytes);
    let g = glb_bytes(json, bin);
    let jl = padded_len(json.len());
    let bl = padded_len(bin.len());
    let total = glb_total_len(json.len(), bin.len());
    assert(jl >= json.len() && jl % 4 == 0 && jl <= json.len() + 3);
    assert(bl >= bin.len() && bl % 4 == 0 && bl <= bin.len() + 3);
    lemma_u32_le_read(total as u32);
    lemma_u32_le_read(jl as u32);
    let head = u32_le(GLB_MAGIC as nat) + u32_le(GLB_VERSION as nat) + u32_le(total);
    assert(g[8] == u32_le(total)[0] && g[9] == u32_le(total)[1] && g[10] == u32_le(total)[2]
        && g[11] == u32_le(total)[3]);
    assert(g[12] == u32_le(jl)[0] && g[13] == u32_le(jl)[1] && g[14] == u32_le(jl)[2]
        && g[15] == u32_le(jl)[3]);
    if bin.len() > 0 {
        lemma_u32_le_read(bl as u32);
        let at: int = 20 + jl as int;
        assert(g[at] == u32_le(bl)[0] && g[at + 1] == u32_le(bl)[1] && g[at + 2] == u32_le(bl)[2]
            && g[at + 3] == u32_le(bl)[3]);
    }
}

/// The decimal digits of `n`, most significant first.
pub open spec fn decimal(n: nat) -> Seq<char>
    decreases n,
{
    if n < 10 {
        seq![(n + 48) as char]
    } else {
        decimal(n / 10).push(((n % 10) + 48) as char)
    }
}

/// One OBJ face record for the 1-based vertex numbers `a`, `b`, `c`; with
/// normals each vertex also names the normal of the same number.
pub open spec fn face_text(a: nat, b: nat, c: nat, normals: bool) -> Seq<char> {
    if normals {
        "f "@ + decimal(a) + "//"@ + decimal(a) + " "@ + decimal(b) + "//"@ + decimal(b) + " "@
            + decimal(c) + "//"@ + decimal(c) + "\n"@
    } else {
        "f "@ + decimal(a) + " "@ + decimal(b) + " "@ + decimal(c) + "\n"@
    }
}

/// Face records of the first `t` triangles of an index buffer, each index
/// made 1-based and moved by `offset`.
pub open spec fn faces_text(idx: Seq<u32>, offset: nat, normals: bool, t: nat) -> Seq<char>
    decreases t,
{
    if t == 0 {
        seq![]
    } else {
        let k = 3 * (t - 1);
        faces_text(idx, offset, normals, (t - 1) as nat) + face_text(
            (idx[k] + 1 + offset) as nat,
            (idx[k + 1] + 1 + offset) as nat,
            (idx[k + 2] + 1 + offset) as nat,
            normals,
        )
    }
}

/// The text of one decimal digit.
fn digit(d: u64) -> (r: &'static str)
    requires
        d < 10,
    ensures
        r@ == seq![(d + 48) as char],
{
    proof {
        reveal_strlit("0");
        reveal_strlit("1");
        reveal_strlit("2");
        reveal_strlit("3");
        reveal_strlit("4");
        reveal_strlit("5");
        reveal_strlit("6");
        reveal_strlit("7");
        reveal_strlit("8");
        reveal_strlit("9");
    }
    if d == 0 {
        "0"
    } else if d == 1 {
        "1"
    } else if d == 2 {
        "2"
    } else if d == 3 {
        "3"
    } else if d == 4 {
        "4"
    } else if d == 5 {
        "5"
    } else if d == 6 {
        "6"
    } else if d == 7 {
        "7"
    } else if d == 8 {
        "8"
    } else {
        "9"
    }
}

/// Appends the decimal digits of `n`.
pub(crate) fn push_decimal(out: &mut String, n: u64)
    ensures
        final(out)@ == old(out)@ + decimal(n as nat),
    decreases n,
{
    if n >= 10 {
        push_decimal(out, n / 10);
    }
    out.append(digit(n % 10));
    assert(final(out)@ =~= old(out)@ + decimal(n as nat));
}

/// Appends one face record.
fn push_face(out: &mut String, a: u64, b: u64, c: u64, normals: bool)
    ensures
        final(out)@ == old(out)@ + face_text(a as nat, b as nat, c as nat, normals),
{
    out.append("f ");
    push_decimal(out, a);
    if normals {
        out.append("//");
        push_decimal(out, a);
    }
    out.append(" ");
    push_decimal(out, b);
    if normals {
        out.append("//");
        push_decimal(out, b);
    }
    out.append(" ");
    push_decimal(out, c);
    if normals {
        out.append("//");
        push_decimal(out, c);
    }
    out.append("\n");
    assert(final(out)@ =~= old(out)@ + face_text(a as nat, b as nat, c as nat, normals));
}

/// OBJ face records of a triangle index buffer: one per complete triple of
/// indices, each index made 1-based and moved by `vertex_offset` (the number
/// of vertices written before this mesh); a trailing incomplete triple is
/// left out.
pub fn obj_faces(indices: &Vec<u32>, vertex_offset: u32, has_normals: bool) -> (text: String)
    ensures
        text@ == faces_text(indices@, vertex_offset as nat, has_normals, indices@.len() / 3),
{
    let mut text = String::new();
    let mut t: usize = 0;
    let n = indices.len() / 3;
    while t < n
        invariant
            t <= n,
            n == indices@.len() / 3,
            text@ == faces_text(indices@, vertex_offset as nat, has_normals, t as nat),
        decreases n - t,
    {
        proof {
            assert(3 * t + 2 < indices@.len()) by (nonlinear_arith)
                requires
                    t < n,
                    n == indices@.len() / 3,
            ;
            assert(indices@.len() == indices.len());
        }
        let k = 3 * t;
        let off = vertex_offset as u64;
        push_face(
            &mut text,
            indices[k] as u64 + 1 + off,
            indices[k + 1] as u64 + 1 + off,
            indices[k + 2] as u64 + 1 + off,
            has_normals,
        );
        t = t + 1;
    }
    text
}

/// The header line that starts an OBJ object.
pub fn obj_object_header(object_name: &str) -> (text: String)
    ensures
        text@ == "o "@ + object_name@ + "\n"@,
{
    let mut text = String::new();
    text.append("o ");
    text.append(object_name);
    text.append("\n");
    text
}

/// The scene description of an export with no meshes.
pub open spec fn empty_scene() -> Seq<u8> {
    "{\"asset\":{\"version\":\"2.0\",\"generator\":\"bevy_symbios\"},\"scene\":0,\"scenes\":[{\"name\":\"Empty\"}]}".spec_bytes()
}

/// The container of an empty export: a scene with no nodes or meshes, and no
/// binary chunk.
pub fn build_empty_glb() -> (glb: Vec<u8>)
    ensures
        glb@ == glb_bytes(empty_scene(), seq![]),
{
    let json = "{\"asset\":{\"version\":\"2.0\",\"generator\":\"bevy_symbios\"},\"scene\":0,\"scenes\":[{\"name\":\"Empty\"}]}";
    proof {
        reveal_strlit("{\"asset\":{\"version\":\"2.0\",\"generator\":\"bevy_symbios\"},\"scene\":0,\"scenes\":[{\"name\":\"Empty\"}]}");
        assert(vstd::string::is_ascii(json));
        vstd::string::is_ascii_spec_bytes(json);
    }
    let empty: Vec<u8> = Vec::new();
    pack_glb(json, empty.as_slice())
}

/// Vertex and index data of one material bucket, with every float attribute
/// already in its little-endian bytes: 12 per vertex for positions and
/// normals, 16 for colours. `bounds` is the text of the position bounds as
/// the scene description writes them, `"min":[x,y,z],"max":[x,y,z]`.
pub struct GlbPrimitive {
    pub material_id: u8,
    pub positions: Vec<u8>,
    pub normals: Option<Vec<u8>>,
    pub colors: Option<Vec<u8>>,
    pub indices: Option<Vec<u32>>,
    pub bounds: String,
}

/// A region of the binary buffer.
#[derive(Clone, Copy, Debug, PartialEq, Eq, Structural)]
pub struct BufferView {
    pub offset: usize,
    pub length: usize,
    pub target: u32,
}

/// The little-endian bytes of each index in turn.
pub open spec fn indices_le(idx: Seq<u32>) -> Seq<u8>
    decreases idx.len(),
{
    if idx.len() == 0 {
        seq![]
    } else {
        indices_le(idx.drop_last()) + u32_le(idx.last() as nat)
    }
}

/// The streams of one bucket, in buffer order, each with its target:
/// positions, then normals, colours and indices where present. A bucket
/// without vertices has none.
pub open spec fn prim_streams(p: GlbPrimitive) -> Seq<(Seq<u8>, u32)> {
    if p.positions@.len() == 0 {
        seq![]
    } else {
        seq![(p.positions@, TARGET_ARRAY_BUFFER)] + match p.normals {
            Some(n) => seq![(n@, TARGET_ARRAY_BUFFER)],
            None => seq![],
        } + match p.colors {
            Some(c) => seq![(c@, TARGET_ARRAY_BUFFER)],
            None => seq![],
        } + match p.indices {
            Some(i) => seq![(indices_le(i@), TARGET_ELEMENT_ARRAY_BUFFER)],
            None => seq![],
        }
    }
}

/// The streams of the first `k` buckets.
pub open spec fn all_streams(prims: Seq<GlbPrimitive>, k: nat) -> Seq<(Seq<u8>, u32)>
    decreases k,
{
    if k == 0 {
        seq![]
    } else {
        all_streams(prims, (k - 1) as nat) + prim_streams(prims[k - 1])
    }
}

/// The streams laid end to end.
pub open spec fn stream_bytes(streams: Seq<(Seq<u8>, u32)>) -> Seq<u8>
    decreases streams.len(),
{
    if streams.len() == 0 {
        seq![]
    } else {
        stream_bytes(streams.drop_last()) + streams.last().0
    }
}

/// One view per stream: where it starts in the laid-out bytes, its length
/// and its target.
pub open spec fn stream_views(streams: Seq<(Seq<u8>, u32)>) -> Seq<BufferView>
    decreases streams.len(),
{
    if streams.len() == 0 {
        seq![]
    } else {
        stream_views(streams.drop_last()).push(
            BufferView {
                offset: stream_bytes(streams.drop_last()).len() as usize,
                length: streams.last().0.len() as usize,
                target: streams.last().1,
            },
        )
    }
}

/// Appends one stream and its view.
fn append_stream(
    bin: &mut Vec<u8>,
    views: &mut Vec<BufferView>,
    bytes: &[u8],
    target: u32,
    streams: Ghost<Seq<(Seq<u8>, u32)>>,
)
    requires
        old(bin)@ == stream_bytes(streams@),
        old(views)@ == stream_views(streams@),
    ensures
        final(bin)@ == stream_bytes(streams@.push((bytes@, target))),
        final(views)@ == stream_views(streams@.push((bytes@, target))),
{
    let offset = bin.len();
    let mut i: usize = 0;
    while i < bytes.len()
        invariant
            i <= bytes@.len(),
            offset == old(bin)@.len(),
            bin@ == old(bin)@ + bytes@.subrange(0, i as int),
        decreases bytes@.len() - i,
    {
        bin.push(bytes[i]);
        assert(bytes@.subrange(0, i + 1) =~= bytes@.subrange(0, i as int).push(bytes@[i as int]));
        i = i + 1;
    }
    views.push(BufferView { offset, length: bytes.len(), target });
    let ghost next = streams@.push((bytes@, target));
    assert(next.drop_last() =~= streams@);
    assert(bytes@.subrange(0, bytes@.len() as int) =~= bytes@);
    assert(bin@ =~= stream_bytes(next));
}

/// The little-endian bytes of an index buffer.
fn index_bytes(idx: &Vec<u32>) -> (bytes: Vec<u8>)
    ensures
        bytes@ == indices_le(idx@),
{
    let mut bytes: Vec<u8> = Vec::new();
    let mut i: usize = 0;
    while i < idx.len()
        invariant
            i <= idx@.len(),
            bytes@ == indices_le(idx@.subrange(0, i as int)),
        decreases idx@.len() - i,
    {
        push_u32_le(&mut bytes, idx[i]);
        assert(idx@.subrange(0, i + 1).drop_last() =~= idx@.subrange(0, i as int));
        i = i + 1;
    }
    assert(idx@.subrange(0, idx@.len() as int) =~= idx@);
    bytes
}

/// The binary buffer of an export and its views: each bucket's streams in
/// bucket order, laid end to end.
pub fn pack_buffers(prims: &Vec<GlbPrimitive>) -> (r: (Vec<u8>, Vec<BufferView>))
    ensures
        r.0@ == stream_bytes(all_streams(prims@, prims@.len())),
        r.1@ == stream_views(all_streams(prims@, prims@.len())),
{
    let mut bin: Vec<u8> = Vec::new();
    let mut views: Vec<BufferView> = Vec::new();
    let mut k: usize = 0;
    while k < prims.len()
        invariant
            k <= prims@.len(),
            bin@ == stream_bytes(all_streams(prims@, k as nat)),
            views@ == stream_views(all_streams(prims@, k as nat)),
        decreases prims@.len() - k,
    {
        let p = &prims[k];
        let ghost before = all_streams(prims@, k as nat);
        let ghost here = prim_streams(prims@[k as int]);
        if p.positions.len() > 0 {
            let ghost s0 = before.push((p.positions@, TARGET_ARRAY_BUFFER));
            append_stream(&mut bin, &mut views, p.positions.as_slice(), TARGET_ARRAY_BUFFER, Ghost(before));
            let ghost mut acc = s0;
            match &p.normals {
                Some(n) => {
                    append_stream(&mut bin, &mut views, n.as_slice(), TARGET_ARRAY_BUFFER, Ghost(acc));
                    proof {
                        acc = acc.push((n@, TARGET_ARRAY_BUFFER));
                    }
                },
                None => {},
            }
            match &p.colors {
                Some(c) => {
                    append_stream(&mut bin, &mut views, c.as_slice(), TARGET_ARRAY_BUFFER, Ghost(acc));
                    proof {
                        acc = acc.push((c@, TARGET_ARRAY_BUFFER));
                    }
                },
                None => {},
            }
            match &p.indices {
                Some(idx) => {
                    let bytes = index_bytes(idx);
                    append_stream(
                        &mut bin,
                        &mut views,
                        bytes.as_slice(),
                        TARGET_ELEMENT_ARRAY_BUFFER,
                        Ghost(acc),
                    );
                    proof {
                        acc = acc.push((bytes@, TARGET_ELEMENT_ARRAY_BUFFER));
                    }
                },
                None => {},
            }
            assert(acc =~= before + here);
        } else {
            assert(before + here =~= before);
        }
        assert(all_streams(prims@, (k + 1) as nat) == before + here);
        k = k + 1;
    }
    (bin, views)
}

/// Every stream has a length that is a multiple of four.
pub open spec fn streams_aligned(streams: Seq<(Seq<u8>, u32)>) -> bool {
    forall|i: int| 0 <= i < streams.len() ==> (#[trigger] streams[i]).0.len() % 4 == 0
}

/// The float attributes of a bucket come in whole four-byte values.
pub open spec fn prim_aligned(p: GlbPrimitive) -> bool {
    &&& p.positions@.len() % 4 == 0
    &&& (p.normals matches Some(n) ==> n@.len() % 4 == 0)
    &&& (p.colors matches Some(c) ==> c@.len() % 4 == 0)
}

proof fn lemma_indices_le_len(idx: Seq<u32>)
    ensures
        indices_le(idx).len() == 4 * idx.len(),
    decreases idx.len(),
{
    if idx.len() > 0 {
        lemma_indices_le_len(idx.drop_last());
    }
}

proof fn lemma_all_streams_aligned(prims: Seq<GlbPrimitive>, k: nat)
    requires
        k <= prims.len(),
        forall|i: int| 0 <= i < prims.len() ==> prim_aligned(#[trigger] prims[i]),
    ensures
        streams_aligned(all_streams(prims, k)),
    decreases k,
{
    if k > 0 {
        lemma_all_streams_aligned(prims, (k - 1) as nat);
        let p = prims[k - 1];
        assert(prim_aligned(p));
        let prev = all_streams(prims, (k - 1) as nat);
        let here = prim_streams(p);
        match p.indices {
            Some(i) => lemma_indices_le_len(i@),
            None => {},
        }
        assert(streams_aligned(here));
        let all = prev + here;
        assert forall|i: int| 0 <= i < all.len() implies (#[trigger] all[i]).0.len() % 4 == 0 by {
            if i >= prev.len() {
                assert(all[i] == here[i - prev.len()]);
            } else {
                assert(all[i] == prev[i]);
            }
        }
    }
}

proof fn lemma_views_aligned(streams: Seq<(Seq<u8>, u32)>)
    requires
        streams_aligned(streams),
        stream_bytes(streams).len() <= usize::MAX,
    ensures
        stream_bytes(streams).len() % 4 == 0,
        stream_views(streams).len() == streams.len(),
        forall|i: int|
            0 <= i < stream_views(streams).len() ==> (#[trigger] stream_views(streams)[i]).offset
                % 4 == 0 && stream_views(streams)[i].length % 4 == 0,
    decreases streams.len(),
{
    if streams.len() > 0 {
        let init = streams.drop_last();
        assert forall|i: int| 0 <= i < init.len() implies (#[trigger] init[i]).0.len() % 4 == 0 by {
            assert(init[i] == streams[i]);
        }
        lemma_views_aligned(init);
        assert(streams.last() == streams[streams.len() - 1]);
        let views = stream_views(streams);
        assert forall|i: int| 0 <= i < views.len() implies (#[trigger] views[i]).offset % 4 == 0
            && views[i].length % 4 == 0 by {
            if i < init.len() {
                assert(views[i] == stream_views(init)[i]);
            }
        }
    }
}

/// Each stream of the binary buffer starts on a four-byte boundary and has a
/// length that is a multiple of four, so the buffer's length is too, as long
/// as every bucket's float attributes come in whole four-byte values (and
/// the buffer fits in memory).
pub proof fn lemma_buffer_aligned(prims: Seq<GlbPrimitive>)
    requires
        forall|i: int| 0 <= i < prims.len() ==> prim_aligned(#[trigger] prims[i]),
        stream_bytes(all_streams(prims, prims.len())).len() <= usize::MAX,
    ensures
        stream_bytes(all_streams(prims, prims.len())).len() % 4 == 0,
        forall|i: int|
            0 <= i < stream_views(all_streams(prims, prims.len())).len() ==> (
            #[trigger] stream_views(all_streams(prims, prims.len()))[i]).offset % 4 == 0
                && stream_views(all_streams(prims, prims.len()))[i].length % 4 == 0,
{
    lemma_all_streams_aligned(prims, prims.len());
    lemma_views_aligned(all_streams(prims, prims.len()));
}

} // verus!

verus! {

/// Sum of the first `i` vertex counts.
pub open spec fn count_prefix(counts: Seq<usize>, i: nat) -> nat
    decreases i,
{
    if i == 0 {
        0
    } else {
        count_prefix(counts, (i - 1) as nat) + counts[i - 1] as nat
    }
}

proof fn lemma_count_prefix_grows(counts: Seq<usize>, i: nat, n: nat)
    requires
        i <= n <= counts.len(),
    ensures
        count_prefix(counts, i) <= count_prefix(counts, n),
    decreases n - i,
{
    if i < n {
        lemma_count_prefix_grows(counts, i, (n - 1) as nat);
    }
}

/// Vertex offsets of the objects of one OBJ file: the object written `i`-th
/// follows the vertices of all objects before it, so its offset is the sum of
/// their vertex counts. `None` when an offset would not fit in 32 bits (the
/// last object's own count does not matter).
pub fn obj_vertex_offsets(counts: &Vec<usize>) -> (r: Option<Vec<u32>>)
    ensures
        r is Some <==> (counts@.len() == 0 || count_prefix(counts@, (counts@.len() - 1) as nat)
            <= u32::MAX),
        r matches Some(v) ==> v@.len() == counts@.len() && forall|i: int|
            0 <= i < v@.len() ==> v@[i] == count_prefix(counts@, i as nat),
{
    let mut offsets: Vec<u32> = Vec::new();
    let mut acc: u32 = 0;
    let mut i: usize = 0;
    while i < counts.len()
        invariant
            i <= counts@.len(),
            i < counts@.len() ==> acc == count_prefix(counts@, i as nat),
            offsets@.len() == i,
            forall|j: int| 0 <= j < i ==> offsets@[j] == count_prefix(counts@, j as nat),
        decreases counts@.len() - i,
    {
        offsets.push(acc);
        if i + 1 < counts.len() {
            if counts[i] > (u32::MAX - acc) as usize {
                proof {
                    lemma_count_prefix_grows(counts@, (i + 1) as nat, (counts@.len() - 1) as nat);
                }
                return None;
            }
            acc = acc + counts[i] as u32;
        }
        i = i + 1;
    }
    if counts.len() > 0 {
        assert(offsets@[counts@.len() - 1] == count_prefix(counts@, (counts@.len() - 1) as nat));
    }
    Some(offsets)
}

} // verus!

pub use crate::scene::meshes_to_glb;
