//! Tube layout: which rings each material bucket holds, and how they are
//! stitched into triangles.
//!
//! A strand is given by the material tags of its points after near-duplicate
//! points were dropped. Segment `i` joins point `i` to point `i + 1` and
//! belongs to the bucket of point `i`'s material. Within a bucket every ring
//! is `resolution + 1` consecutive vertices, so ring `k` starts at vertex
//! `k * (resolution + 1)`.
use vstd::prelude::*;

verus! {

/// Smallest number of vertices around a ring.
pub const MIN_RESOLUTION: u32 = 3;

/// Largest number of vertices around a ring.
pub const MAX_RESOLUTION: u32 = 128;

/// Ring resolution of a fresh builder.
pub const DEFAULT_RESOLUTION: u32 = 8;

/// The resolution actually used for a requested one: clamped into
/// `[MIN_RESOLUTION, MAX_RESOLUTION]`.
pub open spec fn clamped_resolution(res: u32) -> u32 {
    if res < MIN_RESOLUTION {
        MIN_RESOLUTION
    } else if res > MAX_RESOLUTION {
        MAX_RESOLUTION
    } else {
        res
    }
}

/// One ring of a bucket: the point of a strand that it is centred on.
#[derive(Clone, Copy, Debug, PartialEq, Eq, Structural)]
pub struct RingRef {
    pub strand: usize,
    pub point: usize,
}

/// The rings and triangle indices of one material bucket.
pub struct BucketLayout {
    pub material_id: u8,
    pub rings: Vec<RingRef>,
    pub indices: Vec<u32>,
}

/// The layout of every bucket of a skeleton, each material at most once.
pub struct MeshLayout {
    pub resolution: u32,
    pub buckets: Vec<BucketLayout>,
}

/// Number of segments of a strand of `m.len()` points.
pub open spec fn seg_count(m: Seq<u8>) -> nat {
    if m.len() < 2 {
        0
    } else {
        (m.len() - 1) as nat
    }
}

/// Segment `i` starts a new run: it is the first segment, or its material
/// differs from that of the segment before it.
pub open spec fn starts_run(m: Seq<u8>, i: int) -> bool {
    i == 0 || m[i - 1] != m[i]
}

/// The ring for point `p` of strand `s`.
pub open spec fn ring_at(s: int, p: int) -> RingRef {
    RingRef { strand: s as usize, point: p as usize }
}

/// Rings that the first `j` segments of strand `s` (materials `m`) add to the
/// bucket of material `b`: a segment of material `b` adds its top ring, and
/// also its bottom ring when it starts a run; otherwise the bottom ring is the
/// top ring of the segment before it.
pub open spec fn strand_rings(s: int, m: Seq<u8>, b: u8, j: nat) -> Seq<RingRef>
    decreases j,
{
    if j == 0 {
        seq![]
    } else {
        let i = j - 1;
        let prev = strand_rings(s, m, b, i as nat);
        if m[i] != b {
            prev
        } else if starts_run(m, i) {
            prev.push(ring_at(s, i)).push(ring_at(s, i + 1))
        } else {
            prev.push(ring_at(s, i + 1))
        }
    }
}

/// The `6 * res` indices joining a bottom ring starting at vertex `bottom` to
/// a top ring starting at vertex `top`: quad `q` is the two triangles
/// (bottom q, top q, bottom q+1) and (bottom q+1, top q, top q+1).
pub open spec fn quad_strip(bottom: int, top: int, res: nat) -> Seq<u32> {
    Seq::new(
        6 * res,
        |t: int|
            {
                let q = t / 6;
                let c = t % 6;
                if c == 0 {
                    (bottom + q) as u32
                } else if c == 1 || c == 4 {
                    (top + q) as u32
                } else if c == 2 || c == 3 {
                    (bottom + q + 1) as u32
                } else {
                    (top + q + 1) as u32
                }
            },
    )
}

/// Indices that the first `j` segments of strand `s` add to the bucket of
/// material `b`, where `base` rings stood in the bucket before the strand.
pub open spec fn strand_indices(s: int, m: Seq<u8>, b: u8, j: nat, base: nat, res: nat) -> Seq<
    u32,
>
    decreases j,
{
    if j == 0 {
        seq![]
    } else {
        let i = j - 1;
        let prev = strand_indices(s, m, b, i as nat, base, res);
        if m[i] != b {
            prev
        } else {
            let k: int = (base + strand_rings(s, m, b, i as nat).len()) as int;
            let bottom = if starts_run(m, i) {
                k
            } else {
                k - 1
            };
            let top = if starts_run(m, i) {
                k + 1
            } else {
                k
            };
            prev + quad_strip(bottom * (res + 1) as int, top * (res + 1) as int, res)
        }
    }
}

/// Rings of the bucket of material `b` after the first `k` strands.
pub open spec fn bucket_rings(strands: Seq<Seq<u8>>, b: u8, k: nat) -> Seq<RingRef>
    decreases k,
{
    if k == 0 {
        seq![]
    } else {
        let s = k - 1;
        bucket_rings(strands, b, s as nat) + strand_rings(s, strands[s], b, seg_count(strands[s]))
    }
}

/// Triangle indices of the bucket of material `b` after the first `k` strands.
pub open spec fn bucket_indices(strands: Seq<Seq<u8>>, b: u8, k: nat, res: nat) -> Seq<u32>
    decreases k,
{
    if k == 0 {
        seq![]
    } else {
        let s = k - 1;
        bucket_indices(strands, b, s as nat, res) + strand_indices(
            s,
            strands[s],
            b,
            seg_count(strands[s]),
            bucket_rings(strands, b, s as nat).len(),
            res,
        )
    }
}

/// Total number of points over the first `k` strands.
pub open spec fn total_points(strands: Seq<Seq<u8>>, k: nat) -> nat
    decreases k,
{
    if k == 0 {
        0
    } else {
        total_points(strands, (k - 1) as nat) + strands[k - 1].len()
    }
}

/// The strands as sequences of material tags.
pub open spec fn strands_view(strands: Seq<Vec<u8>>) -> Seq<Seq<u8>> {
    strands.map_values(|v: Vec<u8>| v@)
}

impl BucketLayout {
    /// Rings and indices are those of material `material_id` over `strands`.
    pub open spec fn matches(&self, strands: Seq<Seq<u8>>, res: nat) -> bool {
        &&& self.rings@ == bucket_rings(strands, self.material_id, strands.len())
        &&& self.indices@ == bucket_indices(strands, self.material_id, strands.len(), res)
    }

    /// Number of vertices of the bucket: `res + 1` per ring.
    pub fn vertex_count(&self, res: u32) -> (n: usize)
        requires
            res + 1 <= usize::MAX,
            self.rings.len() * (res + 1) <= usize::MAX,
        ensures
            n == self.rings.len() * (res + 1),
    {
        self.rings.len() * (res as usize + 1)
    }
}

impl MeshLayout {
    /// The bucket of material `material_id`, if some segment carries it.
    pub fn bucket(&self, material_id: u8) -> (r: Option<&BucketLayout>)
        ensures
            r is None <==> forall|i: int|
                0 <= i < self.buckets.len() ==> #[trigger] self.buckets[i].material_id != material_id,
            r is Some ==> exists|i: int|
                0 <= i < self.buckets.len() && self.buckets[i].material_id == material_id
                    && r->0 == #[trigger] self.buckets[i],
    {
        let mut i: usize = 0;
        while i < self.buckets.len()
            invariant
                i <= self.buckets.len(),
                forall|j: int| 0 <= j < i ==> #[trigger] self.buckets[j].material_id != material_id,
            decreases self.buckets.len() - i,
        {
            if self.buckets[i].material_id == material_id {
                return Some(&self.buckets[i]);
            }
            i = i + 1;
        }
        None
    }

    /// Number of vertices of the bucket of material `material_id`, or zero
    /// where no segment carries it.
    pub fn vertex_count(&self, material_id: u8) -> (n: usize)
        requires
            self.resolution + 1 <= usize::MAX,
            forall|i: int|
                0 <= i < self.buckets.len() ==> #[trigger] self.buckets[i].rings.len() * (
                self.resolution + 1) <= usize::MAX,
        ensures
            (forall|i: int|
                0 <= i < self.buckets.len() ==> #[trigger] self.buckets[i].material_id != material_id)
                ==> n == 0,
            forall|i: int|
                0 <= i < self.buckets.len() && #[trigger] self.buckets[i].material_id == material_id
                    && self.unique_ids() ==> n == self.buckets[i].rings.len() * (self.resolution + 1),
    {
        match self.bucket(material_id) {
            Some(b) => b.vertex_count(self.resolution),
            None => 0,
        }
    }

    /// No material has two buckets.
    pub open spec fn unique_ids(&self) -> bool {
        forall|i: int, j: int|
            0 <= i < j < self.buckets.len() ==> self.buckets[i].material_id
                != self.buckets[j].material_id
    }

    /// The buckets are those of `strands` at this resolution: one per material
    /// that some segment carries, none twice, each with its exact rings and
    /// indices.
    pub open spec fn describes(&self, strands: Seq<Seq<u8>>) -> bool {
        &&& forall|i: int|
            0 <= i < self.buckets.len() ==> #[trigger] self.buckets[i].matches(
                strands,
                self.resolution as nat,
            )
        &&& forall|i: int, j: int|
            0 <= i < j < self.buckets.len() ==> self.buckets[i].material_id
                != self.buckets[j].material_id
        &&& forall|b: u8|
            bucket_rings(strands, b, strands.len()).len() > 0 <==> exists|i: int|
                0 <= i < self.buckets.len() && #[trigger] self.buckets[i].material_id == b
    }
}

/// The layout of material buckets after the first `k` strands, with each
/// bucket's rings short enough that all their vertex indices fit in `u32`.
pub open spec fn layout_after(
    buckets: Seq<BucketLayout>,
    strands: Seq<Seq<u8>>,
    k: nat,
    res: nat,
) -> bool {
    &&& forall|i: int|
        0 <= i < buckets.len() ==> {
            &&& #[trigger] buckets[i].rings@ == bucket_rings(strands, buckets[i].material_id, k)
            &&& buckets[i].indices@ == bucket_indices(strands, buckets[i].material_id, k, res)
        }
    &&& forall|i: int, j: int|
        0 <= i < j < buckets.len() ==> buckets[i].material_id != buckets[j].material_id
    &&& forall|b: u8|
        bucket_rings(strands, b, k).len() > 0 <==> exists|i: int|
            0 <= i < buckets.len() && #[trigger] buckets[i].material_id == b
}

pub(crate) proof fn lemma_strand_rings_len(s: int, m: Seq<u8>, b: u8, j: nat)
    requires
        j <= m.len(),
    ensures
        strand_rings(s, m, b, j).len() <= 2 * j,
        j > 0 && m[j - 1] == b ==> strand_rings(s, m, b, j).len() > 0,
    decreases j,
{
    if j > 0 {
        lemma_strand_rings_len(s, m, b, (j - 1) as nat);
    }
}

pub(crate) proof fn lemma_bucket_rings_len(strands: Seq<Seq<u8>>, b: u8, k: nat)
    requires
        k <= strands.len(),
    ensures
        bucket_rings(strands, b, k).len() <= 2 * total_points(strands, k),
    decreases k,
{
    if k > 0 {
        let s = k - 1;
        lemma_bucket_rings_len(strands, b, s as nat);
        lemma_strand_rings_len(s, strands[s], b, seg_count(strands[s]));
    }
}

pub(crate) proof fn lemma_total_points_mono(strands: Seq<Seq<u8>>, k: nat, n: nat)
    requires
        k <= n <= strands.len(),
    ensures
        total_points(strands, k) + strands[k as int].len() <= total_points(strands, n) || k == n,
        total_points(strands, k) <= total_points(strands, n),
    decreases n - k,
{
    if k < n {
        lemma_total_points_mono(strands, k, (n - 1) as nat);
        if k < n - 1 {
            lemma_total_points_mono(strands, (k + 1) as nat, n);
        }
    }
}

proof fn lemma_strand_indices_empty(s: int, m: Seq<u8>, b: u8, j: nat, base: nat, r: nat)
    requires
        j <= m.len(),
        strand_rings(s, m, b, j).len() == 0,
    ensures
        strand_indices(s, m, b, j, base, r).len() == 0,
    decreases j,
{
    if j > 0 {
        lemma_strand_rings_len(s, m, b, j);
        lemma_strand_rings_len(s, m, b, (j - 1) as nat);
        lemma_strand_indices_empty(s, m, b, (j - 1) as nat, base, r);
    }
}

proof fn lemma_bucket_indices_empty(strands: Seq<Seq<u8>>, b: u8, k: nat, r: nat)
    requires
        k <= strands.len(),
        bucket_rings(strands, b, k).len() == 0,
    ensures
        bucket_indices(strands, b, k, r).len() == 0,
    decreases k,
{
    if k > 0 {
        let s = k - 1;
        lemma_bucket_indices_empty(strands, b, s as nat, r);
        lemma_strand_indices_empty(
            s,
            strands[s],
            b,
            seg_count(strands[s]),
            bucket_rings(strands, b, s as nat).len(),
            r,
        );
    }
}

/// Appends a ring to a bucket and returns the index of its first vertex.
fn add_ring(bucket: &mut BucketLayout, ring: RingRef, res: u32) -> (start: u32)
    requires
        (old(bucket).rings.len() + 1) * (res + 1) <= u32::MAX,
    ensures
        final(bucket).rings@ == old(bucket).rings@.push(ring),
        final(bucket).indices@ == old(bucket).indices@,
        final(bucket).material_id == old(bucket).material_id,
        start == old(bucket).rings.len() * (res + 1),
{
    let n = bucket.rings.len();
    proof {
        assert(n * (res + 1) <= (n + 1) * (res + 1) && n + 1 <= (n + 1) * (res + 1)
            && res + 1 <= (n + 1) * (res + 1)) by (nonlinear_arith);
    }
    let start = (n as u32) * (res + 1);
    bucket.rings.push(ring);
    start
}

/// Joins two rings of `res + 1` vertices with `res` quads of two triangles.
fn connect_rings(bucket: &mut BucketLayout, bottom_start: u32, top_start: u32, res: u32)
    requires
        bottom_start + res + 1 <= u32::MAX,
        top_start + res + 1 <= u32::MAX,
    ensures
        final(bucket).indices@ == old(bucket).indices@ + quad_strip(
            bottom_start as int,
            top_start as int,
            res as nat,
        ),
        final(bucket).rings@ == old(bucket).rings@,
        final(bucket).material_id == old(bucket).material_id,
{
    let ghost start = bucket.indices@;
    let mut i: u32 = 0;
    while i < res
        invariant
            i <= res,
            bottom_start + res + 1 <= u32::MAX,
            top_start + res + 1 <= u32::MAX,
            bucket.indices@ =~= start + quad_strip(bottom_start as int, top_start as int, i as nat),
            bucket.rings@ == old(bucket).rings@,
            bucket.material_id == old(bucket).material_id,
            start == old(bucket).indices@,
        decreases res - i,
    {
        let bottom_curr = bottom_start + i;
        let bottom_next = bottom_start + i + 1;
        let top_curr = top_start + i;
        let top_next = top_start + i + 1;
        bucket.indices.push(bottom_curr);
        bucket.indices.push(top_curr);
        bucket.indices.push(bottom_next);
        bucket.indices.push(bottom_next);
        bucket.indices.push(top_curr);
        bucket.indices.push(top_next);
        proof {
            let a = quad_strip(bottom_start as int, top_start as int, i as nat);
            let c = quad_strip(bottom_start as int, top_start as int, (i + 1) as nat);
            assert forall|t: int| 0 <= t < 6 * i implies #[trigger] c[t] == a[t] by {
                assert(t / 6 < i) by (nonlinear_arith) requires 0 <= t < 6 * i;
            }
            assert forall|t: int| 6 * i <= t < 6 * i + 6 implies (#[trigger] c[t]) == (if t % 6 == 0 {
                bottom_curr
            } else if t % 6 == 1 || t % 6 == 4 {
                top_curr
            } else if t % 6 == 2 || t % 6 == 3 {
                bottom_next
            } else {
                top_next
            }) by {
                assert(t / 6 == i && t % 6 == t - 6 * i) by (nonlinear_arith)
                    requires
                        6 * i <= t < 6 * i + 6,
                ;
            }
            assert(c =~= a.push(bottom_curr).push(top_curr).push(bottom_next).push(bottom_next).push(top_curr).push(top_next));
        }
        i = i + 1;
    }
}

/// The index of the bucket of material `mat`, appended empty when missing.
fn bucket_for(buckets: &mut Vec<BucketLayout>, mat: u8) -> (bi: usize)
    ensures
        bi < final(buckets).len(),
        final(buckets)[bi as int].material_id == mat,
        bi < old(buckets).len() ==> final(buckets)@ == old(buckets)@,
        bi == old(buckets).len() ==> {
            &&& final(buckets)@ == old(buckets)@.push(final(buckets)[bi as int])
            &&& final(buckets)[bi as int].rings@.len() == 0
            &&& final(buckets)[bi as int].indices@.len() == 0
            &&& forall|i: int|
                0 <= i < old(buckets).len() ==> #[trigger] old(buckets)[i].material_id != mat
        },
        bi <= old(buckets).len(),
{
    let mut i: usize = 0;
    while i < buckets.len()
        invariant
            i <= buckets.len(),
            buckets@ == old(buckets)@,
            forall|j: int| 0 <= j < i ==> #[trigger] buckets[j].material_id != mat,
        decreases buckets.len() - i,
    {
        if buckets[i].material_id == mat {
            return i;
        }
        i = i + 1;
    }
    buckets.push(BucketLayout { material_id: mat, rings: Vec::new(), indices: Vec::new() });
    i
}

pub(crate) proof fn lemma_mul_le(a: nat, c: nat, r: nat)
    requires
        a <= c,
    ensures
        a * r <= c * r,
{
    assert(a * r <= c * r) by (nonlinear_arith)
        requires
            a <= c,
    ;
}

/// A bucket holds the rings and indices of its material over the first `k`
/// strands and the first `i` segments of strand `k` (materials `m`).
pub open spec fn bucket_partial(
    bk: BucketLayout,
    strands: Seq<Seq<u8>>,
    k: nat,
    m: Seq<u8>,
    i: nat,
    res: nat,
) -> bool {
    &&& bk.rings@ == bucket_rings(strands, bk.material_id, k) + strand_rings(
        k as int,
        m,
        bk.material_id,
        i,
    )
    &&& bk.indices@ == bucket_indices(strands, bk.material_id, k, res) + strand_indices(
        k as int,
        m,
        bk.material_id,
        i,
        bucket_rings(strands, bk.material_id, k).len(),
        res,
    )
}

/// Adds the rings and triangles of strand `s` (materials `m`) to the buckets.
#[verifier::spinoff_prover]
fn process_strand(
    buckets: &mut Vec<BucketLayout>,
    s: usize,
    m: &Vec<u8>,
    res: u32,
    strands: Ghost<Seq<Seq<u8>>>,
)
    requires
        s < strands@.len(),
        strands@[s as int] == m@,
        1 <= res <= MAX_RESOLUTION,
        2 * total_points(strands@, strands@.len()) * (res + 1) <= u32::MAX,
        layout_after(old(buckets)@, strands@, s as nat, res as nat),
    ensures
        layout_after(final(buckets)@, strands@, (s + 1) as nat, res as nat),
{
    let ghost sq = strands@;
    let ghost r = res as nat;
    let ghost sn = s as nat;
    let n = m.len();
    proof {
        lemma_total_points_mono(sq, sn, sq.len());
        lemma_total_points_mono(sq, (sn + 1) as nat, sq.len());
    }
    if n < 2 {
        assert forall|b: u8| #[trigger] bucket_rings(sq, b, (sn + 1) as nat) == bucket_rings(sq, b, sn)
            && bucket_indices(sq, b, (sn + 1) as nat, r) == bucket_indices(sq, b, sn, r) by {
            assert(bucket_rings(sq, b, (sn + 1) as nat) =~= bucket_rings(sq, b, sn));
            assert(bucket_indices(sq, b, (sn + 1) as nat, r) =~= bucket_indices(sq, b, sn, r));
        }
        return;
    }
    proof {
        assert forall|j: int| 0 <= j < buckets.len() implies bucket_partial(
            #[trigger] buckets[j],
            sq,
            sn,
            m@,
            0,
            r,
        ) by {
            assert(buckets[j].rings@ =~= bucket_rings(sq, buckets[j].material_id, sn)
                + strand_rings(s as int, m@, buckets[j].material_id, 0));
            assert(buckets[j].indices@ =~= bucket_indices(sq, buckets[j].material_id, sn, r)
                + strand_indices(s as int, m@, buckets[j].material_id, 0, bucket_rings(sq, buckets[j].material_id, sn).len(), r));
        }
        assert forall|b: u8| #[trigger] (bucket_rings(sq, b, sn) + strand_rings(s as int, m@, b, 0)) == bucket_rings(sq, b, sn) by {
            assert((bucket_rings(sq, b, sn) + strand_rings(s as int, m@, b, 0)) =~= bucket_rings(sq, b, sn));
        }
    }
    let mut i: usize = 0;
    while i < n - 1
        invariant
            2 <= n == m.len(),
            i <= n - 1,
            sq == strands@,
            s < sq.len(),
            sq[s as int] == m@,
            1 <= res <= MAX_RESOLUTION,
            r == res as nat,
            sn == s as nat,
            total_points(sq, (sn + 1) as nat) == total_points(sq, sn) + n,
            total_points(sq, (sn + 1) as nat) <= total_points(sq, sq.len()),
            2 * total_points(sq, sq.len()) * (res + 1) <= u32::MAX,
            forall|j: int|
                0 <= j < buckets.len() ==> bucket_partial(#[trigger] buckets[j], sq, sn, m@, i as nat, r),
            forall|j: int, k: int|
                0 <= j < k < buckets.len() ==> buckets[j].material_id != buckets[k].material_id,
            forall|b: u8|
                (bucket_rings(sq, b, sn) + strand_rings(s as int, m@, b, i as nat)).len() > 0
                    <==> exists|j: int|
                    0 <= j < buckets.len() && #[trigger] buckets[j].material_id == b,
        decreases n - 1 - i,
    {
        let mat = m[i];
        let ghost before = buckets@;
        let bi = bucket_for(buckets, mat);
        let ghost base = bucket_rings(sq, mat, sn).len();
        proof {
            lemma_bucket_rings_len(sq, mat, sn);
            lemma_strand_rings_len(s as int, m@, mat, i as nat);
            lemma_strand_rings_len(s as int, m@, mat, (i + 1) as nat);
            if bi == before.len() {
                assert(!(exists|j: int| 0 <= j < before.len() && #[trigger] before[j].material_id == mat));
                lemma_bucket_indices_empty(sq, mat, sn, r);
                lemma_strand_indices_empty(s as int, m@, mat, i as nat, base, r);
                assert(buckets[bi as int].rings@ =~= bucket_rings(sq, mat, sn) + strand_rings(s as int, m@, mat, i as nat));
                assert(buckets[bi as int].indices@ =~= bucket_indices(sq, mat, sn, r) + strand_indices(s as int, m@, mat, i as nat, base, r));
            } else {
                assert(buckets[bi as int] == before[bi as int]);
            }
            let total = 2 * total_points(sq, sq.len());
            assert(base + strand_rings(s as int, m@, mat, (i + 1) as nat).len() <= total);
            lemma_mul_le(base + strand_rings(s as int, m@, mat, (i + 1) as nat).len(), total, (res + 1) as nat);
        }
        let ghost cur = buckets[bi as int].rings.len();
        let ghost ids = buckets@.map_values(|x: BucketLayout| x.material_id);
        let ghost after = base + strand_rings(s as int, m@, mat, (i + 1) as nat).len();
        let reuse = i > 0 && m[i - 1] == mat;
        proof {
            assert(cur == base + strand_rings(s as int, m@, mat, i as nat).len());
            assert(reuse ==> after == cur + 1);
            assert(!reuse ==> after == cur + 2);
            assert(reuse ==> cur >= 1);
            lemma_mul_le((cur + 1) as nat, after, (res + 1) as nat);
        }
        let bottom = if reuse {
            let len = buckets[bi].rings.len();
            proof {
                lemma_mul_le((len - 1) as nat, after, (res + 1) as nat);
                assert(len - 1 <= (len - 1) * (res + 1)) by (nonlinear_arith)
                    requires
                        len >= 1,
                ;
            }
            ((len - 1) as u32) * (res + 1)
        } else {
            add_ring(&mut buckets[bi], RingRef { strand: s, point: i }, res)
        };
        let ghost k_top = buckets[bi as int].rings.len();
        proof {
            assert(k_top + 1 <= after);
            lemma_mul_le((k_top + 1) as nat, after, (res + 1) as nat);
            assert(bottom == (k_top - 1) * (res + 1));
        }
        let top = add_ring(&mut buckets[bi], RingRef { strand: s, point: i + 1 }, res);
        proof {
            assert(top + res + 1 == (k_top + 1) * (res + 1)) by (nonlinear_arith)
                requires
                    top == k_top * (res + 1),
            ;
            assert(bottom + res + 1 == top) by (nonlinear_arith)
                requires
                    top == k_top * (res + 1),
                    bottom == (k_top - 1) * (res + 1),
            ;
        }
        connect_rings(&mut buckets[bi], bottom, top, res);
        proof {
            assert(buckets[bi as int].rings@ =~= bucket_rings(sq, mat, sn) + strand_rings(s as int, m@, mat, (i + 1) as nat));
            assert(buckets[bi as int].indices@ =~= bucket_indices(sq, mat, sn, r) + strand_indices(s as int, m@, mat, (i + 1) as nat, base, r));
            assert forall|j: int| 0 <= j < buckets.len() implies #[trigger] buckets[j].material_id == ids[j] by {}
            assert(buckets[bi as int].material_id == mat);
            assert forall|j: int| 0 <= j < buckets.len() implies bucket_partial(
                #[trigger] buckets[j],
                sq,
                sn,
                m@,
                (i + 1) as nat,
                r,
            ) by {
                if j == bi {
                    assert(buckets[j].rings@ == bucket_rings(sq, mat, sn) + strand_rings(s as int, m@, mat, (i + 1) as nat));
                    assert(buckets[j].indices@ == bucket_indices(sq, mat, sn, r) + strand_indices(s as int, m@, mat, (i + 1) as nat, base, r));
                } else {
                    assert(buckets[j] == before[j]);
                    assert(bucket_partial(before[j], sq, sn, m@, i as nat, r));
                    assert(before[j].material_id != mat);
                    assert(strand_rings(s as int, m@, buckets[j].material_id, (i + 1) as nat) == strand_rings(s as int, m@, buckets[j].material_id, i as nat));
                    assert(strand_indices(s as int, m@, buckets[j].material_id, (i + 1) as nat, bucket_rings(sq, buckets[j].material_id, sn).len(), r)
                        == strand_indices(s as int, m@, buckets[j].material_id, i as nat, bucket_rings(sq, buckets[j].material_id, sn).len(), r));
                }
                assert(buckets[j].rings@ =~= bucket_rings(sq, buckets[j].material_id, sn)
                    + strand_rings(s as int, m@, buckets[j].material_id, (i + 1) as nat));
                assert(buckets[j].indices@ =~= bucket_indices(sq, buckets[j].material_id, sn, r)
                    + strand_indices(s as int, m@, buckets[j].material_id, (i + 1) as nat,
                    bucket_rings(sq, buckets[j].material_id, sn).len(), r));
            }
            assert forall|b: u8|
                (bucket_rings(sq, b, sn) + strand_rings(s as int, m@, b, (i + 1) as nat)).len() > 0
                    <==> exists|j: int| 0 <= j < buckets.len() && #[trigger] buckets[j].material_id == b by {
                if b == mat {
                    assert(buckets[bi as int].material_id == b);
                } else {
                    assert(strand_rings(s as int, m@, b, (i + 1) as nat) == strand_rings(s as int, m@, b, i as nat));
                    if exists|j: int| 0 <= j < buckets.len() && #[trigger] buckets[j].material_id == b {
                        let j = choose|j: int| 0 <= j < buckets.len() && #[trigger] buckets[j].material_id == b;
                        assert(j != bi);
                        assert(before[j].material_id == b);
                    }
                    if exists|j: int| 0 <= j < before.len() && #[trigger] before[j].material_id == b {
                        let j = choose|j: int| 0 <= j < before.len() && #[trigger] before[j].material_id == b;
                        assert(buckets[j].material_id == b);
                    }
                }
            }
        }
        i = i + 1;
    }
    proof {
        assert forall|b: u8| #[trigger] bucket_rings(sq, b, (sn + 1) as nat) == bucket_rings(sq, b, sn)
            + strand_rings(s as int, m@, b, i as nat) by {}
    }
}

/// Builds the tube layout of a skeleton at a chosen ring resolution.
pub struct LSystemMeshBuilder {
    resolution: u32,
}

impl LSystemMeshBuilder {
    #[verifier::type_invariant]
    spec fn inv(&self) -> bool {
        MIN_RESOLUTION <= self.resolution <= MAX_RESOLUTION
    }
}

impl Default for LSystemMeshBuilder {
    fn default() -> (r: Self)
        ensures
            r@ == DEFAULT_RESOLUTION,
    {
        LSystemMeshBuilder { resolution: DEFAULT_RESOLUTION }
    }
}

impl View for LSystemMeshBuilder {
    type V = u32;

    closed spec fn view(&self) -> u32 {
        self.resolution
    }
}

impl LSystemMeshBuilder {
    /// The resolution always lies in the accepted range.
    pub open spec fn wf(&self) -> bool {
        MIN_RESOLUTION <= self@ <= MAX_RESOLUTION
    }

    /// A builder with the default resolution.
    pub fn new() -> (r: Self)
        ensures
            r@ == DEFAULT_RESOLUTION,
            r.wf(),
    {
        LSystemMeshBuilder { resolution: DEFAULT_RESOLUTION }
    }

    /// Sets the number of vertices around each ring; requests outside
    /// `[MIN_RESOLUTION, MAX_RESOLUTION]` are clamped, never rejected.
    pub fn with_resolution(self, res: u32) -> (r: Self)
        ensures
            r@ == clamped_resolution(res),
            r.wf(),
    {
        let clamped: u32 = if res < MIN_RESOLUTION {
            MIN_RESOLUTION
        } else if res > MAX_RESOLUTION {
            MAX_RESOLUTION
        } else {
            res
        };
        LSystemMeshBuilder { resolution: clamped }
    }

    /// The layout of every material bucket of a skeleton whose strands are
    /// given by the material tags of their points, in order, with
    /// near-duplicate points already dropped. A strand of fewer than two
    /// points contributes nothing.
    pub fn build(&self, strands: &Vec<Vec<u8>>) -> (layout: MeshLayout)
        requires
            2 * total_points(strands_view(strands@), strands@.len()) * (self@ + 1) <= u32::MAX,
        ensures
            layout.resolution == self@,
            layout.describes(strands_view(strands@)),
    {
        proof {
            use_type_invariant(self);
        }
        let res = self.resolution;
        let ghost sq = strands_view(strands@);
        let mut buckets: Vec<BucketLayout> = Vec::new();
        proof {
            assert forall|b: u8| bucket_rings(sq, b, 0).len() == 0 by {}
        }
        let mut s: usize = 0;
        while s < strands.len()
            invariant
                s <= strands.len(),
                sq == strands_view(strands@),
                sq.len() == strands.len(),
                MIN_RESOLUTION <= res <= MAX_RESOLUTION,
                2 * total_points(sq, sq.len()) * (res + 1) <= u32::MAX,
                layout_after(buckets@, sq, s as nat, res as nat),
            decreases strands.len() - s,
        {
            process_strand(&mut buckets, s, &strands[s], res, Ghost(sq));
            s = s + 1;
        }
        let layout = MeshLayout { resolution: res, buckets };
        proof {
            assert forall|i: int| 0 <= i < layout.buckets.len() implies #[trigger] layout.buckets[i].matches(
                sq,
                res as nat,
            ) by {
                assert(layout.buckets[i].rings@ == bucket_rings(sq, layout.buckets[i].material_id, s as nat));
            }
            assert(s as nat == sq.len());
            assert forall|b: u8|
                bucket_rings(sq, b, sq.len()).len() > 0 <==> exists|i: int|
                    0 <= i < layout.buckets.len() && #[trigger] layout.buckets[i].material_id == b by {
                assert(bucket_rings(sq, b, s as nat).len() > 0 <==> exists|i: int|
                    0 <= i < buckets.len() && #[trigger] buckets[i].material_id == b);
                if bucket_rings(sq, b, s as nat).len() > 0 {
                    let i = choose|i: int| 0 <= i < buckets.len() && #[trigger] buckets[i].material_id == b;
                    assert(layout.buckets[i].material_id == b);
                }
                if exists|i: int| 0 <= i < layout.buckets.len() && #[trigger] layout.buckets[i].material_id == b {
                    let i = choose|i: int| 0 <= i < layout.buckets.len() && #[trigger] layout.buckets[i].material_id == b;
                    assert(buckets[i].material_id == b);
                }
            }
        }
        layout
    }

    /// The ring resolution this builder uses.
    pub fn resolution(&self) -> (r: u32)
        ensures
            r == self@,
    {
        self.resolution
    }
}

} // verus!
