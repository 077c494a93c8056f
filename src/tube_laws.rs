//! Laws of the tube layout: how many rings and indices each bucket holds,
//! when rings are shared, and that indices and rings stay within their
//! bucket.
use vstd::prelude::*;
use crate::mesher::{
    bucket_indices, bucket_rings, lemma_bucket_rings_len, lemma_mul_le, lemma_strand_rings_len,
    lemma_total_points_mono, quad_strip, ring_at, seg_count, starts_run, strand_indices,
    strand_rings, total_points, RingRef,
};

verus! {

/// Number of the first `j` segments of a strand that carry material `b`.
pub open spec fn strand_segs_in(m: Seq<u8>, b: u8, j: nat) -> nat
    decreases j,
{
    if j == 0 {
        0
    } else {
        strand_segs_in(m, b, (j - 1) as nat) + if m[j - 1] == b {
            1nat
        } else {
            0nat
        }
    }
}

/// Number of the first `j` segments of a strand that carry material `b` and
/// start a run of consecutive segments of one material.
pub open spec fn strand_runs_in(m: Seq<u8>, b: u8, j: nat) -> nat
    decreases j,
{
    if j == 0 {
        0
    } else {
        strand_runs_in(m, b, (j - 1) as nat) + if m[j - 1] == b && starts_run(m, j - 1) {
            1nat
        } else {
            0nat
        }
    }
}

/// Segments of material `b` over the first `k` strands.
pub open spec fn bucket_segs(strands: Seq<Seq<u8>>, b: u8, k: nat) -> nat
    decreases k,
{
    if k == 0 {
        0
    } else {
        bucket_segs(strands, b, (k - 1) as nat) + strand_segs_in(
            strands[k - 1],
            b,
            seg_count(strands[k - 1]),
        )
    }
}

/// Runs of material `b` over the first `k` strands.
pub open spec fn bucket_runs(strands: Seq<Seq<u8>>, b: u8, k: nat) -> nat
    decreases k,
{
    if k == 0 {
        0
    } else {
        bucket_runs(strands, b, (k - 1) as nat) + strand_runs_in(
            strands[k - 1],
            b,
            seg_count(strands[k - 1]),
        )
    }
}

proof fn lemma_strand_counts(s: int, m: Seq<u8>, b: u8, j: nat, base: nat, res: nat)
    requires
        j <= m.len(),
    ensures
        strand_rings(s, m, b, j).len() == strand_segs_in(m, b, j) + strand_runs_in(m, b, j),
        strand_indices(s, m, b, j, base, res).len() == 6 * res * strand_segs_in(m, b, j),
    decreases j,
{
    if j > 0 {
        lemma_strand_counts(s, m, b, (j - 1) as nat, base, res);
        let prev = strand_segs_in(m, b, (j - 1) as nat);
        if m[j - 1] == b {
            assert(strand_indices(s, m, b, j, base, res).len() == strand_indices(
                s,
                m,
                b,
                (j - 1) as nat,
                base,
                res,
            ).len() + 6 * res);
            assert(6 * res * prev + 6 * res == 6 * res * (prev + 1)) by (nonlinear_arith);
            assert(strand_segs_in(m, b, j) == prev + 1);
        } else {
            assert(strand_segs_in(m, b, j) == prev);
            assert(strand_indices(s, m, b, j, base, res) == strand_indices(s, m, b, (j - 1) as nat, base, res));
        }
    } else {
        assert(6 * res * 0 == 0) by (nonlinear_arith);
    }
}

/// Ring and index counts of a bucket: each segment of material `b` adds
/// `6 * res` indices and one ring, and each run of consecutive segments of
/// material `b` adds one ring more, so a run of `k` segments holds `k + 1`
/// rings. Each ring is `res + 1` vertices.
pub proof fn lemma_bucket_counts(strands: Seq<Seq<u8>>, b: u8, k: nat, res: nat)
    requires
        k <= strands.len(),
    ensures
        bucket_rings(strands, b, k).len() == bucket_segs(strands, b, k) + bucket_runs(strands, b, k),
        bucket_indices(strands, b, k, res).len() == 6 * res * bucket_segs(strands, b, k),
    decreases k,
{
    if k > 0 {
        let s = k - 1;
        lemma_bucket_counts(strands, b, s as nat, res);
        lemma_strand_counts(
            s,
            strands[s],
            b,
            seg_count(strands[s]),
            bucket_rings(strands, b, s as nat).len(),
            res,
        );
        let prev = bucket_segs(strands, b, s as nat);
        let here = strand_segs_in(strands[s], b, seg_count(strands[s]));
        assert(6 * res * prev + 6 * res * here == 6 * res * (prev + here)) by (nonlinear_arith);
    } else {
        assert(6 * res * 0 == 0) by (nonlinear_arith);
    }
}

proof fn lemma_uniform_counts(m: Seq<u8>, b: u8, j: nat)
    requires
        1 <= j <= m.len(),
        forall|i: int| 0 <= i < j ==> m[i] == b,
    ensures
        strand_segs_in(m, b, j) == j,
        strand_runs_in(m, b, j) == 1,
    decreases j,
{
    assert(m[j - 1] == b);
    if j > 1 {
        lemma_uniform_counts(m, b, (j - 1) as nat);
        assert(m[j - 2] == b);
    } else {
        assert(strand_segs_in(m, b, 0) == 0);
        assert(strand_runs_in(m, b, 0) == 0);
    }
}

proof fn lemma_alternating_counts(m: Seq<u8>, b: u8, j: nat)
    requires
        j <= m.len(),
        forall|i: int| 0 < i < j ==> m[i - 1] != #[trigger] m[i],
    ensures
        strand_runs_in(m, b, j) == strand_segs_in(m, b, j),
    decreases j,
{
    if j > 0 {
        lemma_alternating_counts(m, b, (j - 1) as nat);
    }
}

/// A strand of `n >= 2` points whose segments all carry one material `b`
/// shares every inner ring: its bucket holds `n` rings, one per point, that
/// is one more than its `n - 1` segments.
pub proof fn lemma_one_material_strand(m: Seq<u8>, b: u8)
    requires
        m.len() >= 2,
        forall|i: int| 0 <= i < m.len() - 1 ==> m[i] == b,
    ensures
        bucket_rings(seq![m], b, 1).len() == m.len(),
{
    let strands = seq![m];
    assert(strands[0] == m);
    assert(bucket_segs(strands, b, 0) == 0);
    assert(bucket_runs(strands, b, 0) == 0);
    lemma_bucket_counts(strands, b, 1, 0);
    lemma_uniform_counts(m, b, seg_count(m));
    assert(bucket_segs(strands, b, 1) == strand_segs_in(m, b, seg_count(m)));
    assert(bucket_runs(strands, b, 1) == strand_runs_in(m, b, seg_count(m)));
}

/// When no two consecutive segments of a strand carry the same material no
/// ring is shared: every bucket holds two rings per segment, so `N` segments
/// give `2 * N` rings over all buckets.
pub proof fn lemma_alternating_strand(m: Seq<u8>, b: u8)
    requires
        forall|i: int| 0 < i < m.len() - 1 ==> m[i - 1] != #[trigger] m[i],
    ensures
        bucket_rings(seq![m], b, 1).len() == 2 * bucket_segs(seq![m], b, 1),
{
    let strands = seq![m];
    assert(strands[0] == m);
    assert(bucket_segs(strands, b, 0) == 0);
    assert(bucket_runs(strands, b, 0) == 0);
    lemma_bucket_counts(strands, b, 1, 0);
    lemma_alternating_counts(m, b, seg_count(m));
    assert(bucket_segs(strands, b, 1) == strand_segs_in(m, b, seg_count(m)));
    assert(bucket_runs(strands, b, 1) == strand_runs_in(m, b, seg_count(m)));
}

proof fn lemma_quad_strip_bounded(bottom: int, top: int, res: nat, limit: int)
    requires
        0 <= bottom <= top,
        top + res < limit <= u32::MAX + 1,
    ensures
        forall|t: int| 0 <= t < 6 * res ==> (#[trigger] quad_strip(bottom, top, res)[t]) < limit,
{
    assert forall|t: int| 0 <= t < 6 * res implies (#[trigger] quad_strip(bottom, top, res)[t])
        < limit by {
        assert(t / 6 < res) by (nonlinear_arith)
            requires
                0 <= t < 6 * res,
        ;
    }
}

#[verifier::spinoff_prover]
proof fn lemma_strand_indices_bounded(s: int, m: Seq<u8>, b: u8, j: nat, base: nat, res: nat)
    requires
        j <= m.len(),
        (base + strand_rings(s, m, b, j).len()) * (res + 1) <= u32::MAX + 1,
    ensures
        forall|t: int|
            0 <= t < strand_indices(s, m, b, j, base, res).len() ==> (#[trigger] strand_indices(
                s,
                m,
                b,
                j,
                base,
                res,
            )[t]) < (base + strand_rings(s, m, b, j).len()) * (res + 1),
    decreases j,
{
    if j > 0 {
        let i = j - 1;
        let prev_len = strand_rings(s, m, b, i as nat).len();
        let cur_len = strand_rings(s, m, b, j).len();
        lemma_strand_rings_len(s, m, b, i as nat);
        assert(prev_len <= cur_len);
        lemma_mul_le(base + prev_len, base + cur_len, res + 1);
        lemma_strand_indices_bounded(s, m, b, i as nat, base, res);
        let limit: int = ((base + cur_len) * (res + 1)) as int;
        if m[i] == b {
            let k: int = (base + prev_len) as int;
            let bottom: int = if starts_run(m, i) {
                k
            } else {
                k - 1
            };
            let top: int = if starts_run(m, i) {
                k + 1
            } else {
                k
            };
            assert(top == base + cur_len - 1);
            assert(!starts_run(m, i) ==> prev_len >= 1) by {
                if !starts_run(m, i) {
                    lemma_strand_rings_len(s, m, b, (i - 1) as nat);
                    assert(m[i - 1] == b);
                }
            }
            assert(0 <= bottom * (res + 1) <= top * (res + 1)) by (nonlinear_arith)
                requires
                    0 <= bottom <= top,
            ;
            assert(top * (res + 1) + res < (top + 1) * (res + 1)) by (nonlinear_arith);
            lemma_quad_strip_bounded(bottom * (res + 1), top * (res + 1), res, limit);
            let prev = strand_indices(s, m, b, i as nat, base, res);
            let strip = quad_strip(bottom * (res + 1), top * (res + 1), res);
            assert(strand_indices(s, m, b, j, base, res) == prev + strip);
            assert forall|t: int| 0 <= t < (prev + strip).len() implies (#[trigger] (prev
                + strip)[t]) < limit by {
                if t >= prev.len() {
                    assert((prev + strip)[t] == strip[t - prev.len()]);
                } else {
                    assert((prev + strip)[t] == prev[t]);
                }
            }
        } else {
            let prev = strand_indices(s, m, b, i as nat, base, res);
            assert(strand_indices(s, m, b, j, base, res) == prev);
            assert(cur_len == prev_len);
            assert forall|t: int| 0 <= t < prev.len() implies (#[trigger] prev[t]) < limit by {
                assert(prev[t] < (base + prev_len) * (res + 1));
            }
        }
    }
}

/// Every index of a bucket names a vertex of that bucket: its rings hold
/// `res + 1` vertices each, and the indices stay below that count.
pub proof fn lemma_indices_in_bucket(strands: Seq<Seq<u8>>, b: u8, k: nat, res: nat)
    requires
        k <= strands.len(),
        2 * total_points(strands, k) * (res + 1) <= u32::MAX,
    ensures
        forall|t: int|
            0 <= t < bucket_indices(strands, b, k, res).len() ==> (#[trigger] bucket_indices(
                strands,
                b,
                k,
                res,
            )[t]) < bucket_rings(strands, b, k).len() * (res + 1),
    decreases k,
{
    if k > 0 {
        let s = k - 1;
        let m = strands[s];
        let base = bucket_rings(strands, b, s as nat).len();
        let here = strand_rings(s, m, b, seg_count(m));
        lemma_total_points_mono(strands, s as nat, k);
        lemma_mul_le(2 * total_points(strands, s as nat), 2 * total_points(strands, k), res + 1);
        lemma_indices_in_bucket(strands, b, s as nat, res);
        lemma_bucket_rings_len(strands, b, k);
        assert(bucket_rings(strands, b, k).len() == base + here.len());
        lemma_mul_le(
            bucket_rings(strands, b, k).len(),
            2 * total_points(strands, k),
            res + 1,
        );
        lemma_strand_indices_bounded(s, m, b, seg_count(m), base, res);
        lemma_mul_le(base, base + here.len(), res + 1);
        let prev = bucket_indices(strands, b, s as nat, res);
        let tail = strand_indices(s, m, b, seg_count(m), base, res);
        let limit = bucket_rings(strands, b, k).len() * (res + 1);
        assert(bucket_indices(strands, b, k, res) == prev + tail);
        assert forall|t: int| 0 <= t < (prev + tail).len() implies (#[trigger] (prev + tail)[t])
            < limit by {
            if t >= prev.len() {
                assert((prev + tail)[t] == tail[t - prev.len()]);
            } else {
                assert((prev + tail)[t] == prev[t]);
            }
        }
    }
}

/// Ring `a` comes before ring `c`: an earlier strand, or an earlier point of
/// the same strand.
pub open spec fn ring_before(a: RingRef, c: RingRef) -> bool {
    a.strand < c.strand || (a.strand == c.strand && a.point < c.point)
}

/// Rings in strictly increasing order, so none twice.
pub open spec fn rings_increasing(rs: Seq<RingRef>) -> bool {
    forall|i: int, j: int| 0 <= i < j < rs.len() ==> ring_before(#[trigger] rs[i], #[trigger] rs[j])
}

proof fn lemma_strand_rings_increasing(s: int, m: Seq<u8>, b: u8, j: nat)
    requires
        0 <= s <= usize::MAX,
        j < m.len() <= usize::MAX,
    ensures
        rings_increasing(strand_rings(s, m, b, j)),
        forall|e: int|
            0 <= e < strand_rings(s, m, b, j).len() ==> {
                let r = #[trigger] strand_rings(s, m, b, j)[e];
                &&& r.strand == s
                &&& r.point <= j
                &&& r.point == j ==> j > 0 && m[j - 1] == b
            },
    decreases j,
{
    if j > 0 {
        let i = j - 1;
        lemma_strand_rings_increasing(s, m, b, i as nat);
        let prev = strand_rings(s, m, b, i as nat);
        if m[i] == b {
            let cur = strand_rings(s, m, b, j);
            if starts_run(m, i) {
                assert(cur == prev.push(ring_at(s, i)).push(ring_at(s, i + 1)));
                assert forall|e: int| 0 <= e < prev.len() implies (#[trigger] prev[e]).point < i by {
                    if prev[e].point == i {
                        assert(i > 0 && m[i - 1] == b);
                    }
                }
            } else {
                assert(cur == prev.push(ring_at(s, i + 1)));
            }
            assert forall|x: int, y: int| 0 <= x < y < cur.len() implies ring_before(
                #[trigger] cur[x],
                #[trigger] cur[y],
            ) by {
                if y < prev.len() {
                    assert(cur[x] == prev[x] && cur[y] == prev[y]);
                } else if x < prev.len() {
                    assert(cur[x] == prev[x]);
                    assert(prev[x].strand == s);
                    if starts_run(m, i) {
                        assert(prev[x].point < i);
                        assert(y == prev.len() ==> cur[y] == ring_at(s, i));
                        assert(y == prev.len() + 1 ==> cur[y] == ring_at(s, i + 1));
                    } else {
                        assert(prev[x].point <= i);
                        assert(cur[y] == ring_at(s, i + 1));
                    }
                } else {
                    assert(starts_run(m, i));
                    assert(cur[x] == ring_at(s, i));
                    assert(cur[y] == ring_at(s, i + 1));
                }
            }
        }
    }
}

/// A bucket holds each ring at most once: its rings come in increasing
/// order of strand, then point. So its `res + 1`-vertex rings are all
/// distinct and its vertex count is the number of distinct rings times
/// `res + 1`.
pub proof fn lemma_rings_distinct(strands: Seq<Seq<u8>>, b: u8, k: nat)
    requires
        k <= strands.len() <= usize::MAX,
        forall|i: int| 0 <= i < strands.len() ==> #[trigger] strands[i].len() <= usize::MAX,
    ensures
        rings_increasing(bucket_rings(strands, b, k)),
        bucket_rings(strands, b, k).no_duplicates(),
        forall|e: int|
            0 <= e < bucket_rings(strands, b, k).len() ==> (#[trigger] bucket_rings(strands, b, k)[e]).strand < k,
    decreases k,
{
    if k > 0 {
        let s = k - 1;
        lemma_rings_distinct(strands, b, s as nat);
        let m = strands[s];
        let prev = bucket_rings(strands, b, s as nat);
        let here = strand_rings(s, m, b, seg_count(m));
        if m.len() >= 2 {
            lemma_strand_rings_increasing(s, m, b, seg_count(m));
        } else {
            assert(here =~= seq![]);
        }
        let all = prev + here;
        assert(bucket_rings(strands, b, k) == all);
        assert forall|i: int, j: int| 0 <= i < j < all.len() implies ring_before(
            #[trigger] all[i],
            #[trigger] all[j],
        ) by {
            if j >= prev.len() && i < prev.len() {
                assert(all[j] == here[j - prev.len()]);
                assert(all[i] == prev[i]);
            } else if i >= prev.len() {
                assert(all[j] == here[j - prev.len()]);
                assert(all[i] == here[i - prev.len()]);
            } else {
                assert(all[j] == prev[j]);
                assert(all[i] == prev[i]);
            }
        }
        assert forall|e: int| 0 <= e < all.len() implies (#[trigger] all[e]).strand < k by {
            if e >= prev.len() {
                assert(all[e] == here[e - prev.len()]);
            } else {
                assert(all[e] == prev[e]);
            }
        }
    }
    let rs = bucket_rings(strands, b, k);
    assert forall|i: int, j: int| 0 <= i < rs.len() && 0 <= j < rs.len() && i != j implies rs[i]
        != rs[j] by {
        if i < j {
            assert(ring_before(rs[i], rs[j]));
        } else {
            assert(ring_before(rs[j], rs[i]));
        }
    }
}

/// Sum of `f` over the first `c` material tags.
pub open spec fn sum_materials(f: spec_fn(u8) -> nat, c: nat) -> nat
    decreases c,
{
    if c == 0 {
        0
    } else {
        sum_materials(f, (c - 1) as nat) + f((c - 1) as u8)
    }
}

/// Number of the first `j` segments of a strand that start a run.
pub open spec fn run_count(m: Seq<u8>, j: nat) -> nat
    decreases j,
{
    if j == 0 {
        0
    } else {
        run_count(m, (j - 1) as nat) + if starts_run(m, j - 1) {
            1nat
        } else {
            0nat
        }
    }
}

/// Segments over the first `k` strands.
pub open spec fn total_segs(strands: Seq<Seq<u8>>, k: nat) -> nat
    decreases k,
{
    if k == 0 {
        0
    } else {
        total_segs(strands, (k - 1) as nat) + seg_count(strands[k - 1])
    }
}

/// Runs over the first `k` strands.
pub open spec fn total_runs(strands: Seq<Seq<u8>>, k: nat) -> nat
    decreases k,
{
    if k == 0 {
        0
    } else {
        total_runs(strands, (k - 1) as nat) + run_count(strands[k - 1], seg_count(strands[k - 1]))
    }
}

proof fn lemma_sum_add(f: spec_fn(u8) -> nat, g: spec_fn(u8) -> nat, h: spec_fn(u8) -> nat, c: nat)
    requires
        forall|b: u8| #[trigger] h(b) == f(b) + g(b),
    ensures
        sum_materials(h, c) == sum_materials(f, c) + sum_materials(g, c),
    decreases c,
{
    if c > 0 {
        lemma_sum_add(f, g, h, (c - 1) as nat);
        assert(h((c - 1) as u8) == f((c - 1) as u8) + g((c - 1) as u8));
    }
}

proof fn lemma_sum_scale(f: spec_fn(u8) -> nat, h: spec_fn(u8) -> nat, k: nat, c: nat)
    requires
        forall|b: u8| #[trigger] h(b) == k * f(b),
    ensures
        sum_materials(h, c) == k * sum_materials(f, c),
    decreases c,
{
    if c > 0 {
        lemma_sum_scale(f, h, k, (c - 1) as nat);
        let x = (c - 1) as u8;
        assert(h(x) == k * f(x));
        assert(k * sum_materials(f, (c - 1) as nat) + k * f(x) == k * (sum_materials(
            f,
            (c - 1) as nat,
        ) + f(x))) by (nonlinear_arith);
    } else {
        assert(k * 0 == 0) by (nonlinear_arith);
    }
}

proof fn lemma_sum_zero(f: spec_fn(u8) -> nat, c: nat)
    requires
        forall|b: u8| #[trigger] f(b) == 0,
    ensures
        sum_materials(f, c) == 0,
    decreases c,
{
    if c > 0 {
        lemma_sum_zero(f, (c - 1) as nat);
        assert(f((c - 1) as u8) == 0);
    }
}

proof fn lemma_sum_one(f: spec_fn(u8) -> nat, h: spec_fn(u8) -> nat, x: u8, bit: bool, c: nat)
    requires
        c <= 256,
        forall|b: u8| #[trigger] h(b) == f(b) + if bit && b == x {
            1nat
        } else {
            0nat
        },
    ensures
        sum_materials(h, c) == sum_materials(f, c) + if bit && (x as nat) < c {
            1nat
        } else {
            0nat
        },
    decreases c,
{
    if c > 0 {
        lemma_sum_one(f, h, x, bit, (c - 1) as nat);
        let y = (c - 1) as u8;
        assert(y as nat == c - 1);
        assert(h(y) == f(y) + if bit && y == x {
            1nat
        } else {
            0nat
        });
    }
}

proof fn lemma_strand_totals(m: Seq<u8>, j: nat)
    requires
        j <= m.len(),
    ensures
        sum_materials(|b: u8| strand_segs_in(m, b, j), 256) == j,
        sum_materials(|b: u8| strand_runs_in(m, b, j), 256) == run_count(m, j),
    decreases j,
{
    if j == 0 {
        lemma_sum_zero(|b: u8| strand_segs_in(m, b, 0), 256);
        lemma_sum_zero(|b: u8| strand_runs_in(m, b, 0), 256);
    } else {
        let i = j - 1;
        lemma_strand_totals(m, i as nat);
        lemma_sum_one(
            |b: u8| strand_segs_in(m, b, i as nat),
            |b: u8| strand_segs_in(m, b, j),
            m[i],
            true,
            256,
        );
        lemma_sum_one(
            |b: u8| strand_runs_in(m, b, i as nat),
            |b: u8| strand_runs_in(m, b, j),
            m[i],
            starts_run(m, i),
            256,
        );
    }
}

proof fn lemma_bucket_totals(strands: Seq<Seq<u8>>, k: nat)
    requires
        k <= strands.len(),
    ensures
        sum_materials(|b: u8| bucket_segs(strands, b, k), 256) == total_segs(strands, k),
        sum_materials(|b: u8| bucket_runs(strands, b, k), 256) == total_runs(strands, k),
    decreases k,
{
    if k == 0 {
        lemma_sum_zero(|b: u8| bucket_segs(strands, b, 0), 256);
        lemma_sum_zero(|b: u8| bucket_runs(strands, b, 0), 256);
    } else {
        let s = k - 1;
        let m = strands[s];
        lemma_bucket_totals(strands, s as nat);
        lemma_strand_totals(m, seg_count(m));
        lemma_sum_add(
            |b: u8| bucket_segs(strands, b, s as nat),
            |b: u8| strand_segs_in(m, b, seg_count(m)),
            |b: u8| bucket_segs(strands, b, k),
            256,
        );
        lemma_sum_add(
            |b: u8| bucket_runs(strands, b, s as nat),
            |b: u8| strand_runs_in(m, b, seg_count(m)),
            |b: u8| bucket_runs(strands, b, k),
            256,
        );
    }
}

/// Over all buckets together, a layout holds one ring per segment plus one
/// per run of consecutive same-material segments, and `6 * res` indices per
/// segment.
pub proof fn lemma_layout_totals(strands: Seq<Seq<u8>>, res: nat)
    ensures
        sum_materials(|b: u8| bucket_rings(strands, b, strands.len()).len(), 256) == total_segs(
            strands,
            strands.len(),
        ) + total_runs(strands, strands.len()),
        sum_materials(|b: u8| bucket_indices(strands, b, strands.len(), res).len(), 256) == 6
            * res * total_segs(strands, strands.len()),
{
    let n = strands.len();
    assert forall|b: u8|
        #[trigger] bucket_rings(strands, b, n).len() == bucket_segs(strands, b, n) + bucket_runs(
            strands,
            b,
            n,
        ) by {
        lemma_bucket_counts(strands, b, n, res);
    }
    assert forall|b: u8|
        #[trigger] bucket_indices(strands, b, n, res).len() == (6 * res) * bucket_segs(
            strands,
            b,
            n,
        ) by {
        lemma_bucket_counts(strands, b, n, res);
    }
    lemma_bucket_totals(strands, n);
    lemma_sum_add(
        |b: u8| bucket_segs(strands, b, n),
        |b: u8| bucket_runs(strands, b, n),
        |b: u8| bucket_rings(strands, b, n).len(),
        256,
    );
    lemma_sum_scale(
        |b: u8| bucket_segs(strands, b, n),
        |b: u8| bucket_indices(strands, b, n, res).len(),
        6 * res,
        256,
    );
}

proof fn lemma_run_count_uniform(m: Seq<u8>, b: u8, j: nat)
    requires
        1 <= j <= m.len(),
        forall|i: int| 0 <= i < j ==> m[i] == b,
    ensures
        run_count(m, j) == 1,
    decreases j,
{
    assert(m[j - 1] == b);
    if j > 1 {
        lemma_run_count_uniform(m, b, (j - 1) as nat);
        assert(m[j - 2] == b);
    } else {
        assert(run_count(m, 0) == 0);
    }
}

proof fn lemma_run_count_alternating(m: Seq<u8>, j: nat)
    requires
        j <= m.len(),
        forall|i: int| 0 < i < j ==> m[i - 1] != #[trigger] m[i],
    ensures
        run_count(m, j) == j,
    decreases j,
{
    if j > 0 {
        lemma_run_count_alternating(m, (j - 1) as nat);
    }
}

/// A strand of `n >= 2` points whose segments all carry one material gives
/// `n` rings over all buckets, and `6 * res` indices per segment.
pub proof fn lemma_one_material_totals(m: Seq<u8>, b: u8, res: nat)
    requires
        m.len() >= 2,
        forall|i: int| 0 <= i < m.len() - 1 ==> m[i] == b,
    ensures
        sum_materials(|c: u8| bucket_rings(seq![m], c, 1).len(), 256) == m.len(),
        sum_materials(|c: u8| bucket_indices(seq![m], c, 1, res).len(), 256) == 6 * res * (
        m.len() - 1),
{
    let strands = seq![m];
    assert(strands[0] == m);
    lemma_layout_totals(strands, res);
    lemma_run_count_uniform(m, b, seg_count(m));
    assert(total_segs(strands, 0) == 0 && total_runs(strands, 0) == 0);
}

/// A strand of `n >= 2` points where no two consecutive segments carry the
/// same material shares no ring: `2 * (n - 1)` rings over all buckets, and
/// `6 * res` indices per segment.
pub proof fn lemma_alternating_totals(m: Seq<u8>, res: nat)
    requires
        m.len() >= 2,
        forall|i: int| 0 < i < m.len() - 1 ==> m[i - 1] != #[trigger] m[i],
    ensures
        sum_materials(|c: u8| bucket_rings(seq![m], c, 1).len(), 256) == 2 * (m.len() - 1),
        sum_materials(|c: u8| bucket_indices(seq![m], c, 1, res).len(), 256) == 6 * res * (
        m.len() - 1),
{
    let strands = seq![m];
    assert(strands[0] == m);
    lemma_layout_totals(strands, res);
    lemma_run_count_alternating(m, seg_count(m));
    assert(total_segs(strands, 0) == 0 && total_runs(strands, 0) == 0);
}

/// `a` is an initial part of `c`.
pub open spec fn is_prefix<T>(a: Seq<T>, c: Seq<T>) -> bool {
    a.len() <= c.len() && c.subrange(0, a.len() as int) == a
}

proof fn lemma_prefix_trans<T>(a: Seq<T>, b: Seq<T>, c: Seq<T>)
    requires
        is_prefix(a, b),
        is_prefix(b, c),
    ensures
        is_prefix(a, c),
{
    assert(c.subrange(0, a.len() as int) =~= b.subrange(0, a.len() as int));
}

proof fn lemma_prefix_concat<T>(a: Seq<T>, d: Seq<T>)
    ensures
        is_prefix(a, a + d),
{
    assert((a + d).subrange(0, a.len() as int) =~= a);
}

proof fn lemma_strand_prefix(s: int, m: Seq<u8>, b: u8, j: nat, n: nat, base: nat, res: nat)
    requires
        j <= n <= m.len(),
    ensures
        is_prefix(strand_rings(s, m, b, j), strand_rings(s, m, b, n)),
        is_prefix(strand_indices(s, m, b, j, base, res), strand_indices(s, m, b, n, base, res)),
    decreases n - j,
{
    if j == n {
        assert(strand_rings(s, m, b, n).subrange(0, strand_rings(s, m, b, n).len() as int)
            =~= strand_rings(s, m, b, n));
        assert(strand_indices(s, m, b, n, base, res).subrange(
            0,
            strand_indices(s, m, b, n, base, res).len() as int,
        ) =~= strand_indices(s, m, b, n, base, res));
    } else {
        lemma_strand_prefix(s, m, b, j, (n - 1) as nat, base, res);
        let pr = strand_rings(s, m, b, (n - 1) as nat);
        let pi = strand_indices(s, m, b, (n - 1) as nat, base, res);
        let i = n - 1;
        if m[i] != b {
            assert(strand_rings(s, m, b, n) == pr);
            assert(strand_indices(s, m, b, n, base, res) == pi);
            assert(pr.subrange(0, pr.len() as int) =~= pr);
            assert(pi.subrange(0, pi.len() as int) =~= pi);
        } else {
            if starts_run(m, i) {
                lemma_prefix_concat(pr, seq![ring_at(s, i), ring_at(s, i + 1)]);
                assert(strand_rings(s, m, b, n) =~= pr + seq![ring_at(s, i), ring_at(s, i + 1)]);
            } else {
                lemma_prefix_concat(pr, seq![ring_at(s, i + 1)]);
                assert(strand_rings(s, m, b, n) =~= pr + seq![ring_at(s, i + 1)]);
            }
            let k: int = (base + pr.len()) as int;
            let bottom: int = if starts_run(m, i) {
                k
            } else {
                k - 1
            };
            let top: int = if starts_run(m, i) {
                k + 1
            } else {
                k
            };
            lemma_prefix_concat(pi, quad_strip(bottom * (res + 1), top * (res + 1), res));
            assert(strand_indices(s, m, b, n, base, res) == pi + quad_strip(
                bottom * (res + 1),
                top * (res + 1),
                res,
            ));
        }
        lemma_prefix_trans(strand_rings(s, m, b, j), pr, strand_rings(s, m, b, n));
        lemma_prefix_trans(
            strand_indices(s, m, b, j, base, res),
            pi,
            strand_indices(s, m, b, n, base, res),
        );
    }
}

proof fn lemma_bucket_prefix(strands: Seq<Seq<u8>>, b: u8, k: nat, n: nat, res: nat)
    requires
        k <= n <= strands.len(),
    ensures
        is_prefix(bucket_rings(strands, b, k), bucket_rings(strands, b, n)),
        is_prefix(bucket_indices(strands, b, k, res), bucket_indices(strands, b, n, res)),
    decreases n - k,
{
    if k == n {
        assert(bucket_rings(strands, b, n).subrange(0, bucket_rings(strands, b, n).len() as int)
            =~= bucket_rings(strands, b, n));
        assert(bucket_indices(strands, b, n, res).subrange(
            0,
            bucket_indices(strands, b, n, res).len() as int,
        ) =~= bucket_indices(strands, b, n, res));
    } else {
        lemma_bucket_prefix(strands, b, k, (n - 1) as nat, res);
        let s = n - 1;
        lemma_prefix_concat(
            bucket_rings(strands, b, s as nat),
            strand_rings(s, strands[s], b, seg_count(strands[s])),
        );
        lemma_prefix_concat(
            bucket_indices(strands, b, s as nat, res),
            strand_indices(
                s,
                strands[s],
                b,
                seg_count(strands[s]),
                bucket_rings(strands, b, s as nat).len(),
                res,
            ),
        );
        lemma_prefix_trans(
            bucket_rings(strands, b, k),
            bucket_rings(strands, b, s as nat),
            bucket_rings(strands, b, n),
        );
        lemma_prefix_trans(
            bucket_indices(strands, b, k, res),
            bucket_indices(strands, b, s as nat, res),
            bucket_indices(strands, b, n, res),
        );
    }
}

/// Every segment of every strand is stitched in its material's bucket: the
/// bucket holds a ring at each of the segment's two points, at positions
/// `x` and `y`, and a run of `6 * res` indices that joins the `res + 1`
/// vertices of ring `x` to those of ring `y`. The layout takes no radii, so
/// this holds however thin the segment is.
pub proof fn lemma_every_segment_stitched(strands: Seq<Seq<u8>>, s: int, i: int, res: nat)
    requires
        0 <= s < strands.len(),
        0 <= i < strands[s].len() - 1,
    ensures
        ({
            let b = strands[s][i];
            let rings = bucket_rings(strands, b, strands.len());
            let indices = bucket_indices(strands, b, strands.len(), res);
            exists|x: int, y: int, o: int|
                0 <= x < rings.len() && 0 <= y < rings.len() && #[trigger] rings[x] == ring_at(s, i)
                    && #[trigger] rings[y] == ring_at(s, i + 1) && 0 <= o && o + 6 * res
                    <= indices.len() && #[trigger] indices.subrange(o, o + 6 * res) == quad_strip(
                    x * (res + 1),
                    y * (res + 1),
                    res,
                )
        }),
{
    let m = strands[s];
    let b = m[i];
    let n = strands.len();
    let base = bucket_rings(strands, b, s as nat).len();
    let ibase = bucket_indices(strands, b, s as nat, res).len();
    let pr = strand_rings(s, m, b, i as nat);
    let pi = strand_indices(s, m, b, i as nat, base, res);
    let k: int = (base + pr.len()) as int;
    let bottom: int = if starts_run(m, i) {
        k
    } else {
        k - 1
    };
    let top: int = if starts_run(m, i) {
        k + 1
    } else {
        k
    };
    let strip = quad_strip(bottom * (res + 1), top * (res + 1), res);
    let r1 = strand_rings(s, m, b, (i + 1) as nat);
    let i1 = strand_indices(s, m, b, (i + 1) as nat, base, res);
    assert(i1 == pi + strip);
    // Rings of segment `i` within the strand's contribution.
    if starts_run(m, i) {
        assert(r1 == pr.push(ring_at(s, i)).push(ring_at(s, i + 1)));
        assert(r1[bottom - base] == ring_at(s, i));
    } else {
        lemma_strand_rings_len(s, m, b, (i - 1) as nat);
        assert(m[i - 1] == b);
        assert(pr.len() >= 1);
        assert(pr[pr.len() - 1] == ring_at(s, i));
        assert(r1 == pr.push(ring_at(s, i + 1)));
        assert(r1[bottom - base] == ring_at(s, i));
    }
    assert(r1[top - base] == ring_at(s, i + 1));
    // Carry them into the whole bucket.
    let sc = seg_count(m);
    lemma_strand_prefix(s, m, b, (i + 1) as nat, sc, base, res);
    let here_r = strand_rings(s, m, b, sc);
    let here_i = strand_indices(s, m, b, sc, base, res);
    let b1r = bucket_rings(strands, b, (s + 1) as nat);
    let b1i = bucket_indices(strands, b, (s + 1) as nat, res);
    assert(b1r == bucket_rings(strands, b, s as nat) + here_r);
    assert(b1i == bucket_indices(strands, b, s as nat, res) + here_i);
    lemma_bucket_prefix(strands, b, (s + 1) as nat, n, res);
    let rings = bucket_rings(strands, b, n);
    let indices = bucket_indices(strands, b, n, res);
    assert(here_r.subrange(0, r1.len() as int) == r1);
    assert(rings.subrange(0, b1r.len() as int) == b1r);
    assert(rings[bottom] == b1r[bottom]);
    assert(b1r[bottom] == here_r[bottom - base]);
    assert(here_r[bottom - base] == r1[bottom - base]);
    assert(rings[top] == b1r[top]);
    assert(b1r[top] == here_r[top - base]);
    assert(here_r[top - base] == r1[top - base]);
    let o: int = (ibase + pi.len()) as int;
    assert(indices.subrange(0, b1i.len() as int) == b1i);
    assert(here_i.subrange(0, i1.len() as int) == i1);
    assert(indices.subrange(o, o + 6 * res) =~= strip) by {
        assert forall|t: int| 0 <= t < 6 * res implies indices.subrange(o, o + 6 * res)[t]
            == strip[t] by {
            assert(indices[o + t] == b1i[o + t]);
            assert(b1i[o + t] == here_i[pi.len() + t]);
            assert(here_i[pi.len() + t] == i1[pi.len() + t]);
            assert(i1[pi.len() + t] == strip[t]);
        }
    }
    assert(0 <= bottom < rings.len() && 0 <= top < rings.len());
    assert(o + 6 * res <= indices.len());
}

} // verus!
