//! Density clustering: core points within epsilon of each other share a
//! cluster, border points join the cluster of the first core point that
//! reaches them, and every other point is noise (label 0).
use vstd::prelude::*;
use vstd::arithmetic::div_mod::{lemma_div_by_multiple, lemma_fundamental_div_mod, lemma_mod_multiples_basic};
use vstd::arithmetic::mul::lemma_mul_is_commutative;
use crate::errors::Aqua3dError;

verus! {

/// `count` points of `dim` integer coordinates each, row-major.
pub struct PointSet {
    pub count: usize,
    pub dim: usize,
    pub coords: Vec<i32>,
}

impl PointSet {
    /// At least one point of at least one coordinate, and one value per
    /// coordinate.
    pub open spec fn wf(&self) -> bool {
        &&& self.count >= 1
        &&& self.dim >= 1
        &&& self.coords@.len() == self.count * self.dim
    }

    pub open spec fn coord(&self, i: int, m: int) -> int {
        self.coords@[i * self.dim + m] as int
    }

    /// Squared distance between points `i` and `j` over their first `k`
    /// coordinates.
    pub open spec fn dist2(&self, i: int, j: int, k: int) -> int
        decreases k,
    {
        if k <= 0 {
            0
        } else {
            let t = self.coord(i, k - 1) - self.coord(j, k - 1);
            self.dist2(i, j, k - 1) + t * t
        }
    }

    /// Points `i` and `j` lie within `eps` of each other.
    pub open spec fn close(&self, eps: int, i: int, j: int) -> bool {
        self.dist2(i, j, self.dim as int) <= eps * eps
    }

    /// How many of the points `0..k` lie within `eps` of point `i`.
    pub open spec fn close_count(&self, eps: int, i: int, k: int) -> nat
        decreases k,
    {
        if k <= 0 {
            0
        } else {
            self.close_count(eps, i, k - 1) + if self.close(eps, i, k - 1) { 1nat } else { 0nat }
        }
    }

    /// Point `i` has at least `min_points` points (itself included) within
    /// `eps`.
    pub open spec fn is_core(&self, eps: int, min_points: int, i: int) -> bool {
        self.close_count(eps, i, self.count as int) >= min_points
    }

    /// `p` steps from core point to core point, each within `eps` of the
    /// next.
    pub open spec fn core_path(&self, eps: int, min_points: int, p: Seq<usize>) -> bool {
        &&& p.len() >= 1
        &&& forall|k: int|
            0 <= k < p.len() ==> (#[trigger] p[k]) < self.count && self.is_core(eps, min_points, p[k] as int)
        &&& forall|k: int| 0 <= k < p.len() - 1 ==> self.close(eps, #[trigger] p[k] as int, p[k + 1] as int)
    }

    /// `roots[i]`, for each core point `i`, is the smallest core point
    /// connected to `i`: it is connected to `i`, no larger than `i`, and
    /// core points within `eps` of each other have the same root.
    pub open spec fn roots_ok(&self, eps: int, min_points: int, roots: Seq<usize>) -> bool {
        &&& roots.len() == self.count
        &&& forall|i: int|
            0 <= i < self.count && self.is_core(eps, min_points, i) ==> {
                &&& #[trigger] roots[i] <= i
                &&& exists|p: Seq<usize>|
                    self.core_path(eps, min_points, p) && p[0] == i && p.last() == roots[i]
            }
        &&& forall|i: int, j: int|
            0 <= i < self.count && 0 <= j < self.count && self.is_core(eps, min_points, i) && self.is_core(
                eps,
                min_points,
                j,
            ) && self.close(eps, i, j) ==> #[trigger] roots[i] == #[trigger] roots[j]
    }

    /// `i` is the first core point within `eps` of point `j`.
    pub open spec fn first_core_near(&self, eps: int, min_points: int, j: int, i: int) -> bool {
        &&& 0 <= i < self.count
        &&& self.is_core(eps, min_points, i)
        &&& self.close(eps, i, j)
        &&& forall|h: int| 0 <= h < i ==> !(self.is_core(eps, min_points, h) && #[trigger] self.close(eps, h, j))
    }

    /// `labels` follows from `roots`: a core point is labelled by its root
    /// plus one, a border point by the root of the first core point that
    /// reaches it, and a point that no core point reaches is noise (0).
    pub open spec fn labels_from(&self, eps: int, min_points: int, roots: Seq<usize>, labels: Seq<usize>) -> bool {
        &&& labels.len() == self.count
        &&& forall|j: int|
            0 <= j < self.count ==> {
                &&& self.is_core(eps, min_points, j) ==> #[trigger] labels[j] == roots[j] + 1
                &&& (!self.is_core(eps, min_points, j) && forall|i: int|
                    0 <= i < self.count ==> !(self.is_core(eps, min_points, i) && self.close(eps, i, j)))
                    ==> labels[j] == 0
            }
        &&& forall|j: int, i: int|
            0 <= j < self.count && !self.is_core(eps, min_points, j) && self.first_core_near(
                eps,
                min_points,
                j,
                i,
            ) ==> #[trigger] labels[j] == #[trigger] roots[i] + 1
    }

    /// `labels` is the clustering of these points for `eps` and `min_points`.
    pub open spec fn is_clustering(&self, eps: int, min_points: int, labels: Seq<usize>) -> bool {
        exists|roots: Seq<usize>|
            self.roots_ok(eps, min_points, roots) && self.labels_from(eps, min_points, roots, labels)
    }
}

/// `x * x` for a coordinate difference, which fits in 64 bits.
proof fn lemma_square_bound(t: int)
    requires
        -0x1_0000_0000 < t < 0x1_0000_0000,
    ensures
        0 <= t * t <= 0xFFFF_FFFF_FFFF_FFFF,
{
    assert(0 <= t * t <= 0xFFFF_FFFF_FFFF_FFFF) by (nonlinear_arith)
        requires
            -0x1_0000_0000 < t < 0x1_0000_0000,
    ;
}

/// Position of coordinate `m` of point `i` in the flat vector.
proof fn lemma_index_bound(i: int, m: int, count: int, dim: int)
    requires
        0 <= i < count,
        0 <= m < dim,
    ensures
        0 <= i * dim <= i * dim + m < count * dim,
{
    assert(0 <= i * dim <= i * dim + m < count * dim) by (nonlinear_arith)
        requires
            0 <= i < count,
            0 <= m < dim,
    ;
}

/// Whether points `i` and `j` lie within `eps` of each other.
fn close_exec(x: &PointSet, eps: u32, i: usize, j: usize) -> (r: bool)
    requires
        x.wf(),
        i < x.count,
        j < x.count,
    ensures
        r == x.close(eps as int, i as int, j as int),
{
    let mut acc: u128 = 0;
    let mut m: usize = 0;
    let len = x.coords.len();
    while m < x.dim
        invariant
            x.wf(),
            len == x.coords@.len(),
            i < x.count,
            j < x.count,
            m <= x.dim,
            acc == x.dist2(i as int, j as int, m as int),
            acc <= m * 0xFFFF_FFFF_FFFF_FFFFu128,
        decreases x.dim - m,
    {
        proof {
            lemma_index_bound(i as int, m as int, x.count as int, x.dim as int);
            lemma_index_bound(j as int, m as int, x.count as int, x.dim as int);
            assert(i * x.dim + m < x.coords@.len());
            assert(j * x.dim + m < x.coords@.len());
        }
        let a = x.coords[i * x.dim + m] as i64;
        let b = x.coords[j * x.dim + m] as i64;
        let t: i64 = a - b;
        proof {
            lemma_square_bound(t as int);
            assert(m * 0xFFFF_FFFF_FFFF_FFFFu128 + 0xFFFF_FFFF_FFFF_FFFFu128 == (m + 1) * 0xFFFF_FFFF_FFFF_FFFFu128)
                by (nonlinear_arith);
            assert((m + 1) * 0xFFFF_FFFF_FFFF_FFFFu128 <= 0xFFFF_FFFF_FFFF_FFFFu128 * 0xFFFF_FFFF_FFFF_FFFFu128)
                by (nonlinear_arith)
                requires
                    m + 1 <= 0xFFFF_FFFF_FFFF_FFFFu128,
            ;
        }
        let sq: u128 = (t as i128 * t as i128) as u128;
        acc = acc + sq;
        m = m + 1;
    }
    assert(eps as u128 * eps as u128 <= 0xFFFF_FFFF_FFFF_FFFFu128) by (nonlinear_arith);
    acc <= eps as u128 * eps as u128
}

proof fn lemma_dist2_symmetric(x: &PointSet, i: int, j: int, k: int)
    ensures
        x.dist2(i, j, k) == x.dist2(j, i, k),
    decreases k,
{
    if k > 0 {
        lemma_dist2_symmetric(x, i, j, k - 1);
        let t = x.coord(i, k - 1) - x.coord(j, k - 1);
        assert(t * t == (-t) * (-t)) by (nonlinear_arith);
    }
}

proof fn lemma_dist2_self(x: &PointSet, i: int, k: int)
    ensures
        x.dist2(i, i, k) == 0,
    decreases k,
{
    if k > 0 {
        lemma_dist2_self(x, i, k - 1);
    }
}

/// Sum of a sequence of indices.
spec fn seq_sum(s: Seq<usize>) -> int
    decreases s.len(),
{
    if s.len() == 0 {
        0
    } else {
        seq_sum(s.drop_last()) + s.last()
    }
}

proof fn lemma_sum_nonneg(s: Seq<usize>)
    ensures
        seq_sum(s) >= 0,
    decreases s.len(),
{
    if s.len() > 0 {
        lemma_sum_nonneg(s.drop_last());
    }
}

proof fn lemma_sum_update(s: Seq<usize>, i: int, v: usize)
    requires
        0 <= i < s.len(),
    ensures
        seq_sum(s.update(i, v)) == seq_sum(s) - s[i] + v,
    decreases s.len(),
{
    if i < s.len() - 1 {
        lemma_sum_update(s.drop_last(), i, v);
        assert(s.update(i, v).drop_last() =~= s.drop_last().update(i, v));
    } else {
        assert(s.update(i, v).drop_last() =~= s.drop_last());
    }
}

/// Whether each point is a core point.
fn core_flags(x: &PointSet, eps: u32, min_points: u32) -> (r: Vec<bool>)
    requires
        x.wf(),
    ensures
        r@.len() == x.count,
        forall|i: int| 0 <= i < x.count ==> #[trigger] r@[i] == x.is_core(eps as int, min_points as int, i),
{
    let mut r: Vec<bool> = Vec::new();
    let mut i: usize = 0;
    while i < x.count
        invariant
            x.wf(),
            i <= x.count,
            r@.len() == i,
            forall|h: int| 0 <= h < i ==> #[trigger] r@[h] == x.is_core(eps as int, min_points as int, h),
        decreases x.count - i,
    {
        let mut cnt: usize = 0;
        let mut j: usize = 0;
        while j < x.count
            invariant
                x.wf(),
                i < x.count,
                j <= x.count,
                cnt == x.close_count(eps as int, i as int, j as int),
                cnt <= j,
            decreases x.count - j,
        {
            if close_exec(x, eps, i, j) {
                cnt = cnt + 1;
            }
            j = j + 1;
        }
        r.push(cnt >= min_points as usize);
        i = i + 1;
    }
    r
}

/// Repeatedly lowers the root of every core point to the smallest root
/// among the core points within `eps`, until nothing changes.
fn propagate_roots(x: &PointSet, eps: u32, min_points: u32, core: &Vec<bool>) -> (r: Vec<usize>)
    requires
        x.wf(),
        core@.len() == x.count,
        forall|i: int| 0 <= i < x.count ==> #[trigger] core@[i] == x.is_core(eps as int, min_points as int, i),
    ensures
        x.roots_ok(eps as int, min_points as int, r@),
{
    let n = x.count;
    let ghost e = eps as int;
    let ghost mp = min_points as int;
    let mut roots: Vec<usize> = Vec::new();
    let mut i: usize = 0;
    while i < n
        invariant
            i <= n,
            roots@.len() == i,
            forall|h: int| 0 <= h < i ==> #[trigger] roots@[h] == h,
        decreases n - i,
    {
        roots.push(i);
        i = i + 1;
    }
    let ghost mut paths: Seq<Seq<usize>> = Seq::new(n as nat, |h: int| seq![h as usize]);
    loop
        invariant
            x.wf(),
            n == x.count,
            e == eps,
            mp == min_points,
            core@.len() == n,
            forall|h: int| 0 <= h < n ==> #[trigger] core@[h] == x.is_core(e, mp, h),
            roots@.len() == n,
            paths.len() == n,
            forall|h: int| 0 <= h < n ==> #[trigger] roots@[h] <= h,
            forall|h: int|
                0 <= h < n && x.is_core(e, mp, h) ==> {
                    &&& x.core_path(e, mp, #[trigger] paths[h])
                    &&& paths[h][0] == h
                    &&& paths[h].last() == roots@[h]
                },
        ensures
            forall|a: int, b: int|
                0 <= a < n && 0 <= b < n && x.is_core(e, mp, a) && x.is_core(e, mp, b) && x.close(e, a, b)
                    ==> #[trigger] roots@[a] <= #[trigger] roots@[b],
        decreases seq_sum(roots@),
    {
        let ghost start = roots@;
        let mut changed = false;
        let mut a: usize = 0;
        while a < n
            invariant
                x.wf(),
                n == x.count,
                e == eps,
                mp == min_points,
                core@.len() == n,
                forall|h: int| 0 <= h < n ==> #[trigger] core@[h] == x.is_core(e, mp, h),
                roots@.len() == n,
                paths.len() == n,
                a <= n,
                forall|h: int| 0 <= h < n ==> #[trigger] roots@[h] <= h,
                forall|h: int|
                    0 <= h < n && x.is_core(e, mp, h) ==> {
                        &&& x.core_path(e, mp, #[trigger] paths[h])
                        &&& paths[h][0] == h
                        &&& paths[h].last() == roots@[h]
                    },
                !changed ==> roots@ == start,
                changed ==> seq_sum(roots@) < seq_sum(start),
                !changed ==> forall|a1: int, b: int|
                    0 <= a1 < a && 0 <= b < n && x.is_core(e, mp, a1) && x.is_core(e, mp, b) && x.close(e, a1, b)
                        ==> #[trigger] roots@[a1] <= #[trigger] roots@[b],
            decreases n - a,
        {
            if core[a] {
                let mut b: usize = 0;
                while b < n
                    invariant
                        x.wf(),
                        n == x.count,
                        e == eps,
                        mp == min_points,
                        a < n,
                        core@[a as int],
                        core@.len() == n,
                        forall|h: int| 0 <= h < n ==> #[trigger] core@[h] == x.is_core(e, mp, h),
                        roots@.len() == n,
                        paths.len() == n,
                        b <= n,
                        forall|h: int| 0 <= h < n ==> #[trigger] roots@[h] <= h,
                        forall|h: int|
                            0 <= h < n && x.is_core(e, mp, h) ==> {
                                &&& x.core_path(e, mp, #[trigger] paths[h])
                                &&& paths[h][0] == h
                                &&& paths[h].last() == roots@[h]
                            },
                        !changed ==> roots@ == start,
                        changed ==> seq_sum(roots@) < seq_sum(start),
                        !changed ==> forall|a1: int, b1: int|
                            0 <= a1 < a && 0 <= b1 < n && x.is_core(e, mp, a1) && x.is_core(e, mp, b1) && x.close(
                                e,
                                a1,
                                b1,
                            ) ==> #[trigger] roots@[a1] <= #[trigger] roots@[b1],
                        !changed ==> forall|b1: int|
                            0 <= b1 < b && x.is_core(e, mp, b1) && x.close(e, a as int, b1) ==> roots@[a as int]
                                <= #[trigger] roots@[b1],
                    decreases n - b,
                {
                    if core[b] && roots[b] < roots[a] && close_exec(x, eps, a, b) {
                        let ghost before = roots@;
                        let nr = roots[b];
                        roots.set(a, nr);
                        proof {
                            lemma_sum_update(before, a as int, nr);
                            let pb = paths[b as int];
                            let np = seq![a].add(pb);
                            assert forall|k: int| 0 <= k < np.len() implies (#[trigger] np[k]) < x.count
                                && x.is_core(e, mp, np[k] as int) by {
                                if k > 0 {
                                    assert(np[k] == pb[k - 1]);
                                }
                            }
                            assert forall|k: int| 0 <= k < np.len() - 1 implies x.close(
                                e,
                                #[trigger] np[k] as int,
                                np[k + 1] as int,
                            ) by {
                                if k > 0 {
                                    assert(np[k] == pb[k - 1] && np[k + 1] == pb[k]);
                                }
                            }
                            assert(np.last() == pb.last());
                            paths = paths.update(a as int, np);
                        }
                        changed = true;
                    }
                    b = b + 1;
                }
            }
            a = a + 1;
        }
        if !changed {
            break;
        }
        proof {
            lemma_sum_nonneg(roots@);
        }
    }
    proof {
        assert forall|a: int, b: int|
            0 <= a < n && 0 <= b < n && x.is_core(e, mp, a) && x.is_core(e, mp, b) && x.close(e, a, b) implies
            #[trigger] roots@[a] == #[trigger] roots@[b] by {
            lemma_dist2_symmetric(x, a, b, x.dim as int);
        }
        assert forall|h: int| 0 <= h < n && x.is_core(e, mp, h) implies {
            &&& #[trigger] roots@[h] <= h
            &&& exists|p: Seq<usize>| x.core_path(e, mp, p) && p[0] == h && p.last() == roots@[h]
        } by {
            assert(x.core_path(e, mp, paths[h]));
        }
    }
    roots
}

/// The first core point within `eps` of point `j`, if any.
fn find_first_core_near(x: &PointSet, eps: u32, min_points: u32, core: &Vec<bool>, j: usize) -> (r: Option<usize>)
    requires
        x.wf(),
        j < x.count,
        core@.len() == x.count,
        forall|i: int| 0 <= i < x.count ==> #[trigger] core@[i] == x.is_core(eps as int, min_points as int, i),
    ensures
        r matches Some(i) ==> x.first_core_near(eps as int, min_points as int, j as int, i as int),
        r is None ==> forall|i: int|
            0 <= i < x.count ==> !(x.is_core(eps as int, min_points as int, i) && x.close(eps as int, i, j as int)),
{
    let mut i: usize = 0;
    while i < x.count
        invariant
            x.wf(),
            j < x.count,
            i <= x.count,
            core@.len() == x.count,
            forall|h: int| 0 <= h < x.count ==> #[trigger] core@[h] == x.is_core(eps as int, min_points as int, h),
            forall|h: int|
                0 <= h < i ==> !(x.is_core(eps as int, min_points as int, h) && #[trigger] x.close(
                    eps as int,
                    h,
                    j as int,
                )),
        decreases x.count - i,
    {
        if core[i] && close_exec(x, eps, i, j) {
            return Some(i);
        }
        i = i + 1;
    }
    None
}

/// Clusters the points: core points (at least `min_points` points, itself
/// included, within `epsilon`) that are linked by chains of core points
/// within `epsilon` share a cluster, labelled by its smallest core point
/// plus one; a border point takes the label of the first core point within
/// `epsilon`; any other point is noise, labelled 0.
pub fn dbscan(x: &PointSet, epsilon: u32, min_points: u32) -> (r: Result<Vec<usize>, Aqua3dError>)
    ensures
        !x.wf() <==> r == Err::<Vec<usize>, Aqua3dError>(Aqua3dError::ShapeMismatch),
        x.wf() ==> r is Ok,
        r matches Err(e) ==> e == Aqua3dError::ShapeMismatch,
        r matches Ok(labels) ==> x.is_clustering(epsilon as int, min_points as int, labels@),
{
    if !shape_ok(x) {
        return Err(Aqua3dError::ShapeMismatch);
    }
    let n = x.count;
    let ghost e = epsilon as int;
    let ghost mp = min_points as int;
    let core = core_flags(x, epsilon, min_points);
    let roots = propagate_roots(x, epsilon, min_points, &core);
    let mut labels: Vec<usize> = Vec::new();
    let mut j: usize = 0;
    while j < n
        invariant
            x.wf(),
            n == x.count,
            e == epsilon,
            mp == min_points,
            core@.len() == n,
            forall|h: int| 0 <= h < n ==> #[trigger] core@[h] == x.is_core(e, mp, h),
            x.roots_ok(e, mp, roots@),
            j <= n,
            labels@.len() == j,
            forall|h: int|
                0 <= h < j ==> {
                    &&& x.is_core(e, mp, h) ==> #[trigger] labels@[h] == roots@[h] + 1
                    &&& (!x.is_core(e, mp, h) && forall|i: int|
                        0 <= i < n ==> !(x.is_core(e, mp, i) && x.close(e, i, h))) ==> labels@[h] == 0
                },
            forall|h: int, i: int|
                0 <= h < j && !x.is_core(e, mp, h) && x.first_core_near(e, mp, h, i) ==> #[trigger] labels@[h]
                    == #[trigger] roots@[i] + 1,
        decreases n - j,
    {
        if core[j] {
            labels.push(roots[j] + 1);
        } else {
            match find_first_core_near(x, epsilon, min_points, &core, j) {
                Some(i) => {
                    labels.push(roots[i] + 1);
                    proof {
                        assert forall|i2: int| x.first_core_near(e, mp, j as int, i2) implies i2 == i by {
                            if i2 < i {
                                assert(x.close(e, i2, j as int));
                            } else if i < i2 {
                                assert(x.close(e, i as int, j as int));
                            }
                        }
                    }
                },
                None => {
                    labels.push(0);
                },
            }
        }
        j = j + 1;
    }
    proof {
        assert(x.labels_from(e, mp, roots@, labels@));
    }
    Ok(labels)
}

/// Roots are constant along a core path.
proof fn lemma_roots_along_path(x: &PointSet, eps: int, min_points: int, roots: Seq<usize>, p: Seq<usize>, k: int)
    requires
        x.roots_ok(eps, min_points, roots),
        x.core_path(eps, min_points, p),
        0 <= k < p.len(),
    ensures
        roots[p[k] as int] == roots[p[0] as int],
    decreases k,
{
    if k > 0 {
        lemma_roots_along_path(x, eps, min_points, roots, p, k - 1);
        assert(x.close(eps, p[k - 1] as int, p[k] as int));
        assert(roots[p[k - 1] as int] == roots[p[k] as int]);
    }
}

proof fn lemma_root_below(x: &PointSet, eps: int, min_points: int, r1: Seq<usize>, r2: Seq<usize>, i: int)
    requires
        x.roots_ok(eps, min_points, r1),
        x.roots_ok(eps, min_points, r2),
        0 <= i < x.count,
        x.is_core(eps, min_points, i),
    ensures
        r2[i] <= r1[i],
{
    assert(r1[i] <= i);
    let p = choose|p: Seq<usize>| x.core_path(eps, min_points, p) && p[0] == i && p.last() == r1[i];
    lemma_roots_along_path(x, eps, min_points, r2, p, p.len() - 1);
    let t = r1[i] as int;
    assert(p[p.len() - 1] == t);
    assert(t < x.count && x.is_core(eps, min_points, t));
    assert(r2[t] <= t);
}

/// The first core point near a point exists as soon as some core point is
/// near it.
proof fn lemma_first_core_exists(x: &PointSet, eps: int, min_points: int, j: int, i: int)
    requires
        0 <= i < x.count,
        x.is_core(eps, min_points, i),
        x.close(eps, i, j),
    ensures
        exists|f: int| x.first_core_near(eps, min_points, j, f),
    decreases i,
{
    if exists|h: int| 0 <= h < i && x.is_core(eps, min_points, h) && #[trigger] x.close(eps, h, j) {
        let h = choose|h: int| 0 <= h < i && x.is_core(eps, min_points, h) && #[trigger] x.close(eps, h, j);
        lemma_first_core_exists(x, eps, min_points, j, h);
    } else {
        assert(x.first_core_near(eps, min_points, j, i));
    }
}

/// Clustering is deterministic: for fixed points, `eps` and `min_points`
/// there is exactly one clustering, so every run yields the same labels
/// and hence the same partition of the points.
pub proof fn lemma_clustering_unique(x: &PointSet, eps: int, min_points: int, l1: Seq<usize>, l2: Seq<usize>)
    requires
        x.is_clustering(eps, min_points, l1),
        x.is_clustering(eps, min_points, l2),
    ensures
        l1 == l2,
{
    let r1 = choose|r: Seq<usize>| x.roots_ok(eps, min_points, r) && x.labels_from(eps, min_points, r, l1);
    let r2 = choose|r: Seq<usize>| x.roots_ok(eps, min_points, r) && x.labels_from(eps, min_points, r, l2);
    assert forall|i: int| 0 <= i < x.count && x.is_core(eps, min_points, i) implies r1[i] == r2[i] by {
        lemma_root_below(x, eps, min_points, r1, r2, i);
        lemma_root_below(x, eps, min_points, r2, r1, i);
    }
    assert forall|j: int| 0 <= j < x.count implies l1[j] == l2[j] by {
        if !x.is_core(eps, min_points, j) {
            if exists|i: int| 0 <= i < x.count && x.is_core(eps, min_points, i) && x.close(eps, i, j) {
                let i = choose|i: int| 0 <= i < x.count && x.is_core(eps, min_points, i) && x.close(eps, i, j);
                lemma_first_core_exists(x, eps, min_points, j, i);
                let f = choose|f: int| x.first_core_near(eps, min_points, j, f);
                assert(l1[j] == r1[f] + 1);
                assert(l2[j] == r2[f] + 1);
            }
        }
    }
    assert(l1 =~= l2);
}

/// Whether the coordinate vector holds exactly `count * dim` values for at
/// least one point of at least one coordinate.
fn shape_ok(x: &PointSet) -> (r: bool)
    ensures
        r == x.wf(),
{
    let len = x.coords.len();
    if x.count == 0 || x.dim == 0 {
        return false;
    }
    proof {
        lemma_fundamental_div_mod(len as int, x.dim as int);
        lemma_mul_is_commutative(x.dim as int, (len / x.dim) as int);
        lemma_mul_is_commutative(x.dim as int, x.count as int);
        if len == x.count * x.dim {
            lemma_div_by_multiple(x.count as int, x.dim as int);
            lemma_mod_multiples_basic(x.count as int, x.dim as int);
        }
    }
    len % x.dim == 0 && len / x.dim == x.count
}

} // verus!
