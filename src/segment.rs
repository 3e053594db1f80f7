//! Region growing over a depth map: every cell ends up in a region whose
//! cells are reachable from the region's seed by a 4-connected walk through
//! cells of similar depth.
use vstd::prelude::*;
use std::collections::VecDeque;
use crate::grid::{DepthMap, seq_min, seq_max, min_max, lemma_min_max};

verus! {

/// Fractions are given in parts per million.
pub const PPM: u64 = 1_000_000;

/// Cells `a` and `b` are 4-neighbours in a row-major grid of width `w`:
/// one lies directly above the other, or both share a row and touch.
pub open spec fn adjacent(w: int, a: int, b: int) -> bool {
    ||| a + w == b
    ||| b + w == a
    ||| (a + 1 == b && b % w != 0)
    ||| (b + 1 == a && a % w != 0)
}

pub open spec fn abs_diff(a: u32, b: u32) -> int {
    if a >= b { a - b } else { b - a }
}

/// Spread between the deepest and the shallowest cell.
pub open spec fn depth_range(depth: Seq<u32>) -> int {
    seq_max(depth) - seq_min(depth)
}

/// Depth `d` differs from the seed depth `s` by at most `eps_ppm`
/// millionths of the depth range.
pub open spec fn within(depth: Seq<u32>, eps_ppm: int, d: u32, s: u32) -> bool {
    abs_diff(d, s) * PPM <= depth_range(depth) * eps_ppm
}

/// `p` walks from `seed` to `to` through 4-neighbouring cells that all carry
/// `label` and all lie within the scaled epsilon of the seed's depth.
pub open spec fn region_path(
    w: int,
    depth: Seq<u32>,
    labels: Seq<usize>,
    eps_ppm: int,
    p: Seq<usize>,
    seed: int,
    to: int,
    label: usize,
) -> bool {
    &&& p.len() >= 1
    &&& p[0] == seed
    &&& p.last() == to
    &&& forall|k: int|
        0 <= k < p.len() ==> {
            &&& (#[trigger] p[k]) < labels.len()
            &&& labels[p[k] as int] == label
            &&& within(depth, eps_ppm, depth[p[k] as int], depth[seed])
        }
    &&& forall|k: int| 0 <= k < p.len() - 1 ==> adjacent(w, #[trigger] p[k] as int, p[k + 1] as int)
}

/// Every labelled cell is joined to the seed of its region (`seeds[label]`)
/// by a region path.
pub open spec fn region_paths_exist(
    w: int,
    depth: Seq<u32>,
    labels: Seq<usize>,
    eps_ppm: int,
    seeds: Seq<usize>,
) -> bool {
    forall|c: int|
        0 <= c < labels.len() && #[trigger] labels[c] != 0 ==> {
            &&& labels[c] < seeds.len()
            &&& exists|p: Seq<usize>|
                region_path(w, depth, labels, eps_ppm, p, seeds[labels[c] as int] as int, c, labels[c])
        }
}

/// Regions are maximal: a 4-neighbour of a cell of region `l` whose depth
/// is within the scaled epsilon of the seed of `l` belongs to `l` or to an
/// earlier region.
pub open spec fn regions_closed(
    w: int,
    depth: Seq<u32>,
    labels: Seq<usize>,
    eps_ppm: int,
    seeds: Seq<usize>,
) -> bool {
    forall|a: int, b: int|
        0 <= a < labels.len() && 0 <= b < labels.len() && labels[a] != 0 && #[trigger] adjacent(w, a, b)
            && within(depth, eps_ppm, depth[b], depth[seeds[#[trigger] labels[a] as int] as int]) ==> labels[b]
            != 0 && labels[b] <= labels[a]
}

/// Region paths exist, and each seed carries its own region's label.
pub open spec fn regions_sound(
    w: int,
    depth: Seq<u32>,
    labels: Seq<usize>,
    eps_ppm: int,
    seeds: Seq<usize>,
) -> bool {
    &&& forall|l: int| 1 <= l < seeds.len() ==> (#[trigger] seeds[l]) < labels.len() && labels[seeds[l] as int] == l
    &&& region_paths_exist(w, depth, labels, eps_ppm, seeds)
}

/// Number of unlabelled cells.
pub open spec fn count_zero(s: Seq<usize>) -> nat
    decreases s.len(),
{
    if s.len() == 0 {
        0
    } else {
        count_zero(s.drop_last()) + if s.last() == 0 { 1nat } else { 0nat }
    }
}

proof fn lemma_count_zero_shrinks(a: Seq<usize>, b: Seq<usize>)
    requires
        a.len() == b.len(),
        forall|j: int| 0 <= j < a.len() && #[trigger] b[j] == 0 ==> a[j] == 0,
    ensures
        count_zero(b) <= count_zero(a),
        (exists|i: int| 0 <= i < a.len() && a[i] == 0 && b[i] != 0) ==> count_zero(b) < count_zero(a),
    decreases a.len(),
{
    if a.len() > 0 {
        let (a1, b1) = (a.drop_last(), b.drop_last());
        assert forall|j: int| 0 <= j < a1.len() && #[trigger] b1[j] == 0 implies a1[j] == 0 by {
            assert(b1[j] == b[j] && a1[j] == a[j]);
        }
        lemma_count_zero_shrinks(a1, b1);
        if exists|i: int| 0 <= i < a.len() && a[i] == 0 && b[i] != 0 {
            let i = choose|i: int| 0 <= i < a.len() && a[i] == 0 && b[i] != 0;
            if i < a.len() - 1 {
                assert(a1[i] == a[i] && b1[i] == b[i]);
            }
        }
    }
}

proof fn lemma_count_zero_bound(s: Seq<usize>)
    ensures
        count_zero(s) <= s.len(),
        (forall|j: int| 0 <= j < s.len() ==> #[trigger] s[j] == 0) ==> count_zero(s) == s.len(),
    decreases s.len(),
{
    if s.len() > 0 {
        lemma_count_zero_bound(s.drop_last());
        if forall|j: int| 0 <= j < s.len() ==> #[trigger] s[j] == 0 {
            assert forall|j: int| 0 <= j < s.drop_last().len() implies #[trigger] s.drop_last()[j] == 0 by {
                assert(s.drop_last()[j] == s[j]);
            }
        }
    }
}

/// Relabelling an unlabelled cell keeps every existing region path valid.
proof fn lemma_path_stable(
    w: int,
    depth: Seq<u32>,
    labels: Seq<usize>,
    eps_ppm: int,
    p: Seq<usize>,
    seed: int,
    to: int,
    label: usize,
    x: int,
    v: usize,
)
    requires
        region_path(w, depth, labels, eps_ppm, p, seed, to, label),
        label != 0,
        0 <= x < labels.len(),
        labels[x] == 0,
    ensures
        region_path(w, depth, labels.update(x, v), eps_ppm, p, seed, to, label),
{
    let nl = labels.update(x, v);
    assert forall|k: int| 0 <= k < p.len() implies {
        &&& (#[trigger] p[k]) < nl.len()
        &&& nl[p[k] as int] == label
        &&& within(depth, eps_ppm, depth[p[k] as int], depth[seed])
    } by {
        assert(labels[p[k] as int] == label);
    }
}

/// Every labelled cell has a witnessed region path back to its seed.
pub open spec fn paths_ok(
    w: int,
    depth: Seq<u32>,
    labels: Seq<usize>,
    eps_ppm: int,
    seeds: Seq<usize>,
    paths: Seq<Seq<usize>>,
) -> bool {
    &&& paths.len() == labels.len()
    &&& forall|c: int|
        0 <= c < labels.len() && #[trigger] labels[c] != 0 ==> {
            &&& labels[c] < seeds.len()
            &&& region_path(w, depth, labels, eps_ppm, paths[c], seeds[labels[c] as int] as int, c, labels[c])
        }
}

/// Extending the path of a labelled neighbour by a freshly labelled cell.
proof fn lemma_extend_path(
    w: int,
    depth: Seq<u32>,
    labels: Seq<usize>,
    eps_ppm: int,
    p: Seq<usize>,
    seed: int,
    from: usize,
    c: usize,
    label: usize,
)
    requires
        region_path(w, depth, labels, eps_ppm, p, seed, from as int, label),
        c < labels.len(),
        labels[c as int] == label,
        adjacent(w, from as int, c as int),
        within(depth, eps_ppm, depth[c as int], depth[seed]),
    ensures
        region_path(w, depth, labels, eps_ppm, p.push(c), seed, c as int, label),
{
    let q = p.push(c);
    assert forall|k: int| 0 <= k < q.len() implies {
        &&& (#[trigger] q[k]) < labels.len()
        &&& labels[q[k] as int] == label
        &&& within(depth, eps_ppm, depth[q[k] as int], depth[seed])
    } by {
        if k < p.len() {
            assert(q[k] == p[k]);
        } else {
            assert(q[k] == c);
        }
    }
    assert forall|k: int| 0 <= k < q.len() - 1 implies adjacent(w, #[trigger] q[k] as int, q[k + 1] as int) by {
        if k < p.len() - 1 {
            assert(q[k] == p[k] && q[k + 1] == p[k + 1]);
        } else {
            assert(q[k] == p.last());
        }
    }
}

/// Labelling cell `c` with `cur` (its parent `par` already in the region,
/// or `c` the seed itself) keeps every witnessed path valid and adds one
/// for `c`.
proof fn lemma_label_cell(
    w: int,
    depth: Seq<u32>,
    lb: Seq<usize>,
    eps_ppm: int,
    seeds: Seq<usize>,
    ps: Seq<Seq<usize>>,
    c: usize,
    par: usize,
    seed: usize,
    cur: usize,
) -> (ps2: Seq<Seq<usize>>)
    requires
        paths_ok(w, depth, lb, eps_ppm, seeds, ps),
        lb.len() == depth.len(),
        c < lb.len(),
        seed < lb.len(),
        lb[c as int] == 0,
        cur >= 1,
        seeds.len() == cur + 1,
        seeds[cur as int] == seed,
        eps_ppm >= 0,
        within(depth, eps_ppm, depth[c as int], depth[seed as int]),
        c == seed || (par < lb.len() && lb[par as int] == cur && adjacent(w, par as int, c as int)),
    ensures
        paths_ok(w, depth, lb.update(c as int, cur), eps_ppm, seeds, ps2),
{
    let nl = lb.update(c as int, cur);
    lemma_min_max(depth);
    let newp = if c == seed {
        seq![seed]
    } else {
        lemma_path_stable(w, depth, lb, eps_ppm, ps[par as int], seed as int, par as int, cur, c as int, cur);
        ps[par as int].push(c)
    };
    if c == seed {
        assert(abs_diff(depth[seed as int], depth[seed as int]) == 0);
        assert(region_path(w, depth, nl, eps_ppm, newp, seed as int, c as int, cur));
    } else {
        lemma_extend_path(w, depth, nl, eps_ppm, ps[par as int], seed as int, par, c, cur);
    }
    let ps2 = ps.update(c as int, newp);
    assert forall|x: int| 0 <= x < nl.len() && #[trigger] nl[x] != 0 implies {
        &&& nl[x] < seeds.len()
        &&& region_path(w, depth, nl, eps_ppm, ps2[x], seeds[nl[x] as int] as int, x, nl[x])
    } by {
        if x != c {
            lemma_path_stable(w, depth, lb, eps_ppm, ps[x], seeds[lb[x] as int] as int, x, lb[x], c as int, cur);
        }
    }
    ps2
}

/// Grows the region `cur` from `seed` breadth-first. A dequeued cell joins
/// when its depth is within the scaled epsilon of the seed's depth; a cell
/// that joins enqueues its unlabelled 4-neighbours.
#[verifier::rlimit(30)]
fn flood_region(
    w: usize,
    depth: &Vec<u32>,
    labels: &mut Vec<usize>,
    seed: usize,
    cur: usize,
    range: u32,
    eps_ppm: u32,
    Ghost(seeds): Ghost<Seq<usize>>,
    Ghost(paths): Ghost<Seq<Seq<usize>>>,
) -> (new_paths: Ghost<Seq<Seq<usize>>>)
    requires
        w > 0,
        old(labels)@.len() == depth@.len(),
        seed < depth@.len(),
        old(labels)@[seed as int] == 0,
        cur >= 1,
        seeds.len() == cur + 1,
        seeds[cur as int] == seed,
        range == depth_range(depth@),
        forall|c: int| 0 <= c < old(labels)@.len() ==> #[trigger] old(labels)@[c] < cur,
        paths_ok(w as int, depth@, old(labels)@, eps_ppm as int, seeds, paths),
    ensures
        final(labels)@.len() == old(labels)@.len(),
        final(labels)@[seed as int] == cur,
        forall|c: int|
            0 <= c < old(labels)@.len() ==> #[trigger] final(labels)@[c] == old(labels)@[c] || (
            old(labels)@[c] == 0 && final(labels)@[c] == cur),
        paths_ok(w as int, depth@, final(labels)@, eps_ppm as int, seeds, new_paths@),
        forall|a: int, b: int|
            0 <= a < old(labels)@.len() && 0 <= b < old(labels)@.len() && final(labels)@[a] == cur
                && #[trigger] adjacent(w as int, a, b) && within(depth@, eps_ppm as int, depth@[b], depth@[seed as int])
                ==> final(labels)@[b] != 0,
{
    let n = depth.len();
    let ghost l0 = labels@;
    let ghost mut ps = paths;
    let ghost mut parents: Seq<usize> = seq![seed];
    let ghost wi = w as int;
    let ghost e = eps_ppm as int;
    let mut q: VecDeque<usize> = VecDeque::new();
    q.push_back(seed);
    while q.len() > 0
        invariant
            n == depth@.len(),
            labels@.len() == n,
            w > 0,
            seed < n,
            cur >= 1,
            seeds.len() == cur + 1,
            seeds[cur as int] == seed,
            range == depth_range(depth@),
            wi == w,
            e == eps_ppm,
            forall|c: int|
                0 <= c < n ==> #[trigger] labels@[c] == l0[c] || (l0[c] == 0 && labels@[c] == cur),
            forall|c: int| 0 <= c < n ==> #[trigger] l0[c] < cur,
            paths_ok(wi, depth@, labels@, e, seeds, ps),
            parents.len() == q@.len(),
            forall|k: int|
                0 <= k < q@.len() ==> {
                    &&& (#[trigger] q@[k]) < n
                    &&& (labels@[q@[k] as int] == 0 || labels@[q@[k] as int] == cur)
                    &&& (q@[k] == seed || (parents[k] < n && labels@[parents[k] as int] == cur
                        && adjacent(wi, parents[k] as int, q@[k] as int)))
                },
            labels@[seed as int] == cur || (q@ == seq![seed] && labels@[seed as int] == 0),
            forall|a: int, b: int|
                0 <= a < n && 0 <= b < n && labels@[a] == cur && #[trigger] adjacent(wi, a, b) && within(
                    depth@,
                    e,
                    depth@[b],
                    depth@[seed as int],
                ) ==> labels@[b] != 0 || q@.contains(b as usize),
        decreases count_zero(labels@), q@.len(),
    {
        assert(labels@[seed as int] == cur || q@[0] == seed);
        let ghost q_before = q@;
        let ghost l_start = labels@;
        let ghost par = parents[0];
        let ghost parents_before = parents;
        let c = q.pop_front().unwrap();
        proof {
            parents = parents.drop_first();
            assert forall|k: int| 0 <= k < q@.len() implies q@[k] == q_before[k + 1] && parents[k]
                == parents_before[k + 1] by {}
            assert forall|b: int| 0 <= b < n && #[trigger] q_before.contains(b as usize) && b != c implies q@.contains(
                b as usize,
            ) by {
                let k = choose|k: int| 0 <= k < q_before.len() && q_before[k] == b as usize;
                assert(k != 0);
                assert(q@[k - 1] == b as usize);
            }
        }
        assert(c < n);
        if labels[c] != cur && within_exec(depth[c], depth[seed], range, eps_ppm) {
            let ghost lb = labels@;
            labels.set(c, cur);
            proof {
                ps = lemma_label_cell(wi, depth@, lb, e, seeds, ps, c, par, seed, cur);
                lemma_count_zero_shrinks(lb, labels@);
            }
            let ghost q_mid = q@;
            let mut dir: usize = 0;
            while dir < 4
                invariant
                    dir <= 4,
                    forall|b: int| 0 <= b < n && #[trigger] q_mid.contains(b as usize) ==> q@.contains(b as usize),
                    forall|b: int|
                        0 <= b < n && adjacent(wi, c as int, b) && dir_of(wi, c as int, b) < dir ==> labels@[b]
                            != 0 || q@.contains(b as usize),
                    n == depth@.len(),
                    labels@.len() == n,
                    w > 0,
                    c < n,
                    labels@[c as int] == cur,
                    parents.len() == q@.len(),
                    forall|k: int|
                        0 <= k < q@.len() ==> {
                            &&& (#[trigger] q@[k]) < n
                            &&& (labels@[q@[k] as int] == 0 || labels@[q@[k] as int] == cur)
                            &&& (q@[k] == seed || (parents[k] < n && labels@[parents[k] as int] == cur
                                && adjacent(wi, parents[k] as int, q@[k] as int)))
                        },
                    wi == w,
                decreases 4 - dir,
            {
                let ghost q_pre = q@;
                if let Some(b) = neighbor(w, n, c, dir) {
                    if labels[b] == 0 {
                        q.push_back(b);
                        proof {
                            parents = parents.push(c);
                            assert(q@[q@.len() - 1] == b);
                        }
                    }
                }
                proof {
                    assert forall|x: int| 0 <= x < n && #[trigger] q_pre.contains(x as usize) implies q@.contains(x as usize) by {
                        let k = choose|k: int| 0 <= k < q_pre.len() && q_pre[k] == x as usize;
                        assert(q@[k] == x as usize);
                    }
                }
                dir = dir + 1;
            }
            proof {
                assert forall|a: int, b: int|
                    0 <= a < n && 0 <= b < n && labels@[a] == cur && #[trigger] adjacent(wi, a, b) && within(
                        depth@,
                        e,
                        depth@[b],
                        depth@[seed as int],
                    ) implies labels@[b] != 0 || q@.contains(b as usize) by {
                    if a != c {
                        assert(l_start[a] == cur);
                        assert(l_start[b] != 0 || q_before.contains(b as usize));
                        if b != c && l_start[b] == 0 {
                            assert(q_mid.contains(b as usize));
                        }
                    } else {
                        assert(dir_of(wi, c as int, b) < 4);
                    }
                }
            }
        } else {
            proof {
                assert forall|a: int, b: int|
                    0 <= a < n && 0 <= b < n && labels@[a] == cur && #[trigger] adjacent(wi, a, b) && within(
                        depth@,
                        e,
                        depth@[b],
                        depth@[seed as int],
                    ) implies labels@[b] != 0 || q@.contains(b as usize) by {
                    assert(l_start[b] != 0 || q_before.contains(b as usize));
                }
            }
        }
    }
    Ghost(ps)
}

/// Each region's seed is the first cell, in row-major order, that no
/// earlier region took: every cell before it belongs to an earlier region.
pub open spec fn seeds_first(labels: Seq<usize>, seeds: Seq<usize>) -> bool {
    forall|l: int, i: int|
        #![trigger labels[i], seeds[l]]
        1 <= l < seeds.len() && 0 <= i < seeds[l] ==> labels[i] != 0 && labels[i] < l
}

/// The cells that carry no label yet, in row-major order.
fn unlabeled_cells(labels: &Vec<usize>) -> (r: Vec<usize>)
    ensures
        forall|k: int| 0 <= k < r@.len() ==> (#[trigger] r@[k]) < labels@.len() && labels@[r@[k] as int] == 0,
        r@.len() == 0 <==> forall|i: int| 0 <= i < labels@.len() ==> #[trigger] labels@[i] != 0,
        r@.len() > 0 ==> forall|i: int| 0 <= i < r@[0] ==> #[trigger] labels@[i] != 0,
{
    let mut r: Vec<usize> = Vec::new();
    let mut i: usize = 0;
    while i < labels.len()
        invariant
            i <= labels@.len(),
            forall|k: int| 0 <= k < r@.len() ==> (#[trigger] r@[k]) < i && labels@[r@[k] as int] == 0,
            r@.len() == 0 ==> forall|j: int| 0 <= j < i ==> #[trigger] labels@[j] != 0,
            r@.len() > 0 ==> forall|j: int| 0 <= j < r@[0] ==> #[trigger] labels@[j] != 0,
        decreases labels@.len() - i,
    {
        if labels[i] == 0 {
            r.push(i);
        }
        i = i + 1;
    }
    if r.len() > 0 {
        assert(labels@[r@[0] as int] == 0);
    }
    r
}

/// Segments `depth` into regions of similar depth. Region ids are 1, 2, ...
/// in order of discovery; the second result is the number of regions. With
/// `is_rand` each seed is drawn at random among the unlabelled cells,
/// otherwise it is the first unlabelled cell in row-major order.
pub fn segment_depth(depth: &DepthMap, eps_ppm: u32, is_rand: bool) -> (r: (Vec<usize>, usize))
    requires
        depth.wf(),
        0 < depth.cells@.len() < usize::MAX,
    ensures
        r.0@.len() == depth.cells@.len(),
        r.1 <= depth.cells@.len(),
        forall|i: int| 0 <= i < r.0@.len() ==> 1 <= #[trigger] r.0@[i] <= r.1,
        exists|seeds: Seq<usize>|
            {
                &&& seeds.len() == r.1 + 1
                &&& regions_sound(depth.width as int, depth.cells@, r.0@, eps_ppm as int, seeds)
                &&& regions_closed(depth.width as int, depth.cells@, r.0@, eps_ppm as int, seeds)
                &&& (!is_rand ==> seeds_first(r.0@, seeds))
            },
{
    let n = depth.cells.len();
    let w = depth.width;
    assert(w > 0) by (nonlinear_arith)
        requires
            n == depth.height * w,
            n > 0,
    ;
    let (lo, hi) = min_max(&depth.cells);
    proof {
        lemma_min_max(depth.cells@);
    }
    let range = hi - lo;
    let ghost wi = w as int;
    let ghost e = eps_ppm as int;
    let mut labels: Vec<usize> = Vec::new();
    let mut i: usize = 0;
    while i < n
        invariant
            i <= n,
            labels@.len() == i,
            forall|j: int| 0 <= j < i ==> #[trigger] labels@[j] == 0,
        decreases n - i,
    {
        labels.push(0);
        i = i + 1;
    }
    proof {
        lemma_count_zero_bound(labels@);
    }
    let mut next: usize = 1;
    let ghost mut seeds: Seq<usize> = seq![0];
    let ghost mut ps: Seq<Seq<usize>> = Seq::new(n as nat, |j: int| Seq::<usize>::empty());
    loop
        invariant
            n == depth.cells@.len(),
            w == depth.width,
            w > 0,
            wi == w,
            n < usize::MAX,
            e == eps_ppm,
            range == depth_range(depth.cells@),
            labels@.len() == n,
            1 <= next,
            next - 1 + count_zero(labels@) <= n,
            forall|c: int| 0 <= c < n ==> #[trigger] labels@[c] < next,
            seeds.len() == next,
            forall|l: int| 1 <= l < next ==> (#[trigger] seeds[l]) < n && labels@[seeds[l] as int] == l,
            paths_ok(wi, depth.cells@, labels@, e, seeds, ps),
            regions_closed(wi, depth.cells@, labels@, e, seeds),
            !is_rand ==> seeds_first(labels@, seeds),
        ensures
            forall|c: int| 0 <= c < n ==> #[trigger] labels@[c] != 0,
        decreases count_zero(labels@),
    {
        let zeros = unlabeled_cells(&labels);
        if zeros.len() == 0 {
            break;
        }
        let pick = if is_rand { random_index(zeros.len()) } else { 0 };
        let seed = zeros[pick];
        let ghost lb = labels@;
        let ghost seeds2 = seeds.push(seed);
        proof {
            assert forall|c: int| 0 <= c < n && #[trigger] lb[c] != 0 implies {
                &&& lb[c] < seeds2.len()
                &&& region_path(wi, depth.cells@, lb, e, ps[c], seeds2[lb[c] as int] as int, c, lb[c])
            } by {
                assert(seeds2[lb[c] as int] == seeds[lb[c] as int]);
            }
        }
        let new_ps = flood_region(w, &depth.cells, &mut labels, seed, next, range, eps_ppm, Ghost(seeds2), Ghost(ps));
        proof {
            ps = new_ps@;
            assert(lb[seed as int] == 0 && labels@[seed as int] != 0);
            lemma_count_zero_shrinks(lb, labels@);
            assert(count_zero(labels@) < count_zero(lb));
            assert(forall|l: int| 1 <= l < next ==> seeds2[l] == seeds[l]);
            assert forall|a: int, b: int|
                0 <= a < n && 0 <= b < n && labels@[a] != 0 && #[trigger] adjacent(wi, a, b) && within(
                    depth.cells@,
                    e,
                    depth.cells@[b],
                    depth.cells@[seeds2[#[trigger] labels@[a] as int] as int],
                ) implies labels@[b] != 0 && labels@[b] <= labels@[a] by {
                if lb[a] != 0 {
                    assert(seeds2[lb[a] as int] == seeds[lb[a] as int]);
                    assert(lb[b] != 0 && lb[b] <= lb[a]);
                } else {
                    assert(labels@[a] == next);
                    assert(seeds2[next as int] == seed);
                }
            }
            if !is_rand {
                assert forall|l: int, i: int|
                    #![trigger labels@[i], seeds2[l]]
                    1 <= l < seeds2.len() && 0 <= i < seeds2[l] implies labels@[i] != 0 && labels@[i] < l by {
                    if l < next {
                        assert(seeds2[l] == seeds[l]);
                        assert(lb[i] != 0 && lb[i] < l);
                    } else {
                        assert(lb[i] != 0);
                    }
                }
            }
            seeds = seeds2;
        }
        next = next + 1;
    }
    proof {
        assert forall|c: int| 0 <= c < n && #[trigger] labels@[c] != 0 implies {
            &&& labels@[c] < seeds.len()
            &&& exists|p: Seq<usize>|
                region_path(wi, depth.cells@, labels@, e, p, seeds[labels@[c] as int] as int, c, labels@[c])
        } by {
            assert(region_path(wi, depth.cells@, labels@, e, ps[c], seeds[labels@[c] as int] as int, c, labels@[c]));
        }
        assert(regions_sound(wi, depth.cells@, labels@, e, seeds));
    }
    (labels, next - 1)
}

/// `|d - s| * PPM <= range * eps_ppm`, computed without overflow.
fn within_exec(d: u32, s: u32, range: u32, eps_ppm: u32) -> (r: bool)
    ensures
        r == (abs_diff(d, s) * PPM <= range * eps_ppm),
{
    let diff: u64 = if d >= s { (d - s) as u64 } else { (s - d) as u64 };
    assert(range as u64 * eps_ppm as u64 <= u32::MAX as u64 * u32::MAX as u64) by (nonlinear_arith);
    diff * 1_000_000 <= range as u64 * eps_ppm as u64
}

/// The direction (0 up, 1 down, 2 left, 3 right) in which the neighbour `b`
/// of `a` lies.
pub open spec fn dir_of(w: int, a: int, b: int) -> int {
    if b + w == a {
        0
    } else if a + w == b {
        1
    } else if b + 1 == a && a % w != 0 {
        2
    } else {
        3
    }
}

/// The 4-neighbour of `c` in direction `dir` (up, down, left, right), if it
/// lies inside the grid.
fn neighbor(w: usize, n: usize, c: usize, dir: usize) -> (r: Option<usize>)
    requires
        w > 0,
        c < n,
    ensures
        r matches Some(b) ==> b < n && adjacent(w as int, c as int, b as int),
        forall|b: int|
            0 <= b < n && adjacent(w as int, c as int, b) && dir_of(w as int, c as int, b) == dir ==> r
                == Some(b as usize),
{
    if dir == 0 {
        if c >= w { Some(c - w) } else { None }
    } else if dir == 1 {
        if w <= n && c < n - w { Some(c + w) } else { None }
    } else if dir == 2 {
        if c > 0 && c % w != 0 { Some(c - 1) } else { None }
    } else {
        if c + 1 < n && (c + 1) % w != 0 { Some(c + 1) } else { None }
    }
}

/// Relies on rand::thread_rng and Rng::gen_range: an index drawn below `len`
/// (gen_range panics on an empty range, hence `len > 0`).
#[verifier::external_body]
fn random_index(len: usize) -> (r: usize)
    requires
        len > 0,
    ensures
        r < len,
{
    rand::Rng::gen_range(&mut rand::thread_rng(), 0..len)
}

} // verus!
