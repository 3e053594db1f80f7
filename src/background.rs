//! Background normalisation: the region that holds most of the shallowest
//! cells is relabelled 0.
use vstd::prelude::*;
use crate::grid::{DepthMap, seq_min, min_max, lemma_min_max};

verus! {

/// A cell is near zero when its depth is below the minimum depth plus this
/// many fixed-point units.
pub const NEAR_ZERO_MARGIN: u32 = 1;

/// Cell `i` lies at (practically) the smallest depth of the map.
pub open spec fn near_zero(depth: Seq<u32>, i: int) -> bool {
    depth[i] < seq_min(depth) + NEAR_ZERO_MARGIN
}

/// How many of the first `k` cells are near zero and carry `l`.
pub open spec fn near_zero_count(depth: Seq<u32>, labels: Seq<usize>, k: int, l: usize) -> nat
    decreases k,
{
    if k <= 0 {
        0
    } else {
        near_zero_count(depth, labels, k - 1, l) + if near_zero(depth, k - 1) && labels[k - 1] == l {
            1nat
        } else {
            0nat
        }
    }
}

/// Near-zero cells that carry `l`.
pub open spec fn votes(depth: Seq<u32>, labels: Seq<usize>, l: usize) -> nat {
    near_zero_count(depth, labels, labels.len() as int, l)
}

/// `b` is the most frequent label among near-zero cells, the smallest such
/// label when several tie.
pub open spec fn is_background(depth: Seq<u32>, labels: Seq<usize>, b: usize) -> bool {
    forall|l: usize|
        #[trigger] votes(depth, labels, l) <= votes(depth, labels, b) && (votes(depth, labels, l)
            == votes(depth, labels, b) ==> b <= l)
}

pub open spec fn background_label(depth: Seq<u32>, labels: Seq<usize>) -> usize {
    choose|b: usize| is_background(depth, labels, b)
}

/// `labels` with every `b` turned into 0.
pub open spec fn relabel(labels: Seq<usize>, b: usize) -> Seq<usize> {
    labels.map_values(|l: usize| if l == b { 0 } else { l })
}

/// `labels` with its background region turned into 0.
pub open spec fn normalized(depth: Seq<u32>, labels: Seq<usize>) -> Seq<usize> {
    relabel(labels, background_label(depth, labels))
}

proof fn lemma_background_unique(depth: Seq<u32>, labels: Seq<usize>, b1: usize, b2: usize)
    requires
        is_background(depth, labels, b1),
        is_background(depth, labels, b2),
    ensures
        b1 == b2,
{
    assert(votes(depth, labels, b2) <= votes(depth, labels, b1));
    assert(votes(depth, labels, b1) <= votes(depth, labels, b2));
}

proof fn lemma_background_is(depth: Seq<u32>, labels: Seq<usize>, b: usize)
    requires
        is_background(depth, labels, b),
    ensures
        background_label(depth, labels) == b,
{
    lemma_background_unique(depth, labels, background_label(depth, labels), b);
}

proof fn lemma_count_absent(depth: Seq<u32>, labels: Seq<usize>, k: int, l: usize)
    requires
        0 <= k <= labels.len(),
        forall|i: int| 0 <= i < k ==> #[trigger] labels[i] != l,
    ensures
        near_zero_count(depth, labels, k, l) == 0,
    decreases k,
{
    if k > 0 {
        lemma_count_absent(depth, labels, k - 1, l);
    }
}

proof fn lemma_count_bound(depth: Seq<u32>, labels: Seq<usize>, k: int, l: usize)
    requires
        0 <= k,
    ensures
        near_zero_count(depth, labels, k, l) <= k,
    decreases k,
{
    if k > 0 {
        lemma_count_bound(depth, labels, k - 1, l);
    }
}

/// Some label among `0..=k` beats every other label in `0..=k`.
proof fn lemma_best_upto(depth: Seq<u32>, labels: Seq<usize>, k: usize) -> (b: usize)
    ensures
        b <= k,
        forall|l: usize|
            l <= k ==> #[trigger] votes(depth, labels, l) <= votes(depth, labels, b) && (votes(
                depth,
                labels,
                l,
            ) == votes(depth, labels, b) ==> b <= l),
    decreases k,
{
    if k == 0 {
        0
    } else {
        let b0 = lemma_best_upto(depth, labels, (k - 1) as usize);
        if votes(depth, labels, k) > votes(depth, labels, b0) {
            k
        } else {
            b0
        }
    }
}

/// A map whose labels are bounded has a background label.
proof fn lemma_background_exists(depth: Seq<u32>, labels: Seq<usize>, count: usize)
    requires
        forall|i: int| 0 <= i < labels.len() ==> #[trigger] labels[i] <= count,
    ensures
        is_background(depth, labels, background_label(depth, labels)),
{
    let b = lemma_best_upto(depth, labels, count);
    assert forall|l: usize|
        #[trigger] votes(depth, labels, l) <= votes(depth, labels, b) && (votes(depth, labels, l)
            == votes(depth, labels, b) ==> b <= l) by {
        if l > count {
            lemma_count_absent(depth, labels, labels.len() as int, l);
        }
    }
    assert(is_background(depth, labels, b));
}

/// Turns the background region of `labels` into 0: the label that the most
/// near-zero cells carry, the smallest one on a tie. Labels lie in
/// `0..=count`.
pub fn normalize_background(depth: &DepthMap, labels: &Vec<usize>, count: usize) -> (r: Vec<usize>)
    requires
        depth.wf(),
        labels@.len() == depth.cells@.len(),
        labels@.len() > 0,
        count < usize::MAX,
        forall|i: int| 0 <= i < labels@.len() ==> #[trigger] labels@[i] <= count,
    ensures
        r@ == normalized(depth.cells@, labels@),
{
    let n = labels.len();
    let ghost d = depth.cells@;
    let (lo, _hi) = min_max(&depth.cells);
    let mut counts: Vec<usize> = Vec::new();
    let mut l: usize = 0;
    while l <= count
        invariant
            l <= count + 1,
            count < usize::MAX,
            counts@.len() == l,
            forall|j: int| 0 <= j < l ==> #[trigger] counts@[j] == 0,
        decreases count + 1 - l,
    {
        counts.push(0);
        l = l + 1;
    }
    let mut i: usize = 0;
    while i < n
        invariant
            n == labels@.len(),
            n == d.len(),
            d == depth.cells@,
            lo == seq_min(d),
            i <= n,
            counts@.len() == count + 1,
            forall|j: int| 0 <= j < n ==> #[trigger] labels@[j] <= count,
            forall|x: usize| x <= count ==> #[trigger] counts@[x as int] == near_zero_count(d, labels@, i as int, x),
        decreases n - i,
    {
        proof {
            lemma_count_bound(d, labels@, i as int, labels@[i as int]);
        }
        if (depth.cells[i] as u64) < lo as u64 + NEAR_ZERO_MARGIN as u64 {
            let x = labels[i];
            let c = counts[x] + 1;
            counts.set(x, c);
        }
        i = i + 1;
    }
    let mut best: usize = 0;
    let mut l: usize = 1;
    while l <= count
        invariant
            1 <= l <= count + 1,
            count < usize::MAX,
            counts@.len() == count + 1,
            best < l,
            forall|x: usize| x <= count ==> #[trigger] counts@[x as int] == votes(d, labels@, x),
            forall|x: usize|
                x < l ==> #[trigger] votes(d, labels@, x) <= votes(d, labels@, best) && (votes(d, labels@, x)
                    == votes(d, labels@, best) ==> best <= x),
        decreases count + 1 - l,
    {
        if counts[l] > counts[best] {
            best = l;
        }
        l = l + 1;
    }
    proof {
        assert forall|x: usize|
            #[trigger] votes(d, labels@, x) <= votes(d, labels@, best) && (votes(d, labels@, x)
                == votes(d, labels@, best) ==> best <= x) by {
            if x > count {
                lemma_count_absent(d, labels@, n as int, x);
            }
        }
        lemma_background_is(d, labels@, best);
    }
    let mut r: Vec<usize> = Vec::new();
    let mut i: usize = 0;
    while i < n
        invariant
            n == labels@.len(),
            i <= n,
            r@ == relabel(labels@, best).subrange(0, i as int),
        decreases n - i,
    {
        let v = if labels[i] == best { 0 } else { labels[i] };
        r.push(v);
        proof {
            assert(relabel(labels@, best).subrange(0, i + 1) =~= relabel(labels@, best).subrange(0, i as int).push(v));
        }
        i = i + 1;
    }
    assert(relabel(labels@, best).subrange(0, n as int) =~= relabel(labels@, best));
    r
}

/// Votes after relabelling `b` (not 0) to 0: label 0 gains the votes of
/// `b`, `b` has none left, every other label keeps its own.
proof fn lemma_relabel_counts(depth: Seq<u32>, labels: Seq<usize>, b: usize, k: int, l: usize)
    requires
        0 <= k <= labels.len(),
        b != 0,
    ensures
        l == 0 ==> near_zero_count(depth, relabel(labels, b), k, l) == near_zero_count(depth, labels, k, 0)
            + near_zero_count(depth, labels, k, b),
        l == b ==> near_zero_count(depth, relabel(labels, b), k, l) == 0,
        l != 0 && l != b ==> near_zero_count(depth, relabel(labels, b), k, l) == near_zero_count(
            depth,
            labels,
            k,
            l,
        ),
    decreases k,
{
    if k > 0 {
        lemma_relabel_counts(depth, labels, b, k - 1, l);
        assert(relabel(labels, b)[k - 1] == if labels[k - 1] == b { 0 } else { labels[k - 1] });
    }
}

/// Normalising the background a second time changes nothing: after the
/// first pass label 0 holds the most near-zero cells, so it is the
/// background and relabelling it is the identity.
pub proof fn lemma_normalize_idempotent(depth: Seq<u32>, labels: Seq<usize>, count: usize)
    requires
        depth.len() == labels.len(),
        forall|i: int| 0 <= i < labels.len() ==> #[trigger] labels[i] <= count,
    ensures
        normalized(depth, normalized(depth, labels)) == normalized(depth, labels),
{
    lemma_background_exists(depth, labels, count);
    let b = background_label(depth, labels);
    let m = relabel(labels, b);
    if b != 0 {
        let n = labels.len() as int;
        assert forall|l: usize|
            #[trigger] votes(depth, m, l) <= votes(depth, m, 0) && (votes(depth, m, l) == votes(depth, m, 0)
                ==> 0 <= l) by {
            lemma_relabel_counts(depth, labels, b, n, l);
            lemma_relabel_counts(depth, labels, b, n, 0);
            assert(votes(depth, labels, l) <= votes(depth, labels, b));
        }
        assert(is_background(depth, m, 0));
        lemma_background_is(depth, m, 0);
    } else {
        assert(m =~= labels);
        lemma_background_is(depth, m, 0);
    }
    assert(relabel(m, 0) =~= m);
}

} // verus!
