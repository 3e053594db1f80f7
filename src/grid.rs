//! Row-major two-dimensional grids and their extreme values.
use vstd::prelude::*;

verus! {

/// A row-major grid of `height * width` cells.
pub struct Grid<A> {
    pub height: usize,
    pub width: usize,
    pub cells: Vec<A>,
}

/// Depths in fixed-point units.
pub type DepthMap = Grid<u32>;

impl<A> Grid<A> {
    /// The cell vector holds exactly one value per grid position.
    pub open spec fn wf(&self) -> bool {
        self.cells@.len() == self.height * self.width
    }
}

/// Smallest value of a non-empty sequence.
pub open spec fn seq_min(s: Seq<u32>) -> u32
    decreases s.len(),
{
    if s.len() <= 1 {
        s[0]
    } else {
        let m = seq_min(s.drop_last());
        if s.last() < m { s.last() } else { m }
    }
}

/// Largest value of a non-empty sequence.
pub open spec fn seq_max(s: Seq<u32>) -> u32
    decreases s.len(),
{
    if s.len() <= 1 {
        s[0]
    } else {
        let m = seq_max(s.drop_last());
        if s.last() > m { s.last() } else { m }
    }
}

/// The minimum is a member and a lower bound; the maximum likewise.
pub proof fn lemma_min_max(s: Seq<u32>)
    requires
        s.len() > 0,
    ensures
        exists|i: int| 0 <= i < s.len() && s[i] == seq_min(s),
        exists|i: int| 0 <= i < s.len() && s[i] == seq_max(s),
        forall|i: int| 0 <= i < s.len() ==> seq_min(s) <= #[trigger] s[i] <= seq_max(s),
    decreases s.len(),
{
    if s.len() > 1 {
        lemma_min_max(s.drop_last());
        let t = s.drop_last();
        assert forall|i: int| 0 <= i < s.len() implies seq_min(s) <= #[trigger] s[i] <= seq_max(
            s,
        ) by {
            if i < s.len() - 1 {
                assert(s[i] == t[i]);
            }
        }
        let last = s.len() - 1;
        if s.last() >= seq_min(t) {
            let i = choose|i: int| 0 <= i < t.len() && t[i] == seq_min(t);
            assert(s[i] == t[i]);
        } else {
            assert(s[last] == seq_min(s));
        }
        if s.last() <= seq_max(t) {
            let i = choose|i: int| 0 <= i < t.len() && t[i] == seq_max(t);
            assert(s[i] == t[i]);
        } else {
            assert(s[last] == seq_max(s));
        }
    } else {
        assert(s[0] == seq_min(s));
        assert(s[0] == seq_max(s));
    }
}

/// The smallest and the largest value of a non-empty slice.
pub fn min_max(v: &Vec<u32>) -> (r: (u32, u32))
    requires
        v@.len() > 0,
    ensures
        r.0 == seq_min(v@),
        r.1 == seq_max(v@),
{
    let mut lo: u32 = v[0];
    let mut hi: u32 = v[0];
    let mut i: usize = 1;
    while i < v.len()
        invariant
            1 <= i <= v@.len(),
            lo == seq_min(v@.subrange(0, i as int)),
            hi == seq_max(v@.subrange(0, i as int)),
        decreases v@.len() - i,
    {
        assert(v@.subrange(0, i + 1).drop_last() =~= v@.subrange(0, i as int));
        if v[i] < lo {
            lo = v[i];
        }
        if v[i] > hi {
            hi = v[i];
        }
        i = i + 1;
    }
    assert(v@.subrange(0, v@.len() as int) =~= v@);
    (lo, hi)
}

} // verus!
