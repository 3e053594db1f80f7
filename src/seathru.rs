//! An RGB-D capture and the pipeline steps run on it: the neighbourhood map
//! and the backscatter samples.
use vstd::prelude::*;
use crate::background::{normalize_background, normalized, relabel};
use crate::backscatter::{RgbImage, Sample, select_samples, selection};
use crate::errors::Aqua3dError;
use crate::grid::{DepthMap, seq_min, seq_max};
use crate::segment::{region_path, region_paths_exist, regions_closed, regions_sound, seeds_first, segment_depth};

verus! {

/// Depth bins of the pipeline's backscatter pass.
pub const PIPELINE_BINS: usize = 10;

/// Darkest fraction taken per bin, in parts per million.
pub const PIPELINE_FRACTION_PPM: u32 = 50_000;

/// Sample budget of the pipeline's backscatter pass.
pub const PIPELINE_MAX_SAMPLES: u32 = 20;

/// Shallow cut-off of the pipeline's backscatter pass, in parts per million
/// of the depth range.
pub const PIPELINE_MIN_DEPTH_PPM: u32 = 300_000;

/// Neighbourhood epsilon of the pipeline, in parts per million of the depth
/// range.
pub const PIPELINE_EPS_PPM: u32 = 10;

/// A colour image with its registered depth map.
pub struct RgbdData {
    pub img: RgbImage,
    pub depth_map: DepthMap,
}

/// A neighbourhood map `map` with `count` regions besides the background:
/// it is a complete segmentation `raw` (ids `1..=count + 1`, maximal regions
/// grown from `seeds`) whose background region was turned into 0.
pub open spec fn neighborhood_map_of(
    depth: &DepthMap,
    eps_ppm: int,
    is_rand: bool,
    raw: Seq<usize>,
    seeds: Seq<usize>,
    map: Seq<usize>,
    count: int,
) -> bool {
    &&& raw.len() == depth.cells@.len()
    &&& forall|i: int| 0 <= i < raw.len() ==> 1 <= #[trigger] raw[i] <= count + 1
    &&& seeds.len() == count + 2
    &&& regions_sound(depth.width as int, depth.cells@, raw, eps_ppm, seeds)
    &&& regions_closed(depth.width as int, depth.cells@, raw, eps_ppm, seeds)
    &&& (!is_rand ==> seeds_first(raw, seeds))
    &&& map == normalized(depth.cells@, raw)
    &&& region_paths_exist(depth.width as int, depth.cells@, map, eps_ppm, seeds)
}

/// `map` is a neighbourhood map of `depth` with `count` regions besides the
/// background.
pub open spec fn is_neighborhood_map(depth: &DepthMap, eps_ppm: int, is_rand: bool, map: Seq<usize>, count: int) -> bool {
    exists|raw: Seq<usize>, seeds: Seq<usize>| #[trigger] neighborhood_map_of(depth, eps_ppm, is_rand, raw, seeds, map, count)
}

/// Turning one label into 0 keeps the paths of every other region.
proof fn lemma_paths_survive_relabel(
    w: int,
    depth: Seq<u32>,
    raw: Seq<usize>,
    eps_ppm: int,
    seeds: Seq<usize>,
    b: usize,
)
    requires
        region_paths_exist(w, depth, raw, eps_ppm, seeds),
    ensures
        region_paths_exist(w, depth, relabel(raw, b), eps_ppm, seeds),
{
    let m = relabel(raw, b);
    assert forall|c: int| 0 <= c < m.len() && #[trigger] m[c] != 0 implies {
        &&& m[c] < seeds.len()
        &&& exists|p: Seq<usize>| region_path(w, depth, m, eps_ppm, p, seeds[m[c] as int] as int, c, m[c])
    } by {
        assert(raw[c] != 0 && m[c] == raw[c]);
        let p = choose|p: Seq<usize>|
            region_path(w, depth, raw, eps_ppm, p, seeds[raw[c] as int] as int, c, raw[c]);
        assert forall|k: int| 0 <= k < p.len() implies m[(#[trigger] p[k]) as int] == raw[p[k] as int] by {
            assert(raw[p[k] as int] == raw[c]);
        }
        assert(region_path(w, depth, m, eps_ppm, p, seeds[m[c] as int] as int, c, m[c]));
    }
}

/// Grows regions over the depth map (see `segment_depth`), then turns
/// the background region into 0 (see `normalize_background`). Fails
/// with `EmptyNearZeroSet` on an empty map.
pub fn neighborhood_map(depth: &DepthMap, eps_ppm: u32, is_rand: bool) -> (r: Result<(Vec<usize>, usize), Aqua3dError>)
    requires
        depth.wf(),
        depth.cells@.len() < usize::MAX,
    ensures
        depth.cells@.len() == 0 ==> r == Err::<(Vec<usize>, usize), Aqua3dError>(
            Aqua3dError::EmptyNearZeroSet,
        ),
        depth.cells@.len() > 0 ==> r is Ok,
        r matches Ok(res) ==> is_neighborhood_map(depth, eps_ppm as int, is_rand, res.0@, res.1 as int),
{
    if depth.cells.len() == 0 {
        return Err(Aqua3dError::EmptyNearZeroSet);
    }
    let (raw, k) = segment_depth(depth, eps_ppm, is_rand);
    assert(1 <= raw@[0] <= k);
    let map = normalize_background(depth, &raw, k);
    let ghost seeds: Seq<usize>;
    proof {
        seeds = choose|seeds: Seq<usize>|
            {
                &&& seeds.len() == k + 1
                &&& regions_sound(depth.width as int, depth.cells@, raw@, eps_ppm as int, seeds)
                &&& regions_closed(depth.width as int, depth.cells@, raw@, eps_ppm as int, seeds)
                &&& (!is_rand ==> seeds_first(raw@, seeds))
            };
        lemma_paths_survive_relabel(
            depth.width as int,
            depth.cells@,
            raw@,
            eps_ppm as int,
            seeds,
            crate::background::background_label(depth.cells@, raw@),
        );
    }
    let count = k - 1;
    proof {
        assert(neighborhood_map_of(depth, eps_ppm as int, is_rand, raw@, seeds, map@, count as int));
        assert(is_neighborhood_map(depth, eps_ppm as int, is_rand, map@, count as int));
    }
    Ok((map, count))
}

pub trait Seathru {
    /// The image and the depth map each hold one value per cell.
    spec fn inputs_ok(&self) -> bool;

    /// Runs the backscatter pass and the neighbourhood map with the
    /// pipeline's settings.
    fn run_pipeline(&self, is_rand: bool) -> Result<(), Aqua3dError>
        requires
            self.inputs_ok(),
    ;

    /// The neighbourhood map of the depth map and its number of regions
    /// besides the background.
    fn construct_neighborhood_map(&self, eps_ppm: u32, is_rand: bool) -> Result<(Vec<usize>, usize), Aqua3dError>
        requires
            self.inputs_ok(),
    ;

    /// Backscatter samples, one sequence per colour channel.
    fn find_backscatter_estimation_points(
        &self,
        num_bins: usize,
        fraction_ppm: u32,
        max_vals: u32,
        min_depth_ppm: u32,
    ) -> Result<Vec<Vec<Sample>>, Aqua3dError>
        requires
            self.inputs_ok(),
    ;
}

impl Seathru for RgbdData {
    open spec fn inputs_ok(&self) -> bool {
        &&& self.depth_map.wf()
        &&& self.img.wf()
        &&& self.depth_map.cells@.len() < usize::MAX
    }

    fn run_pipeline(&self, is_rand: bool) -> (r: Result<(), Aqua3dError>)
        ensures
            (self.depth_map.height != self.img.height || self.depth_map.width != self.img.width) ==> r
                == Err::<(), Aqua3dError>(Aqua3dError::ShapeMismatch),
            (self.depth_map.height == self.img.height && self.depth_map.width == self.img.width && (
            self.depth_map.cells@.len() == 0 || seq_min(self.depth_map.cells@) == seq_max(
                self.depth_map.cells@,
            ))) ==> r == Err::<(), Aqua3dError>(Aqua3dError::DegenerateDepthRange),
            (self.depth_map.height == self.img.height && self.depth_map.width == self.img.width
                && self.depth_map.cells@.len() > 0 && seq_min(self.depth_map.cells@) != seq_max(
                self.depth_map.cells@,
            )) ==> r == Ok::<(), Aqua3dError>(()),
    {
        match self.find_backscatter_estimation_points(
            PIPELINE_BINS,
            PIPELINE_FRACTION_PPM,
            PIPELINE_MAX_SAMPLES,
            PIPELINE_MIN_DEPTH_PPM,
        ) {
            Err(e) => Err(e),
            Ok(_points) => match self.construct_neighborhood_map(PIPELINE_EPS_PPM, is_rand) {
                Err(e) => Err(e),
                Ok(_map) => Ok(()),
            },
        }
    }

    /// See `neighborhood_map`.
    fn construct_neighborhood_map(&self, eps_ppm: u32, is_rand: bool) -> (r: Result<(Vec<usize>, usize), Aqua3dError>)
        ensures
            self.depth_map.cells@.len() == 0 ==> r == Err::<(Vec<usize>, usize), Aqua3dError>(
                Aqua3dError::EmptyNearZeroSet,
            ),
            self.depth_map.cells@.len() > 0 ==> r is Ok,
            r matches Ok(res) ==> is_neighborhood_map(&self.depth_map, eps_ppm as int, is_rand, res.0@, res.1 as int),
    {
        neighborhood_map(&self.depth_map, eps_ppm, is_rand)
    }

    /// See `select_samples`.
    fn find_backscatter_estimation_points(
        &self,
        num_bins: usize,
        fraction_ppm: u32,
        max_vals: u32,
        min_depth_ppm: u32,
    ) -> (r: Result<Vec<Vec<Sample>>, Aqua3dError>)
        ensures
            selection(&self.depth_map, &self.img, num_bins, fraction_ppm, max_vals, min_depth_ppm, r),
    {
        select_samples(&self.depth_map, &self.img, num_bins, fraction_ppm, max_vals, min_depth_ppm)
    }
}

} // verus!
