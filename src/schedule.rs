//! How the pixels of a pass are shared out between workers, and how the
//! sample count grows from pass to pass.
use vstd::prelude::*;
use vstd::arithmetic::div_mod::{
    lemma_fundamental_div_mod,
    lemma_fundamental_div_mod_converse,
    lemma_div_pos_is_pos,
};

verus! {

/// The `q`-th pixel index that `worker` of `workers` handles: interleaved
/// with stride `workers`, starting at the worker's own number.
pub open spec fn stride_index(worker: int, workers: int, q: int) -> int {
    worker + q * workers
}

/// The pixel indices below `total` that `worker` handles, in increasing order.
pub fn worker_pixels(worker: u32, workers: u32, total: u32) -> (r: Vec<u32>)
    requires
        worker < workers,
    ensures
        forall|q: int| 0 <= q < r@.len() ==> #[trigger] r@[q] == stride_index(
            worker as int,
            workers as int,
            q,
        ),
        forall|q: int| 0 <= q < r@.len() ==> #[trigger] r@[q] < total,
        stride_index(worker as int, workers as int, r@.len() as int) >= total,
{
    let mut r: Vec<u32> = Vec::new();
    let mut i: u32 = worker;
    while i < total
        invariant
            worker < workers,
            i as int == stride_index(worker as int, workers as int, r@.len() as int),
            forall|q: int| 0 <= q < r@.len() ==> #[trigger] r@[q] == stride_index(
                worker as int,
                workers as int,
                q,
            ),
            forall|q: int| 0 <= q < r@.len() ==> #[trigger] r@[q] < total,
        decreases u32::MAX - i,
    {
        r.push(i);
        proof {
            assert(stride_index(worker as int, workers as int, r@.len() as int) == i + workers)
                by (nonlinear_arith)
                requires
                    r@.len() >= 1,
                    i as int == worker + (r@.len() - 1) * workers,
            ;
        }
        if i > u32::MAX - workers {
            return r;
        }
        i = i + workers;
    }
    r
}

/// Every pixel index is handled by exactly one worker, the one numbered by
/// its remainder modulo the worker count, as its `index / workers`-th pixel.
pub proof fn lemma_workers_partition_pixels(workers: int, i: int)
    requires
        workers > 0,
        i >= 0,
    ensures
        0 <= i % workers < workers,
        i / workers >= 0,
        i == stride_index(i % workers, workers, i / workers),
        forall|w: int, q: int|
            0 <= w < workers && 0 <= q && i == #[trigger] stride_index(w, workers, q) ==> w == i
                % workers && q == i / workers,
{
    lemma_fundamental_div_mod(i, workers);
    lemma_div_pos_is_pos(i, workers);
    assert(workers * (i / workers) == (i / workers) * workers) by (nonlinear_arith);
    assert forall|w: int, q: int|
        0 <= w < workers && 0 <= q && i == #[trigger] stride_index(w, workers, q) implies w == i
        % workers && q == i / workers by {
        lemma_fundamental_div_mod_converse(i, workers, q, w);
    }
}

/// Relies on rand's `SliceRandom::shuffle` with the thread's generator: it
/// only swaps elements, so the same elements remain.
#[verifier::external_body]
fn shuffle_indices(v: &mut Vec<u32>)
    ensures
        final(v)@.to_multiset() == old(v)@.to_multiset(),
{
    rand::seq::SliceRandom::shuffle(v.as_mut_slice(), &mut rand::thread_rng())
}

/// The pixel indices below `total` that `worker` handles, in random order,
/// so that a partly rendered pass looks like noise rather than a scan.
pub fn worker_schedule(worker: u32, workers: u32, total: u32) -> (r: Vec<u32>)
    requires
        worker < workers,
    ensures
        exists|ordered: Seq<u32>|
            {
                &&& r@.to_multiset() == ordered.to_multiset()
                &&& forall|q: int| 0 <= q < ordered.len() ==> #[trigger] ordered[q] == stride_index(
                    worker as int,
                    workers as int,
                    q,
                )
                &&& forall|q: int| 0 <= q < ordered.len() ==> #[trigger] ordered[q] < total
                &&& stride_index(worker as int, workers as int, ordered.len() as int) >= total
            },
{
    let mut r = worker_pixels(worker, workers, total);
    let ghost ordered = r@;
    shuffle_indices(&mut r);
    assert(r@.to_multiset() == ordered.to_multiset());
    r
}

/// The column and row of pixel index `i` in an image `width` pixels wide.
pub fn pixel_coords(i: u32, width: u32) -> (r: (u32, u32))
    requires
        width > 0,
    ensures
        r.0 == i % width,
        r.1 == i / width,
        r.1 * width + r.0 == i,
{
    proof {
        lemma_fundamental_div_mod(i as int, width as int);
        assert((i / width) * width == width * (i / width)) by (nonlinear_arith);
    }
    (i % width, i / width)
}

/// The settings of a run: image size, samples per pixel of the current pass,
/// and the recursion budget of the radiance estimate.
#[derive(Clone, Copy, Debug, PartialEq, Eq, Structural)]
pub struct RTParams {
    pub width: u32,
    pub height: u32,
    pub samples_per_pixel: u32,
    pub max_depth: i32,
}

impl RTParams {
    pub fn new(width: u32, height: u32, samples_per_pixel: u32, max_depth: i32) -> (r: RTParams)
        ensures
            r == (RTParams { width, height, samples_per_pixel, max_depth }),
    {
        RTParams { width, height, samples_per_pixel, max_depth }
    }

    /// Number of pixels of the image, when it fits in a `u32`.
    pub fn pixel_count(&self) -> (r: Option<u32>)
        ensures
            r == if self.width * self.height <= u32::MAX {
                Some((self.width * self.height) as u32)
            } else {
                None::<u32>
            },
    {
        self.width.checked_mul(self.height)
    }

    /// Moves to the next pass, which takes twice as many samples per pixel.
    /// Returns false, and changes nothing, when the doubled count would not
    /// fit in a `u32`.
    pub fn next_pass(&mut self) -> (advanced: bool)
        ensures
            advanced == (2 * old(self).samples_per_pixel <= u32::MAX),
            advanced ==> *final(self) == (RTParams {
                samples_per_pixel: (2 * old(self).samples_per_pixel) as u32,
                ..*old(self)
            }),
            !advanced ==> *final(self) == *old(self),
    {
        if self.samples_per_pixel > u32::MAX / 2 {
            return false;
        }
        self.samples_per_pixel = self.samples_per_pixel * 2;
        true
    }
}

} // verus!
