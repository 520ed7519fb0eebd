use vstd::prelude::*;

use crate::color::cdist;
use crate::color::chan;
use crate::color::dist_sq;
use crate::color::white;
use crate::color::Color;
use crate::color::Rgba;
use crate::range_map::map_range;
use crate::range_map::map_range_exact;
use crate::range_map::mag;
use crate::range_map::trunc_div;
use crate::raster::Image;
use crate::raster::RenderedImage;

verus! {

/// The smallest centroid red channel among the first `n` centroids, starting
/// from a ceiling of 255; so 255 when there are no centroids.
pub open spec fn min_red_prefix(cs: Seq<Color>, n: nat) -> u8
    decreases n,
{
    if n == 0 {
        255u8
    } else {
        let m = min_red_prefix(cs, (n - 1) as nat);
        if cs[n - 1].r < m {
            cs[n - 1].r
        } else {
            m
        }
    }
}

/// The smallest centroid red channel, or 255 with no centroids.
pub open spec fn min_red(cs: Seq<Color>) -> u8 {
    min_red_prefix(cs, cs.len())
}

/// The largest centroid red channel among the first `n` centroids, starting
/// from a floor of 0; so 0 when there are no centroids.
pub open spec fn max_red_prefix(cs: Seq<Color>, n: nat) -> u8
    decreases n,
{
    if n == 0 {
        0u8
    } else {
        let m = max_red_prefix(cs, (n - 1) as nat);
        if cs[n - 1].r > m {
            cs[n - 1].r
        } else {
            m
        }
    }
}

/// The largest centroid red channel, or 0 with no centroids.
pub open spec fn max_red(cs: Seq<Color>) -> u8 {
    max_red_prefix(cs, cs.len())
}

/// With at least one centroid, the observed minimum red channel is no larger
/// than the observed maximum.
proof fn lemma_min_red_le_max_red(cs: Seq<Color>, n: nat)
    requires
        n >= 1,
    ensures
        min_red_prefix(cs, n) <= max_red_prefix(cs, n),
        min_red_prefix(cs, n) <= cs[n - 1].r,
        max_red_prefix(cs, n) >= cs[n - 1].r,
    decreases n,
{
    if n > 1 {
        lemma_min_red_le_max_red(cs, (n - 1) as nat);
    }
}

/// The silhouette color of one assigned pixel whose centroid has red channel
/// `gray`: the red channel rescaled linearly from the observed [mn, mx] red
/// range onto [0, 255] when it sits at one of the two extremes, and mid-gray
/// otherwise. A degenerate observed range (mn == mx) must not reach the
/// linear map's division, and also paints mid-gray.
pub open spec fn silhouette_pixel(gray: u8, mn: u8, mx: u8) -> Rgba {
    if (gray == mn || gray == mx) && mn != mx {
        let v = map_range_exact(gray as int, mn as int, mx as int, 0, 255) as u8;
        Rgba { r: v, g: v, b: v, a: 255 }
    } else {
        Rgba { r: 127, g: 127, b: 127, a: 255 }
    }
}

/// The index of the centroid nearest to `p` among the first `n` entries of
/// `cs`, following a fold that adopts a candidate only when its distance is
/// strictly smaller than the best so far: among exact ties the lowest index
/// wins. None exactly when `n` is zero.
pub open spec fn best_prefix(cs: Seq<Color>, p: Color, n: nat) -> Option<usize>
    decreases n,
{
    if n == 0 {
        None
    } else {
        match best_prefix(cs, p, (n - 1) as nat) {
            None => Some((n - 1) as usize),
            Some(j) => if dist_sq(cs[n - 1], p) < dist_sq(cs[j as int], p) {
                Some((n - 1) as usize)
            } else {
                Some(j)
            },
        }
    }
}

/// The cluster a pixel of color `p` is assigned to, given centroids `cs`.
pub open spec fn best(cs: Seq<Color>, p: Color) -> Option<usize> {
    best_prefix(cs, p, cs.len())
}

/// How many of the first `n` assignments name cluster `i`.
pub open spec fn count_prefix(a: Seq<Option<usize>>, i: int, n: nat) -> nat
    decreases n,
{
    if n == 0 {
        0
    } else {
        count_prefix(a, i, (n - 1) as nat) + if a[n - 1] matches Some(c) && c == i {
            1nat
        } else {
            0nat
        }
    }
}

/// How many assignments in `a` name cluster `i`.
pub open spec fn count_assigned(a: Seq<Option<usize>>, i: int) -> nat {
    count_prefix(a, i, a.len())
}

/// The sum of channel `ch` over the first `n` pixels assigned to cluster `i`.
pub open spec fn sum_prefix(px: Seq<Color>, a: Seq<Option<usize>>, i: int, ch: int, n: nat) -> int
    decreases n,
{
    if n == 0 {
        0
    } else {
        sum_prefix(px, a, i, ch, (n - 1) as nat) + if a[n - 1] matches Some(c) && c == i {
            chan(px[n - 1], ch)
        } else {
            0
        }
    }
}

/// The sum of channel `ch` over all pixels assigned to cluster `i`.
pub open spec fn sum_assigned(px: Seq<Color>, a: Seq<Option<usize>>, i: int, ch: int) -> int {
    sum_prefix(px, a, i, ch, a.len())
}

/// How many of the first `n` assignments differ between two passes.
pub open spec fn changed_prefix(before: Seq<Option<usize>>, after: Seq<Option<usize>>, n: nat) -> nat
    decreases n,
{
    if n == 0 {
        0
    } else {
        changed_prefix(before, after, (n - 1) as nat) + if before[n - 1] == after[n - 1] {
            0nat
        } else {
            1nat
        }
    }
}

/// How many assignments differ between two passes.
pub open spec fn changed_count(before: Seq<Option<usize>>, after: Seq<Option<usize>>) -> nat {
    changed_prefix(before, after, after.len())
}

/// The sum of channel `ch` over the first `n` pixels.
pub open spec fn total_prefix(px: Seq<Color>, ch: int, n: nat) -> int
    decreases n,
{
    if n == 0 {
        0
    } else {
        total_prefix(px, ch, (n - 1) as nat) + chan(px[n - 1], ch)
    }
}

/// The sum of channel `ch` over all pixels.
pub open spec fn total_sum(px: Seq<Color>, ch: int) -> int {
    total_prefix(px, ch, px.len())
}

/// The smoothed mean color of cluster `i`: per channel, the sum over the
/// pixels assigned to `i` divided by their count plus one, truncated. The
/// count is seeded at one, so the division is always defined and a cluster
/// with no pixels collapses to black.
pub open spec fn centroid_of(px: Seq<Color>, a: Seq<Option<usize>>, i: int) -> Color {
    Color {
        r: (sum_assigned(px, a, i, 0) / (count_assigned(a, i) + 1) as int) as u8,
        g: (sum_assigned(px, a, i, 1) / (count_assigned(a, i) + 1) as int) as u8,
        b: (sum_assigned(px, a, i, 2) / (count_assigned(a, i) + 1) as int) as u8,
    }
}

/// The k-means segmentation engine: the source image, the current centroid
/// color of each of the `n_clusters` clusters, and the per-pixel assignment
/// grid, stored row-major like the image's pixels.
pub struct KMeansSegmentation {
    pub n_clusters: usize,
    pub image: Image,
    pub mean_colors: Vec<Color>,
    pub cluster_assignment: Vec<Option<usize>>,
}

impl KMeansSegmentation {
    /// Well-formedness: one centroid per cluster, one assignment slot per
    /// pixel, and every present assignment names an existing cluster (so with
    /// zero clusters every assignment is absent).
    pub open spec fn wf(self) -> bool {
        &&& self.image.wf()
        &&& self.mean_colors@.len() == self.n_clusters
        &&& self.cluster_assignment@.len() == self.image.pixels@.len()
        &&& forall|j: int|
            0 <= j < self.cluster_assignment@.len() ==> ((#[trigger] self.cluster_assignment@[j])
                matches Some(c) ==> c < self.n_clusters)
    }

    /// A freshly constructed engine: every assignment absent, every centroid
    /// the white sentinel.
    pub open spec fn fresh(self) -> bool {
        &&& forall|j: int|
            0 <= j < self.cluster_assignment@.len() ==> (#[trigger] self.cluster_assignment@[j])
                is None
        &&& forall|i: int|
            0 <= i < self.mean_colors@.len() ==> #[trigger] self.mean_colors@[i] == white()
    }

    /// Every centroid is the smoothed mean of the pixels currently assigned
    /// to it; this holds after every pass.
    pub open spec fn post_pass(self) -> bool {
        forall|i: int|
            0 <= i < self.mean_colors@.len() ==> #[trigger] self.mean_colors@[i] == centroid_of(
                self.image.pixels@,
                self.cluster_assignment@,
                i,
            )
    }

    /// Every state the engine can reach: fresh, or the result of a pass.
    pub open spec fn consistent(self) -> bool {
        self.fresh() || self.post_pass()
    }

    /// How one pass transforms the engine: every pixel is reassigned to its
    /// nearest centroid measured against the centroids before the pass, and
    /// every centroid is then recomputed as the smoothed mean of the pixels
    /// just assigned to it.
    pub open spec fn iteration_rel(pre: Self, post: Self) -> bool {
        &&& post.n_clusters == pre.n_clusters
        &&& post.image == pre.image
        &&& post.mean_colors@.len() == pre.mean_colors@.len()
        &&& post.cluster_assignment@.len() == pre.cluster_assignment@.len()
        &&& forall|j: int|
            0 <= j < post.cluster_assignment@.len() ==> #[trigger] post.cluster_assignment@[j]
                == best(pre.mean_colors@, pre.image.pixels@[j])
        &&& forall|i: int|
            0 <= i < post.mean_colors@.len() ==> #[trigger] post.mean_colors@[i] == centroid_of(
                post.image.pixels@,
                post.cluster_assignment@,
                i,
            )
    }

    /// Builds an engine over `image` with `n_clusters` clusters: every
    /// centroid starts at the white sentinel and every assignment starts
    /// absent.
    pub fn new(image: Image, n_clusters: usize) -> (s: KMeansSegmentation)
        requires
            image.wf(),
        ensures
            s.wf(),
            s.fresh(),
            s.n_clusters == n_clusters,
            s.image == image,
    {
        let mut mean_colors: Vec<Color> = Vec::new();
        let mut i: usize = 0;
        while i < n_clusters
            invariant
                i <= n_clusters,
                mean_colors@.len() == i,
                forall|j: int| 0 <= j < i ==> #[trigger] mean_colors@[j] == white(),
            decreases n_clusters - i,
        {
            mean_colors.push(Color { r: 255, g: 255, b: 255 });
            i += 1;
        }
        let n = image.pixels.len();
        let mut cluster_assignment: Vec<Option<usize>> = Vec::new();
        let mut j: usize = 0;
        while j < n
            invariant
                j <= n,
                cluster_assignment@.len() == j,
                forall|l: int| 0 <= l < j ==> (#[trigger] cluster_assignment@[l]) is None,
            decreases n - j,
        {
            cluster_assignment.push(None);
            j += 1;
        }
        KMeansSegmentation { n_clusters, image, mean_colors, cluster_assignment }
    }
}

/// Structural equality of two optional cluster indices.
fn eq_opt(a: Option<usize>, b: Option<usize>) -> (r: bool)
    ensures
        r == (a == b),
{
    match (a, b) {
        (None, None) => true,
        (Some(x), Some(y)) => x == y,
        _ => false,
    }
}

/// The fold over a non-empty prefix always picks some index below the prefix
/// length.
proof fn lemma_best_prefix_bounds(cs: Seq<Color>, p: Color, n: nat)
    ensures
        n == 0 ==> best_prefix(cs, p, n) is None,
        n > 0 ==> (best_prefix(cs, p, n) matches Some(j) && j < n),
    decreases n,
{
    if n > 0 {
        lemma_best_prefix_bounds(cs, p, (n - 1) as nat);
    }
}

/// Counting over a prefix reads only that prefix.
proof fn lemma_count_prefix_agree(a1: Seq<Option<usize>>, a2: Seq<Option<usize>>, i: int, n: nat)
    requires
        forall|j: int| 0 <= j < n ==> a1[j] == a2[j],
    ensures
        count_prefix(a1, i, n) == count_prefix(a2, i, n),
    decreases n,
{
    if n > 0 {
        lemma_count_prefix_agree(a1, a2, i, (n - 1) as nat);
    }
}

/// Summing over a prefix reads only that prefix.
proof fn lemma_sum_prefix_agree(
    px: Seq<Color>,
    a1: Seq<Option<usize>>,
    a2: Seq<Option<usize>>,
    i: int,
    ch: int,
    n: nat,
)
    requires
        forall|j: int| 0 <= j < n ==> a1[j] == a2[j],
    ensures
        sum_prefix(px, a1, i, ch, n) == sum_prefix(px, a2, i, ch, n),
    decreases n,
{
    if n > 0 {
        lemma_sum_prefix_agree(px, a1, a2, i, ch, (n - 1) as nat);
    }
}

/// The change count over a prefix reads only that prefix.
proof fn lemma_changed_prefix_agree(
    before: Seq<Option<usize>>,
    a1: Seq<Option<usize>>,
    a2: Seq<Option<usize>>,
    n: nat,
)
    requires
        forall|j: int| 0 <= j < n ==> a1[j] == a2[j],
    ensures
        changed_prefix(before, a1, n) == changed_prefix(before, a2, n),
    decreases n,
{
    if n > 0 {
        lemma_changed_prefix_agree(before, a1, a2, (n - 1) as nat);
    }
}

/// No more pixels are assigned to a cluster than there are pixels.
proof fn lemma_count_prefix_le(a: Seq<Option<usize>>, i: int, n: nat)
    ensures
        count_prefix(a, i, n) <= n,
    decreases n,
{
    if n > 0 {
        lemma_count_prefix_le(a, i, (n - 1) as nat);
    }
}

/// A cluster's channel sum is bounded by 255 per assigned pixel.
proof fn lemma_sum_prefix_bounds(px: Seq<Color>, a: Seq<Option<usize>>, i: int, ch: int, n: nat)
    ensures
        0 <= sum_prefix(px, a, i, ch, n) <= 255 * count_prefix(a, i, n),
    decreases n,
{
    if n > 0 {
        lemma_sum_prefix_bounds(px, a, i, ch, (n - 1) as nat);
    }
}

/// A smoothed mean of 8-bit channel values fits in 8 bits.
proof fn lemma_smoothed_mean_le(s: int, c: int)
    requires
        0 <= s,
        s <= 255 * c,
        0 <= c,
    ensures
        0 <= s / (c + 1) <= 255,
{
    vstd::arithmetic::div_mod::lemma_div_pos_is_pos(s, c + 1);
    assert(s < 256 * (c + 1));
    vstd::arithmetic::div_mod::lemma_multiply_divide_lt(s, c + 1, 256);
}

impl KMeansSegmentation {
    /// One full clustering pass: reassigns every pixel to its nearest
    /// centroid (ties broken toward the lowest centroid index), then
    /// recomputes every centroid as the smoothed per-channel mean of the
    /// pixels just assigned to it, and returns how many pixels' assignments
    /// changed during the pass. A return of zero signals convergence.
    pub fn iteration(&mut self) -> (changed: usize)
        requires
            old(self).wf(),
        ensures
            final(self).wf(),
            Self::iteration_rel(*old(self), *final(self)),
            final(self).post_pass(),
            changed == changed_count(old(self).cluster_assignment@, final(self).cluster_assignment@),
    {
        let ghost cs0 = self.mean_colors@;
        let ghost a0 = self.cluster_assignment@;
        let ghost px = self.image.pixels@;

        let k = self.n_clusters;
        let n = self.image.pixels.len();

        let mut counts: Vec<u128> = Vec::new();
        let mut sums_r: Vec<u128> = Vec::new();
        let mut sums_g: Vec<u128> = Vec::new();
        let mut sums_b: Vec<u128> = Vec::new();
        let mut i: usize = 0;
        while i < k
            invariant
                i <= k,
                counts@.len() == i,
                sums_r@.len() == i,
                sums_g@.len() == i,
                sums_b@.len() == i,
                forall|j: int| 0 <= j < i ==> #[trigger] counts@[j] == 1,
                forall|j: int| 0 <= j < i ==> #[trigger] sums_r@[j] == 0,
                forall|j: int| 0 <= j < i ==> #[trigger] sums_g@[j] == 0,
                forall|j: int| 0 <= j < i ==> #[trigger] sums_b@[j] == 0,
            decreases k - i,
        {
            counts.push(1);
            sums_r.push(0);
            sums_g.push(0);
            sums_b.push(0);
            i += 1;
        }

        let mut changed: usize = 0;
        let mut idx: usize = 0;
        while idx < n
            invariant
                idx <= n,
                n == px.len(),
                k == cs0.len(),
                self.n_clusters == k,
                self.mean_colors@ == cs0,
                self.image == old(self).image,
                self.image.pixels@ == px,
                a0.len() == n,
                self.cluster_assignment@.len() == n,
                counts@.len() == k,
                sums_r@.len() == k,
                sums_g@.len() == k,
                sums_b@.len() == k,
                forall|j: int|
                    idx <= j < n ==> #[trigger] self.cluster_assignment@[j] == a0[j],
                forall|j: int|
                    0 <= j < idx ==> #[trigger] self.cluster_assignment@[j] == best(cs0, px[j]),
                forall|j: int|
                    0 <= j < idx ==> ((#[trigger] self.cluster_assignment@[j]) matches Some(c)
                        ==> c < k),
                forall|c: int|
                    0 <= c < k ==> (#[trigger] counts@[c]) as int == 1 + count_prefix(
                        self.cluster_assignment@,
                        c,
                        idx as nat,
                    ),
                forall|c: int|
                    0 <= c < k ==> (#[trigger] sums_r@[c]) as int == sum_prefix(
                        px,
                        self.cluster_assignment@,
                        c,
                        0,
                        idx as nat,
                    ),
                forall|c: int|
                    0 <= c < k ==> (#[trigger] sums_g@[c]) as int == sum_prefix(
                        px,
                        self.cluster_assignment@,
                        c,
                        1,
                        idx as nat,
                    ),
                forall|c: int|
                    0 <= c < k ==> (#[trigger] sums_b@[c]) as int == sum_prefix(
                        px,
                        self.cluster_assignment@,
                        c,
                        2,
                        idx as nat,
                    ),
                changed as int == changed_prefix(a0, self.cluster_assignment@, idx as nat),
                changed <= idx,
            decreases n - idx,
        {
            let p = self.image.pixels[idx];
            let mut best_io: Option<usize> = None;
            let mut best_d: u32 = 0;
            let mut ci: usize = 0;
            while ci < k
                invariant
                    ci <= k,
                    k == cs0.len(),
                    self.mean_colors@ == cs0,
                    self.mean_colors@.len() == k,
                    best_io == best_prefix(cs0, p, ci as nat),
                    best_io matches Some(j) ==> j < ci && best_d as int == dist_sq(
                        cs0[j as int],
                        p,
                    ),
                decreases k - ci,
            {
                let d = cdist(self.mean_colors[ci], p);
                let take = match best_io {
                    None => true,
                    Some(_) => d < best_d,
                };
                if take {
                    best_io = Some(ci);
                    best_d = d;
                }
                ci += 1;
            }
            let prev = self.cluster_assignment[idx];
            let ghost a_before = self.cluster_assignment@;
            self.cluster_assignment.set(idx, best_io);
            proof {
                lemma_best_prefix_bounds(cs0, px[idx as int], k as nat);
                assert forall|c: int| 0 <= c < k implies (#[trigger] counts@[c]) as int == 1
                    + count_prefix(self.cluster_assignment@, c, idx as nat) by {
                    lemma_count_prefix_agree(a_before, self.cluster_assignment@, c, idx as nat);
                }
                assert forall|c: int| 0 <= c < k implies (#[trigger] sums_r@[c]) as int
                    == sum_prefix(px, self.cluster_assignment@, c, 0, idx as nat) by {
                    lemma_sum_prefix_agree(px, a_before, self.cluster_assignment@, c, 0, idx as nat);
                }
                assert forall|c: int| 0 <= c < k implies (#[trigger] sums_g@[c]) as int
                    == sum_prefix(px, self.cluster_assignment@, c, 1, idx as nat) by {
                    lemma_sum_prefix_agree(px, a_before, self.cluster_assignment@, c, 1, idx as nat);
                }
                assert forall|c: int| 0 <= c < k implies (#[trigger] sums_b@[c]) as int
                    == sum_prefix(px, self.cluster_assignment@, c, 2, idx as nat) by {
                    lemma_sum_prefix_agree(px, a_before, self.cluster_assignment@, c, 2, idx as nat);
                }
                lemma_changed_prefix_agree(a0, a_before, self.cluster_assignment@, idx as nat);
            }

            if let Some(c) = best_io {
                let cnt = counts[c];
                let sr = sums_r[c];
                let sg = sums_g[c];
                let sb = sums_b[c];
                proof {
                    lemma_count_prefix_le(self.cluster_assignment@, c as int, idx as nat);
                    lemma_sum_prefix_bounds(px, self.cluster_assignment@, c as int, 0, idx as nat);
                    lemma_sum_prefix_bounds(px, self.cluster_assignment@, c as int, 1, idx as nat);
                    lemma_sum_prefix_bounds(px, self.cluster_assignment@, c as int, 2, idx as nat);
                    vstd::arithmetic::mul::lemma_mul_upper_bound(
                        255,
                        255,
                        count_prefix(self.cluster_assignment@, c as int, idx as nat) as int,
                        n as int,
                    );
                }
                counts.set(c, cnt + 1);
                sums_r.set(c, sr + p.r as u128);
                sums_g.set(c, sg + p.g as u128);
                sums_b.set(c, sb + p.b as u128);
            }
            let same = eq_opt(prev, best_io);
            if !same {
                changed = changed + 1;
            }

            idx += 1;
        }

        let ghost afinal = self.cluster_assignment@;
        let mut ic: usize = 0;
        while ic < k
            invariant
                ic <= k,
                n == px.len(),
                k == cs0.len(),
                self.n_clusters == k,
                self.image == old(self).image,
                self.image.pixels@ == px,
                a0 == old(self).cluster_assignment@,
                a0.len() == n,
                self.cluster_assignment@ == afinal,
                afinal.len() == n,
                self.mean_colors@.len() == k,
                counts@.len() == k,
                sums_r@.len() == k,
                sums_g@.len() == k,
                sums_b@.len() == k,
                forall|j: int| 0 <= j < n ==> #[trigger] afinal[j] == best(cs0, px[j]),
                forall|j: int|
                    0 <= j < n ==> ((#[trigger] afinal[j]) matches Some(c) ==> c < k),
                forall|c: int|
                    0 <= c < k ==> (#[trigger] counts@[c]) as int == 1 + count_assigned(afinal, c),
                forall|c: int|
                    0 <= c < k ==> (#[trigger] sums_r@[c]) as int == sum_assigned(px, afinal, c, 0),
                forall|c: int|
                    0 <= c < k ==> (#[trigger] sums_g@[c]) as int == sum_assigned(px, afinal, c, 1),
                forall|c: int|
                    0 <= c < k ==> (#[trigger] sums_b@[c]) as int == sum_assigned(px, afinal, c, 2),
                changed as int == changed_prefix(a0, afinal, n as nat),
                forall|j: int|
                    0 <= j < ic ==> #[trigger] self.mean_colors@[j] == centroid_of(px, afinal, j),
            decreases k - ic,
        {
            let cnt = counts[ic];
            let sr = sums_r[ic];
            let sg = sums_g[ic];
            let sb = sums_b[ic];
            proof {
                lemma_count_prefix_le(afinal, ic as int, n as nat);
                lemma_sum_prefix_bounds(px, afinal, ic as int, 0, n as nat);
                lemma_sum_prefix_bounds(px, afinal, ic as int, 1, n as nat);
                lemma_sum_prefix_bounds(px, afinal, ic as int, 2, n as nat);
                lemma_smoothed_mean_le(sr as int, count_assigned(afinal, ic as int) as int);
                lemma_smoothed_mean_le(sg as int, count_assigned(afinal, ic as int) as int);
                lemma_smoothed_mean_le(sb as int, count_assigned(afinal, ic as int) as int);
            }
            let r8 = (sr / cnt) as u8;
            let g8 = (sg / cnt) as u8;
            let b8 = (sb / cnt) as u8;
            self.mean_colors.set(ic, Color { r: r8, g: g8, b: b8 });
            assert(self.mean_colors@[ic as int] == centroid_of(px, afinal, ic as int));
            ic += 1;
        }

        changed
    }

    /// The rendered color of the pixel at index `j`: its cluster's current
    /// mean color when assigned, pure black when not, always fully opaque.
    pub open spec fn color_pixel(self, j: int) -> Rgba {
        match self.cluster_assignment@[j] {
            Some(c) => Rgba {
                r: self.mean_colors@[c as int].r,
                g: self.mean_colors@[c as int].g,
                b: self.mean_colors@[c as int].b,
                a: 255,
            },
            None => Rgba { r: 0, g: 0, b: 0, a: 255 },
        }
    }

    /// The silhouette color of the pixel at index `j`: a pixel with an
    /// absent assignment always renders mid-gray; an assigned pixel renders
    /// its centroid's red channel put through the min/max-extreme test and
    /// rescale of `silhouette_pixel`.
    pub open spec fn silhouette_of(self, j: int, mn: u8, mx: u8) -> Rgba {
        match self.cluster_assignment@[j] {
            Some(c) => silhouette_pixel(self.mean_colors@[c as int].r, mn, mx),
            None => Rgba { r: 127, g: 127, b: 127, a: 255 },
        }
    }

    /// Renders the segmentation: an image of the same dimensions in which
    /// every assigned pixel takes its cluster's current mean color and every
    /// unassigned pixel is pure black, all fully opaque.
    pub fn overlay_color(&self) -> (out: RenderedImage)
        requires
            self.wf(),
        ensures
            out.width == self.image.width,
            out.height == self.image.height,
            out.wf(),
            out.pixels@.len() == self.image.pixels@.len(),
            forall|j: int|
                0 <= j < out.pixels@.len() ==> #[trigger] out.pixels@[j] == self.color_pixel(j),
    {
        let n = self.image.pixels.len();
        let mut pixels: Vec<Rgba> = Vec::new();
        let mut idx: usize = 0;
        while idx < n
            invariant
                idx <= n,
                self.wf(),
                n == self.image.pixels@.len(),
                pixels@.len() == idx,
                forall|j: int| 0 <= j < idx ==> #[trigger] pixels@[j] == self.color_pixel(j),
            decreases n - idx,
        {
            let pxl = match self.cluster_assignment[idx] {
                Some(c) => {
                    let mc = self.mean_colors[c];
                    Rgba { r: mc.r, g: mc.g, b: mc.b, a: 255 }
                },
                None => Rgba { r: 0, g: 0, b: 0, a: 255 },
            };
            pixels.push(pxl);
            idx += 1;
        }
        RenderedImage { width: self.image.width, height: self.image.height, pixels }
    }

    /// Renders the diagnostic silhouette. A pixel with an absent assignment
    /// always renders mid-gray. An assigned pixel whose centroid's red
    /// channel equals the minimum or maximum red channel observed across the
    /// centroids is painted with that value rescaled linearly onto [0, 255];
    /// every other assigned pixel is mid-gray. When the observed minimum and
    /// maximum coincide the linear map is undefined and those pixels are
    /// painted mid-gray instead.
    pub fn overlay(&self) -> (out: RenderedImage)
        requires
            self.wf(),
        ensures
            out.width == self.image.width,
            out.height == self.image.height,
            out.wf(),
            out.pixels@.len() == self.image.pixels@.len(),
            forall|j: int|
                0 <= j < out.pixels@.len() ==> #[trigger] out.pixels@[j] == self.silhouette_of(
                    j,
                    min_red(self.mean_colors@),
                    max_red(self.mean_colors@),
                ),
    {
        let ghost cs = self.mean_colors@;
        let k = self.n_clusters;
        let mut mn: u8 = 255;
        let mut mx: u8 = 0;
        let mut i: usize = 0;
        while i < k
            invariant
                i <= k,
                self.wf(),
                self.n_clusters == k,
                self.mean_colors@ == cs,
                mn == min_red_prefix(cs, i as nat),
                mx == max_red_prefix(cs, i as nat),
            decreases k - i,
        {
            let c = self.mean_colors[i];
            if c.r < mn {
                mn = c.r;
            }
            if c.r > mx {
                mx = c.r;
            }
            i += 1;
        }
        let n = self.image.pixels.len();
        let mut pixels: Vec<Rgba> = Vec::new();
        let mut idx: usize = 0;
        while idx < n
            invariant
                idx <= n,
                self.wf(),
                self.n_clusters == k,
                self.mean_colors@ == cs,
                mn == min_red(cs),
                mx == max_red(cs),
                n == self.image.pixels@.len(),
                pixels@.len() == idx,
                forall|j: int|
                    0 <= j < idx ==> #[trigger] pixels@[j] == self.silhouette_of(j, mn, mx),
            decreases n - idx,
        {
            let pxl = match self.cluster_assignment[idx] {
                None => Rgba { r: 127, g: 127, b: 127, a: 255 },
                Some(c) => {
                    let gray = self.mean_colors[c].r;
                    if (gray == mn || gray == mx) && mn != mx {
                        proof {
                            // an assignment exists, so at least one centroid
                            // exists and the observed range is ordered
                            lemma_min_red_le_max_red(cs, k as nat);
                            lemma_silhouette_map_in_range(gray, mn, mx);
                        }
                        match map_range(gray as i64, mn as i64, mx as i64, 0, 255) {
                            Ok(v) => {
                                let v8 = v as u8;
                                Rgba { r: v8, g: v8, b: v8, a: 255 }
                            },
                            Err(_) => {
                                proof {
                                    assert(false);
                                }
                                Rgba { r: 127, g: 127, b: 127, a: 255 }
                            },
                        }
                    } else {
                        Rgba { r: 127, g: 127, b: 127, a: 255 }
                    }
                },
            };
            pixels.push(pxl);
            idx += 1;
        }
        RenderedImage { width: self.image.width, height: self.image.height, pixels }
    }
}

/// A pass changes no assignments exactly when every assignment is kept.
proof fn lemma_changed_prefix_zero(before: Seq<Option<usize>>, after: Seq<Option<usize>>, n: nat)
    ensures
        changed_prefix(before, after, n) == 0 <==> (forall|j: int|
            0 <= j < n ==> before[j] == after[j]),
    decreases n,
{
    if n > 0 {
        lemma_changed_prefix_zero(before, after, (n - 1) as nat);
    }
}

/// The nearest-centroid fold returns a minimizer, and the earliest one:
/// every centroid before the chosen index is strictly farther away.
pub proof fn lemma_best_prefix_min(cs: Seq<Color>, p: Color, n: nat)
    requires
        n <= usize::MAX,
    ensures
        best_prefix(cs, p, n) matches Some(j) ==> ((forall|l: int|
            0 <= l < n ==> dist_sq(cs[j as int], p) <= dist_sq(#[trigger] cs[l], p)) && (forall|
            l: int,
        |
            0 <= l < j ==> dist_sq(cs[j as int], p) < dist_sq(#[trigger] cs[l], p))),
    decreases n,
{
    if n > 0 {
        lemma_best_prefix_min(cs, p, (n - 1) as nat);
        lemma_best_prefix_bounds(cs, p, (n - 1) as nat);
        match best_prefix(cs, p, (n - 1) as nat) {
            None => {
                assert(n == 1);
            },
            Some(jp) => {
                if dist_sq(cs[n - 1], p) < dist_sq(cs[jp as int], p) {
                    assert forall|l: int| 0 <= l < n implies dist_sq(cs[n - 1], p) <= dist_sq(
                        #[trigger] cs[l],
                        p,
                    ) by {
                        if l < n - 1 {
                            assert(dist_sq(cs[jp as int], p) <= dist_sq(cs[l], p));
                        }
                    }
                    assert forall|l: int| 0 <= l < n - 1 implies dist_sq(cs[n - 1], p) < dist_sq(
                        #[trigger] cs[l],
                        p,
                    ) by {
                        assert(dist_sq(cs[jp as int], p) <= dist_sq(cs[l], p));
                    }
                } else {
                    assert forall|l: int| 0 <= l < n implies dist_sq(cs[jp as int], p) <= dist_sq(
                        #[trigger] cs[l],
                        p,
                    ) by {
                        if l < n - 1 {
                            assert(dist_sq(cs[jp as int], p) <= dist_sq(cs[l], p));
                        }
                    }
                }
            },
        }
    }
}

/// Tie-break determinism: when two centroids are at exactly equal distance
/// from a pixel, the pixel is never assigned to the higher-index one.
pub proof fn lemma_tie_break(cs: Seq<Color>, p: Color, i: int, j: int)
    requires
        0 <= i < j < cs.len(),
        cs.len() <= usize::MAX,
        dist_sq(cs[i], p) == dist_sq(cs[j], p),
    ensures
        best(cs, p) matches Some(m) && m as int != j,
{
    lemma_best_prefix_bounds(cs, p, cs.len());
    lemma_best_prefix_min(cs, p, cs.len());
}

/// Assignment domain invariant: every present assignment names a cluster
/// index in [0, n_clusters), and with zero clusters every assignment is
/// absent.
pub proof fn lemma_assignment_domain(s: KMeansSegmentation)
    requires
        s.wf(),
    ensures
        forall|j: int|
            0 <= j < s.cluster_assignment@.len() ==> ((#[trigger] s.cluster_assignment@[j])
                matches Some(c) ==> 0 <= c < s.n_clusters),
        s.n_clusters == 0 ==> forall|j: int|
            0 <= j < s.cluster_assignment@.len() ==> (#[trigger] s.cluster_assignment@[j]) is None,
{
}

/// Centroid formula: each channel of a cluster's centroid is exactly the
/// channel sum over the pixels assigned to that cluster, divided by their
/// count plus one, truncated to an integer.
pub proof fn lemma_centroid_formula(px: Seq<Color>, a: Seq<Option<usize>>, i: int)
    ensures
        centroid_of(px, a, i).r as int == sum_assigned(px, a, i, 0) / (count_assigned(a, i)
            + 1) as int,
        centroid_of(px, a, i).g as int == sum_assigned(px, a, i, 1) / (count_assigned(a, i)
            + 1) as int,
        centroid_of(px, a, i).b as int == sum_assigned(px, a, i, 2) / (count_assigned(a, i)
            + 1) as int,
{
    lemma_sum_prefix_bounds(px, a, i, 0, a.len());
    lemma_sum_prefix_bounds(px, a, i, 1, a.len());
    lemma_sum_prefix_bounds(px, a, i, 2, a.len());
    lemma_smoothed_mean_le(sum_assigned(px, a, i, 0), count_assigned(a, i) as int);
    lemma_smoothed_mean_le(sum_assigned(px, a, i, 1), count_assigned(a, i) as int);
    lemma_smoothed_mean_le(sum_assigned(px, a, i, 2), count_assigned(a, i) as int);
}

/// Idempotence at convergence: as soon as a pass reports zero changed
/// assignments, the engine is at a fixed point — any further pass keeps the
/// assignment grid and the centroid list exactly as they are, and so also
/// reports zero changes.
pub proof fn lemma_convergence_idempotent(pre: KMeansSegmentation, post: KMeansSegmentation)
    requires
        pre.wf(),
        pre.consistent(),
        KMeansSegmentation::iteration_rel(pre, post),
        changed_count(pre.cluster_assignment@, post.cluster_assignment@) == 0,
    ensures
        forall|next: KMeansSegmentation|
            #[trigger] KMeansSegmentation::iteration_rel(post, next) ==> (changed_count(
                post.cluster_assignment@,
                next.cluster_assignment@,
            ) == 0 && next.cluster_assignment@ == post.cluster_assignment@ && next.mean_colors@
                == post.mean_colors@),
{
    let px = pre.image.pixels@;
    let n = pre.cluster_assignment@.len();
    let k = pre.mean_colors@.len();
    lemma_changed_prefix_zero(pre.cluster_assignment@, post.cluster_assignment@, n);
    if pre.post_pass() {
        assert(post.cluster_assignment@ =~= pre.cluster_assignment@);
        assert forall|i: int| 0 <= i < k implies #[trigger] post.mean_colors@[i]
            == pre.mean_colors@[i] by {
            assert(post.mean_colors@[i] == centroid_of(px, post.cluster_assignment@, i));
            assert(pre.mean_colors@[i] == centroid_of(px, pre.cluster_assignment@, i));
        }
        assert(post.mean_colors@ =~= pre.mean_colors@);
        assert forall|next: KMeansSegmentation|
            #[trigger] KMeansSegmentation::iteration_rel(post, next) implies (changed_count(
            post.cluster_assignment@,
            next.cluster_assignment@,
        ) == 0 && next.cluster_assignment@ == post.cluster_assignment@ && next.mean_colors@
            == post.mean_colors@) by {
            assert forall|j: int| 0 <= j < n implies #[trigger] next.cluster_assignment@[j]
                == post.cluster_assignment@[j] by {
                assert(next.cluster_assignment@[j] == best(post.mean_colors@, px[j]));
                assert(post.cluster_assignment@[j] == best(pre.mean_colors@, px[j]));
            }
            lemma_changed_prefix_zero(post.cluster_assignment@, next.cluster_assignment@, n);
            assert(next.cluster_assignment@ =~= post.cluster_assignment@);
            assert forall|i: int| 0 <= i < k implies #[trigger] next.mean_colors@[i]
                == post.mean_colors@[i] by {
                assert(next.mean_colors@[i] == centroid_of(px, next.cluster_assignment@, i));
            }
            assert(next.mean_colors@ =~= post.mean_colors@);
        }
    } else {
        assert(pre.fresh());
        if k > 0 && n > 0 {
            lemma_best_prefix_bounds(pre.mean_colors@, px[0], k);
            assert(post.cluster_assignment@[0] == best(pre.mean_colors@, px[0]));
            assert(pre.cluster_assignment@[0] is None);
            assert(false);
        }
        assert forall|next: KMeansSegmentation|
            #[trigger] KMeansSegmentation::iteration_rel(post, next) implies (changed_count(
            post.cluster_assignment@,
            next.cluster_assignment@,
        ) == 0 && next.cluster_assignment@ == post.cluster_assignment@ && next.mean_colors@
            == post.mean_colors@) by {
            assert forall|j: int| 0 <= j < n implies #[trigger] next.cluster_assignment@[j]
                == post.cluster_assignment@[j] by {
                assert(next.cluster_assignment@[j] == best(post.mean_colors@, px[j]));
                assert(post.cluster_assignment@[j] == best(pre.mean_colors@, px[j]));
                assert(k == 0);
                assert(best_prefix(post.mean_colors@, px[j], 0) is None);
                assert(best_prefix(pre.mean_colors@, px[j], 0) is None);
            }
            lemma_changed_prefix_zero(post.cluster_assignment@, next.cluster_assignment@, n);
            assert(next.cluster_assignment@ =~= post.cluster_assignment@);
            assert forall|i: int| 0 <= i < k implies #[trigger] next.mean_colors@[i]
                == post.mean_colors@[i] by {
                assert(next.mean_colors@[i] == centroid_of(px, next.cluster_assignment@, i));
            }
            assert(next.mean_colors@ =~= post.mean_colors@);
        }
    }
}

/// Over a prefix in which every assignment names cluster 0, the cluster's
/// count is the prefix length and its channel sums are the totals.
proof fn lemma_all_zero_prefix(px: Seq<Color>, a: Seq<Option<usize>>, ch: int, n: nat)
    requires
        forall|j: int| 0 <= j < n ==> a[j] == Some(0usize),
    ensures
        count_prefix(a, 0, n) == n,
        sum_prefix(px, a, 0, ch, n) == total_prefix(px, ch, n),
    decreases n,
{
    if n > 0 {
        lemma_all_zero_prefix(px, a, ch, (n - 1) as nat);
    }
}

/// With a single cluster, one pass assigns every pixel to it, its centroid
/// becomes the smoothed mean of all pixels — each channel's total divided by
/// the pixel count plus one, truncated — and a second pass changes nothing.
pub proof fn lemma_single_cluster_mean(pre: KMeansSegmentation, post: KMeansSegmentation)
    requires
        pre.wf(),
        pre.n_clusters == 1,
        KMeansSegmentation::iteration_rel(pre, post),
    ensures
        forall|j: int|
            0 <= j < post.cluster_assignment@.len() ==> #[trigger] post.cluster_assignment@[j]
                == Some(0usize),
        post.mean_colors@[0].r as int == total_sum(post.image.pixels@, 0) / (
        post.cluster_assignment@.len() + 1) as int,
        post.mean_colors@[0].g as int == total_sum(post.image.pixels@, 1) / (
        post.cluster_assignment@.len() + 1) as int,
        post.mean_colors@[0].b as int == total_sum(post.image.pixels@, 2) / (
        post.cluster_assignment@.len() + 1) as int,
        forall|next: KMeansSegmentation|
            #[trigger] KMeansSegmentation::iteration_rel(post, next) ==> changed_count(
                post.cluster_assignment@,
                next.cluster_assignment@,
            ) == 0,
{
    let px = pre.image.pixels@;
    let n = pre.cluster_assignment@.len();
    assert forall|j: int| 0 <= j < n implies #[trigger] post.cluster_assignment@[j]
        == Some(0usize) by {
        lemma_best_prefix_bounds(pre.mean_colors@, px[j], 1nat);
        assert(post.cluster_assignment@[j] == best(pre.mean_colors@, px[j]));
    }
    lemma_all_zero_prefix(px, post.cluster_assignment@, 0, n);
    lemma_all_zero_prefix(px, post.cluster_assignment@, 1, n);
    lemma_all_zero_prefix(px, post.cluster_assignment@, 2, n);
    lemma_centroid_formula(px, post.cluster_assignment@, 0);
    assert(post.mean_colors@[0] == centroid_of(px, post.cluster_assignment@, 0));
    assert forall|next: KMeansSegmentation|
        #[trigger] KMeansSegmentation::iteration_rel(post, next) implies changed_count(
        post.cluster_assignment@,
        next.cluster_assignment@,
    ) == 0 by {
        assert forall|j: int| 0 <= j < n implies #[trigger] next.cluster_assignment@[j]
            == post.cluster_assignment@[j] by {
            lemma_best_prefix_bounds(post.mean_colors@, px[j], 1nat);
            assert(next.cluster_assignment@[j] == best(post.mean_colors@, px[j]));
        }
        lemma_changed_prefix_zero(post.cluster_assignment@, next.cluster_assignment@, n);
    }
}

/// At the observed extremes the linear rescale onto [0, 255] is exact: the
/// minimum maps to 0 and the maximum maps to 255.
proof fn lemma_silhouette_map_in_range(gray: u8, mn: u8, mx: u8)
    requires
        mn < mx,
        gray == mn || gray == mx,
    ensures
        gray == mn ==> map_range_exact(gray as int, mn as int, mx as int, 0, 255) == 0,
        gray == mx ==> map_range_exact(gray as int, mn as int, mx as int, 0, 255) == 255,
{
    let den = mx - mn;
    if gray == mn {
        assert((gray - mn) * (255 - 0) == 0);
        assert(mag(0int) == 0);
        vstd::arithmetic::div_mod::lemma_div_basics_1(mag(den as int));
        assert(trunc_div(0, den as int) == 0);
    } else {
        let num = (gray - mn) * (255 - 0);
        assert(num == den * 255);
        vstd::arithmetic::mul::lemma_mul_nonnegative(den as int, 255);
        vstd::arithmetic::div_mod::lemma_div_multiples_vanish(255, den as int);
        assert(mag(num) == num && mag(den as int) == den);
        assert(trunc_div(num, den as int) == (den * 255) / (den as int));
        assert(trunc_div(num, den as int) == 255);
    }
}

} // verus!
