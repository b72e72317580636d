use vstd::prelude::*;

use crate::frame::ValidFrame;

verus! {

/// What one depth pixel contributes, as decided by its real-valued checks.
#[derive(Clone, Copy, Debug, PartialEq, Eq, Structural)]
pub enum Sample {
    /// Depth not finite, or outside the accepted depth range.
    Rejected,
    /// Depth accepted, but its world point is not finite or lies on the
    /// camera's own vertical axis, so it gives no ray.
    Unplaced,
    /// A return in azimuth sector `raw_bin` (before clamping to the last
    /// sector), at planar distance ordered by `key`, which is an obstacle
    /// `hit` when its height lies in the obstacle band.
    Return { raw_bin: usize, key: u32, hit: bool },
}

/// The returns of one sector that a ray uses, by sample index: the nearest
/// obstacle, if any, and the end of the observed free space, which is that
/// obstacle or else the farthest return.
#[derive(Clone, Copy, Debug, PartialEq, Eq, Structural)]
pub struct RayEndpoints {
    pub obstacle: Option<usize>,
    pub free_end: usize,
}

/// Whether sample `i` counts: its depth is accepted and the mask, if any, does not exclude it.
pub open spec fn accepted(samples: Seq<Sample>, mask: Option<Seq<u8>>, i: int) -> bool {
    &&& !(samples[i] is Rejected)
    &&& (mask matches Some(m) ==> m[i] != 0)
}

/// The sector of a raw sector number: the last sector takes all beyond it.
pub open spec fn clamp_bin(raw: usize, bins: usize) -> int {
    if raw < bins - 1 { raw as int } else { bins - 1 }
}

/// Whether sample `i` is a counted return of sector `b`.
pub open spec fn in_bin(samples: Seq<Sample>, mask: Option<Seq<u8>>, bins: usize, b: int, i: int) -> bool {
    &&& accepted(samples, mask, i)
    &&& samples[i] matches Sample::Return { raw_bin, .. }
    &&& clamp_bin(raw_bin, bins) == b
}

pub open spec fn key_of(s: Sample) -> u32 {
    match s {
        Sample::Return { key, .. } => key,
        _ => 0,
    }
}

pub open spec fn hit_of(s: Sample) -> bool {
    match s {
        Sample::Return { hit, .. } => hit,
        _ => false,
    }
}

/// Sample `i` comes before sample `j` when returns are ordered by distance,
/// equal distances keeping pixel order.
pub open spec fn nearer(samples: Seq<Sample>, i: int, j: int) -> bool {
    ||| key_of(samples[i]) < key_of(samples[j])
    ||| (key_of(samples[i]) == key_of(samples[j]) && i < j)
}

/// `j` is the first obstacle hit of sector `b` among the first `n` samples.
pub open spec fn nearest_hit(samples: Seq<Sample>, mask: Option<Seq<u8>>, bins: usize, b: int, n: int, j: int) -> bool {
    &&& 0 <= j < n
    &&& in_bin(samples, mask, bins, b, j)
    &&& hit_of(samples[j])
    &&& forall|k: int|
        0 <= k < n && #[trigger] in_bin(samples, mask, bins, b, k) && hit_of(samples[k]) && k != j
            ==> nearer(samples, j, k)
}

/// `j` is the last return of sector `b` among the first `n` samples.
pub open spec fn farthest(samples: Seq<Sample>, mask: Option<Seq<u8>>, bins: usize, b: int, n: int, j: int) -> bool {
    &&& 0 <= j < n
    &&& in_bin(samples, mask, bins, b, j)
    &&& forall|k: int| 0 <= k < n && #[trigger] in_bin(samples, mask, bins, b, k) && k != j ==> nearer(samples, k, j)
}

/// `r` is the ray of sector `b` over the first `n` samples: none for a
/// sector without returns; else its nearest obstacle, which also ends the
/// free space; else, with no obstacle, free space up to the farthest return.
pub open spec fn is_ray_of(
    r: Option<RayEndpoints>,
    samples: Seq<Sample>,
    mask: Option<Seq<u8>>,
    bins: usize,
    b: int,
    n: int,
) -> bool {
    match r {
        None => forall|i: int| 0 <= i < n ==> !#[trigger] in_bin(samples, mask, bins, b, i),
        Some(e) => match e.obstacle {
            Some(j) => nearest_hit(samples, mask, bins, b, n, j as int) && e.free_end == j,
            None => {
                &&& forall|i: int| 0 <= i < n && #[trigger] in_bin(samples, mask, bins, b, i) ==> !hit_of(samples[i])
                &&& farthest(samples, mask, bins, b, n, e.free_end as int)
            },
        },
    }
}

/// A mask entry excludes its sample exactly when it is zero: under any
/// nonzero entry the sample counts as it would with no mask, and with no
/// mask a sample counts exactly when its depth is not rejected.
pub proof fn lemma_mask_zero_excludes(samples: Seq<Sample>, m: Seq<u8>, i: int)
    ensures
        accepted(samples, None, i) == !(samples[i] is Rejected),
        m[i] != 0 ==> accepted(samples, Some(m), i) == accepted(samples, None, i),
        m[i] == 0 ==> !accepted(samples, Some(m), i),
{
}

/// A mask whose entries are all nonzero changes nothing: the same samples
/// count, and every sector holds the same returns, as with no mask.
pub proof fn lemma_nonzero_mask_is_no_mask(samples: Seq<Sample>, m: Seq<u8>, bins: usize, n: int)
    requires
        0 <= n,
        forall|i: int| 0 <= i < n ==> #[trigger] m[i] != 0,
    ensures
        count_accepted(samples, Some(m), n) == count_accepted(samples, None, n),
        forall|b: int, i: int|
            0 <= i < n ==> #[trigger] in_bin(samples, Some(m), bins, b, i) == in_bin(samples, None, bins, b, i),
    decreases n,
{
    if n > 0 {
        assert(m[n - 1] != 0);
        lemma_nonzero_mask_is_no_mask(samples, m, bins, n - 1);
    }
    assert forall|b: int, i: int| 0 <= i < n implies #[trigger] in_bin(samples, Some(m), bins, b, i) == in_bin(
        samples,
        None,
        bins,
        b,
        i,
    ) by {
        assert(m[i] != 0);
    }
}

/// Under a mask whose entries are all nonzero, a sector's ray is the one it
/// would have with no mask.
pub proof fn lemma_nonzero_mask_keeps_rays(
    r: Option<RayEndpoints>,
    samples: Seq<Sample>,
    m: Seq<u8>,
    bins: usize,
    b: int,
    n: int,
)
    requires
        0 <= n,
        forall|i: int| 0 <= i < n ==> #[trigger] m[i] != 0,
        is_ray_of(r, samples, Some(m), bins, b, n),
    ensures
        is_ray_of(r, samples, None, bins, b, n),
{
    lemma_nonzero_mask_is_no_mask(samples, m, bins, n);
    assert forall|i: int| 0 <= i < n implies #[trigger] in_bin(samples, None, bins, b, i) == in_bin(
        samples,
        Some(m),
        bins,
        b,
        i,
    ) by {
        assert(in_bin(samples, Some(m), bins, b, i) == in_bin(samples, None, bins, b, i));
    }
    match r {
        None => {},
        Some(e) => match e.obstacle {
            Some(j) => {
                assert(in_bin(samples, Some(m), bins, b, j as int));
            },
            None => {
                assert(in_bin(samples, Some(m), bins, b, e.free_end as int));
            },
        },
    }
}

/// Number of counted samples among the first `n`.
pub open spec fn count_accepted(samples: Seq<Sample>, mask: Option<Seq<u8>>, n: int) -> nat
    decreases n,
{
    if n <= 0 {
        0
    } else {
        count_accepted(samples, mask, n - 1) + if accepted(samples, mask, n - 1) { 1nat } else { 0nat }
    }
}

pub proof fn lemma_count_accepted_bounded(samples: Seq<Sample>, mask: Option<Seq<u8>>, n: int)
    requires
        0 <= n,
    ensures
        count_accepted(samples, mask, n) <= n,
    decreases n,
{
    if n > 0 {
        lemma_count_accepted_bounded(samples, mask, n - 1);
    }
}

/// Number of present entries among the first `n`.
pub open spec fn count_some<T>(s: Seq<Option<T>>, n: int) -> nat
    decreases n,
{
    if n <= 0 {
        0
    } else {
        count_some(s, n - 1) + if s[n - 1] is Some { 1nat } else { 0nat }
    }
}

proof fn lemma_count_some_update<T>(s: Seq<Option<T>>, b: int, v: Option<T>, n: int)
    requires
        0 <= b < s.len(),
        0 <= n <= s.len(),
    ensures
        count_some(s.update(b, v), n) == count_some(s, n) + if b < n {
            (if v is Some { 1int } else { 0int }) - (if s[b] is Some { 1int } else { 0int })
        } else {
            0int
        },
    decreases n,
{
    if n > 0 {
        lemma_count_some_update(s, b, v, n - 1);
    }
}

/// Two sequences present at the same places count alike.
pub proof fn lemma_count_some_same_shape<T, U>(s: Seq<Option<T>>, t: Seq<Option<U>>, n: int)
    requires
        forall|k: int| 0 <= k < n ==> (#[trigger] s[k] is Some) == (t[k] is Some),
    ensures
        count_some(s, n) == count_some(t, n),
    decreases n,
{
    if n > 0 {
        lemma_count_some_same_shape(s, t, n - 1);
    }
}

/// When nothing among the first `n` is present, every one of them is absent.
pub proof fn lemma_count_some_zero<T>(s: Seq<Option<T>>, n: int)
    requires
        count_some(s, n) == 0,
    ensures
        forall|k: int| 0 <= k < n ==> #[trigger] s[k] is None,
    decreases n,
{
    if n > 0 {
        lemma_count_some_zero(s, n - 1);
    }
}

proof fn lemma_count_some_all_none<T>(s: Seq<Option<T>>, n: int)
    requires
        forall|k: int| 0 <= k < n ==> #[trigger] s[k] is None,
    ensures
        count_some(s, n) == 0,
    decreases n,
{
    if n > 0 {
        lemma_count_some_all_none(s, n - 1);
    }
}

/// At most `n` of the first `n` entries are present.
pub proof fn lemma_count_some_bounded<T>(s: Seq<Option<T>>, n: int)
    requires
        0 <= n,
    ensures
        count_some(s, n) <= n,
    decreases n,
{
    if n > 0 {
        lemma_count_some_bounded(s, n - 1);
    }
}

pub open spec fn mask_view(mask: Option<&[u8]>) -> Option<Seq<u8>> {
    match mask {
        Some(m) => Some(m@),
        None => None,
    }
}

/// The rays of one frame, one entry per azimuth sector, and how many samples counted.
pub struct FramePlan {
    rays: Vec<Option<RayEndpoints>>,
    valid_samples: usize,
}

impl FramePlan {
    /// No more sectors have a ray than samples counted: each ray ends at a
    /// counted return of its own sector.
    pub open spec fn consistent(self) -> bool {
        count_some(self.spec_rays(), self.spec_rays().len() as int) <= self.spec_valid_samples()
    }

    pub closed spec fn spec_rays(self) -> Seq<Option<RayEndpoints>> {
        self.rays@
    }

    pub closed spec fn spec_valid_samples(self) -> nat {
        self.valid_samples as nat
    }

    /// One entry per azimuth sector.
    pub fn rays(&self) -> (r: &Vec<Option<RayEndpoints>>)
        ensures
            r@ == self.spec_rays(),
    {
        &self.rays
    }

    /// Accepted finite depth samples with a valid mask entry.
    pub fn valid_samples(&self) -> (n: usize)
        ensures
            n == self.spec_valid_samples(),
    {
        self.valid_samples
    }
}

/// Group the samples of a validated frame by azimuth sector and pick each
/// sector's ray: its nearest obstacle return and the end of its free space.
pub fn select_rays(frame: &ValidFrame, samples: &Vec<Sample>, mask: Option<&[u8]>, angular_bins: usize) -> (plan: FramePlan)
    requires
        samples@.len() == frame.pixel_count(),
        mask matches Some(m) ==> m@.len() == samples@.len(),
        0 < angular_bins,
    ensures
        plan.spec_valid_samples() == count_accepted(samples@, mask_view(mask), samples@.len() as int),
        plan.spec_valid_samples() <= samples@.len(),
        plan.spec_rays().len() == angular_bins,
        plan.consistent(),
        forall|b: int|
            0 <= b < angular_bins ==> is_ray_of(
                #[trigger] plan.spec_rays()[b],
                samples@,
                mask_view(mask),
                angular_bins,
                b,
                samples@.len() as int,
            ),
        mask matches Some(m) && (forall|i: int| 0 <= i < m@.len() ==> #[trigger] m@[i] != 0) ==> {
            &&& plan.spec_valid_samples() == count_accepted(samples@, None, samples@.len() as int)
            &&& forall|b: int|
                0 <= b < angular_bins ==> is_ray_of(
                    #[trigger] plan.spec_rays()[b],
                    samples@,
                    None,
                    angular_bins,
                    b,
                    samples@.len() as int,
                )
        },
{
    let ghost s = samples@;
    let ghost mv = mask_view(mask);
    let mut nearest: Vec<Option<usize>> = Vec::new();
    let mut far: Vec<Option<usize>> = Vec::new();
    let mut b: usize = 0;
    while b < angular_bins
        invariant
            b <= angular_bins,
            nearest@.len() == b,
            far@.len() == b,
            forall|c: int| 0 <= c < b ==> #[trigger] nearest@[c] is None,
            forall|c: int| 0 <= c < b ==> #[trigger] far@[c] is None,
        decreases angular_bins - b,
    {
        nearest.push(None);
        far.push(None);
        b = b + 1;
    }
    proof {
        lemma_count_some_all_none(far@, angular_bins as int);
    }
    let n = samples.len();
    let mut valid: usize = 0;
    let mut i: usize = 0;
    while i < n
        invariant
            n == s.len(),
            s == samples@,
            mv == mask_view(mask),
            mask matches Some(m) ==> m@.len() == n,
            0 < angular_bins,
            i <= n,
            nearest@.len() == angular_bins,
            far@.len() == angular_bins,
            valid == count_accepted(s, mv, i as int),
            valid <= i,
            count_some(far@, angular_bins as int) <= valid,
            forall|c: int|
                0 <= c < angular_bins ==> match #[trigger] nearest@[c] {
                    None => forall|k: int| 0 <= k < i && #[trigger] in_bin(s, mv, angular_bins, c, k) ==> !hit_of(s[k]),
                    Some(j) => nearest_hit(s, mv, angular_bins, c, i as int, j as int),
                },
            forall|c: int|
                0 <= c < angular_bins ==> match #[trigger] far@[c] {
                    None => forall|k: int| 0 <= k < i ==> !#[trigger] in_bin(s, mv, angular_bins, c, k),
                    Some(j) => farthest(s, mv, angular_bins, c, i as int, j as int),
                },
        decreases n - i,
    {
        let masked = match mask {
            Some(m) => m[i] == 0,
            None => false,
        };
        let sample = samples[i];
        let counted = !masked && !matches!(sample, Sample::Rejected);
        if counted {
            valid = valid + 1;
        }
        proof {
            assert(counted == accepted(s, mv, i as int));
        }
        match sample {
            Sample::Return { raw_bin, key, hit } if counted => {
                let bin = if raw_bin < angular_bins - 1 { raw_bin } else { angular_bins - 1 };
                proof {
                    assert(in_bin(s, mv, angular_bins, bin as int, i as int));
                }
                if hit {
                    let replace = match nearest[bin] {
                        None => true,
                        Some(j) => key < key_of_sample(&samples[j]),
                    };
                    if replace {
                        nearest.set(bin, Some(i));
                    }
                }
                let replace_far = match far[bin] {
                    None => true,
                    Some(j) => key >= key_of_sample(&samples[j]),
                };
                if replace_far {
                    let ghost before = far@;
                    far.set(bin, Some(i));
                    proof {
                        lemma_count_some_update(before, bin as int, Some(i), angular_bins as int);
                    }
                }
            },
            _ => {},
        }
        i = i + 1;
    }
    let mut rays: Vec<Option<RayEndpoints>> = Vec::new();
    let mut b: usize = 0;
    while b < angular_bins
        invariant
            n == s.len(),
            b <= angular_bins,
            nearest@.len() == angular_bins,
            far@.len() == angular_bins,
            rays@.len() == b,
            forall|c: int|
                0 <= c < angular_bins ==> match #[trigger] nearest@[c] {
                    None => forall|k: int| 0 <= k < n && #[trigger] in_bin(s, mv, angular_bins, c, k) ==> !hit_of(s[k]),
                    Some(j) => nearest_hit(s, mv, angular_bins, c, n as int, j as int),
                },
            forall|c: int|
                0 <= c < angular_bins ==> match #[trigger] far@[c] {
                    None => forall|k: int| 0 <= k < n ==> !#[trigger] in_bin(s, mv, angular_bins, c, k),
                    Some(j) => farthest(s, mv, angular_bins, c, n as int, j as int),
                },
            forall|c: int| 0 <= c < b ==> is_ray_of(#[trigger] rays@[c], s, mv, angular_bins, c, n as int),
            forall|c: int| 0 <= c < b ==> (#[trigger] rays@[c] is Some) == (far@[c] is Some),
            count_some(far@, angular_bins as int) <= valid,
        decreases angular_bins - b,
    {
        let ray = match far[b] {
            None => None,
            Some(f) => {
                let end = match nearest[b] {
                    Some(j) => j,
                    None => f,
                };
                Some(RayEndpoints { obstacle: nearest[b], free_end: end })
            },
        };
        proof {
            if far@[b as int] is None {
                assert forall|k: int| 0 <= k < n implies !#[trigger] in_bin(s, mv, angular_bins, b as int, k) by {}
            }
        }
        rays.push(ray);
        b = b + 1;
    }
    proof {
        lemma_count_accepted_bounded(s, mv, n as int);
        lemma_count_some_same_shape(rays@, far@, angular_bins as int);
        if let Some(m) = mask {
            if forall|i: int| 0 <= i < m@.len() ==> #[trigger] m@[i] != 0 {
                lemma_nonzero_mask_is_no_mask(s, m@, angular_bins, n as int);
                assert forall|b: int| 0 <= b < angular_bins implies is_ray_of(
                    #[trigger] rays@[b],
                    s,
                    None,
                    angular_bins,
                    b,
                    n as int,
                ) by {
                    lemma_nonzero_mask_keeps_rays(rays@[b], s, m@, angular_bins, b, n as int);
                }
            }
        }
    }
    FramePlan { rays, valid_samples: valid }
}

/// The distance key of a sample; zero where it is no return.
fn key_of_sample(s: &Sample) -> (k: u32)
    ensures
        k == key_of(*s),
{
    match s {
        Sample::Return { key, .. } => *key,
        _ => 0,
    }
}

/// A sector's ray is unique: two rays that both fit the same samples are equal.
pub proof fn lemma_ray_unique(
    r1: Option<RayEndpoints>,
    r2: Option<RayEndpoints>,
    samples: Seq<Sample>,
    mask: Option<Seq<u8>>,
    bins: usize,
    b: int,
    n: int,
)
    requires
        is_ray_of(r1, samples, mask, bins, b, n),
        is_ray_of(r2, samples, mask, bins, b, n),
    ensures
        r1 == r2,
{
    match (r1, r2) {
        (Some(e1), Some(e2)) => {
            match (e1.obstacle, e2.obstacle) {
                (Some(j1), Some(j2)) => {
                    if j1 != j2 {
                        assert(in_bin(samples, mask, bins, b, j2 as int));
                        assert(in_bin(samples, mask, bins, b, j1 as int));
                    }
                },
                (Some(j1), None) => {
                    assert(in_bin(samples, mask, bins, b, j1 as int));
                },
                (None, Some(j2)) => {
                    assert(in_bin(samples, mask, bins, b, j2 as int));
                },
                (None, None) => {
                    if e1.free_end != e2.free_end {
                        assert(in_bin(samples, mask, bins, b, e1.free_end as int));
                        assert(in_bin(samples, mask, bins, b, e2.free_end as int));
                    }
                },
            }
        },
        (Some(e1), None) => {
            match e1.obstacle {
                Some(j) => assert(in_bin(samples, mask, bins, b, j as int)),
                None => assert(in_bin(samples, mask, bins, b, e1.free_end as int)),
            }
        },
        (None, Some(e2)) => {
            match e2.obstacle {
                Some(j) => assert(in_bin(samples, mask, bins, b, j as int)),
                None => assert(in_bin(samples, mask, bins, b, e2.free_end as int)),
            }
        },
        (None, None) => {},
    }
}

proof fn lemma_count_accepted_one_more(s: Seq<Sample>, s2: Seq<Sample>, mask: Option<Seq<u8>>, i: int, k: int)
    requires
        0 <= i < s.len(),
        s2.len() == s.len(),
        0 <= k <= s.len(),
        forall|j: int| 0 <= j < s.len() && j != i ==> #[trigger] s2[j] == s[j],
        !accepted(s, mask, i),
        accepted(s2, mask, i),
    ensures
        count_accepted(s2, mask, k) == count_accepted(s, mask, k) + if i < k { 1int } else { 0int },
    decreases k,
{
    if k > 0 {
        lemma_count_accepted_one_more(s, s2, mask, i, k - 1);
        if k - 1 != i {
            assert(s2[k - 1] == s[k - 1]);
        }
    }
}

/// Occlusion: a return behind a sector's obstacle adds nothing but its count.
/// Where a pixel without a usable depth (`samples[i]` rejected) becomes a
/// counted return of a sector that already holds an obstacle hit nearer than
/// it, every sector keeps its ray, and only the counted samples grow by one.
/// `rays` and `rays2` are the rays of every sector for the two sample lists,
/// as `select_rays` gives them.
pub proof fn lemma_return_behind_obstacle_adds_nothing(
    samples: Seq<Sample>,
    samples2: Seq<Sample>,
    mask: Option<Seq<u8>>,
    bins: usize,
    i: int,
    j: int,
    rays: Seq<Option<RayEndpoints>>,
    rays2: Seq<Option<RayEndpoints>>,
)
    requires
        0 < bins,
        0 <= i < samples.len(),
        samples2.len() == samples.len(),
        mask matches Some(m) ==> m.len() == samples.len(),
        forall|k: int| 0 <= k < samples.len() && k != i ==> #[trigger] samples2[k] == samples[k],
        samples[i] is Rejected,
        accepted(samples2, mask, i),
        samples2[i] matches Sample::Return { raw_bin, .. } && in_bin(samples, mask, bins, clamp_bin(raw_bin, bins), j),
        0 <= j < samples.len(),
        hit_of(samples[j]),
        key_of(samples[j]) < key_of(samples2[i]),
        rays.len() == bins,
        rays2.len() == bins,
        forall|c: int| 0 <= c < bins ==> is_ray_of(#[trigger] rays[c], samples, mask, bins, c, samples.len() as int),
        forall|c: int| 0 <= c < bins ==> is_ray_of(#[trigger] rays2[c], samples2, mask, bins, c, samples.len() as int),
    ensures
        rays2 == rays,
        count_accepted(samples2, mask, samples.len() as int) == count_accepted(samples, mask, samples.len() as int) + 1,
{
    let n = samples.len() as int;
    let b = match samples2[i] {
        Sample::Return { raw_bin, .. } => clamp_bin(raw_bin, bins),
        _ => 0,
    };
    assert(!accepted(samples, mask, i));
    lemma_count_accepted_one_more(samples, samples2, mask, i, n);
    assert forall|c: int| 0 <= c < bins implies #[trigger] rays2[c] == rays[c] by {
        let r = rays[c];
        assert forall|k: int| 0 <= k < n && k != i implies #[trigger] in_bin(samples2, mask, bins, c, k) == in_bin(
            samples,
            mask,
            bins,
            c,
            k,
        ) by {
            assert(samples2[k] == samples[k]);
        }
        assert(!in_bin(samples, mask, bins, c, i));
        assert(is_ray_of(r, samples, mask, bins, c, n));
        if c != b {
            assert(!in_bin(samples2, mask, bins, c, i));
            match r {
                None => {
                    assert forall|k: int| 0 <= k < n implies !#[trigger] in_bin(samples2, mask, bins, c, k) by {
                        if k != i {
                            assert(!in_bin(samples, mask, bins, c, k));
                        }
                    }
                },
                Some(e) => {
                    match e.obstacle {
                        Some(o) => {
                            assert(samples2[o as int] == samples[o as int]);
                            assert forall|k: int|
                                0 <= k < n && #[trigger] in_bin(samples2, mask, bins, c, k) && hit_of(samples2[k]) && k
                                    != o implies nearer(samples2, o as int, k) by {
                                assert(in_bin(samples, mask, bins, c, k));
                                assert(samples2[k] == samples[k]);
                            }
                        },
                        None => {
                            let f = e.free_end as int;
                            assert(samples2[f] == samples[f]);
                            assert forall|k: int| 0 <= k < n && #[trigger] in_bin(samples2, mask, bins, c, k) implies !hit_of(
                                samples2[k],
                            ) by {
                                assert(in_bin(samples, mask, bins, c, k));
                                assert(samples2[k] == samples[k]);
                            }
                            assert forall|k: int| 0 <= k < n && #[trigger] in_bin(samples2, mask, bins, c, k) && k != f implies nearer(
                                samples2,
                                k,
                                f,
                            ) by {
                                assert(in_bin(samples, mask, bins, c, k));
                                assert(samples2[k] == samples[k]);
                            }
                        },
                    }
                },
            }
        } else {
            assert(in_bin(samples, mask, bins, c, j));
            match r {
                None => {
                    assert(!in_bin(samples, mask, bins, c, j));
                },
                Some(e) => {
                    match e.obstacle {
                        None => {
                            assert(!hit_of(samples[j]));
                        },
                        Some(o) => {
                            let o = o as int;
                            assert(nearest_hit(samples, mask, bins, c, n, o));
                            assert(o != i);
                            assert(samples2[o] == samples[o]);
                            if o != j {
                                assert(nearer(samples, o, j));
                            }
                            assert(key_of(samples[o]) <= key_of(samples[j]));
                            assert forall|k: int|
                                0 <= k < n && #[trigger] in_bin(samples2, mask, bins, c, k) && hit_of(samples2[k]) && k
                                    != o implies nearer(samples2, o, k) by {
                                if k != i {
                                    assert(in_bin(samples, mask, bins, c, k));
                                    assert(samples2[k] == samples[k]);
                                    assert(nearer(samples, o, k));
                                }
                            }
                            assert(nearest_hit(samples2, mask, bins, c, n, o));
                        },
                    }
                },
            }
        }
        assert(is_ray_of(r, samples2, mask, bins, c, n));
        lemma_ray_unique(rays2[c], r, samples2, mask, bins, c, n);
    }
    assert(rays2 =~= rays);
}

/// What a sector's ray picks, by distance key: its obstacle is no farther
/// than any obstacle hit of the sector, and strictly nearer than any earlier
/// one; without an obstacle, its free space ends at a return no nearer than
/// any of the sector, and strictly farther than any later one.
pub proof fn lemma_ray_extremes(r: Option<RayEndpoints>, samples: Seq<Sample>, mask: Option<Seq<u8>>, bins: usize, b: int, n: int)
    requires
        is_ray_of(r, samples, mask, bins, b, n),
    ensures
        r is Some ==> in_bin(samples, mask, bins, b, r.unwrap().free_end as int),
        r is Some && r.unwrap().obstacle is Some ==> hit_of(samples[r.unwrap().free_end as int]),
        r is Some && r.unwrap().obstacle is Some ==> forall|k: int|
            0 <= k < n && #[trigger] in_bin(samples, mask, bins, b, k) && hit_of(samples[k]) ==> {
                &&& key_of(samples[r.unwrap().free_end as int]) <= key_of(samples[k])
                &&& (k < r.unwrap().free_end ==> key_of(samples[r.unwrap().free_end as int]) < key_of(samples[k]))
            },
        r is Some && r.unwrap().obstacle is None ==> forall|k: int|
            0 <= k < n && #[trigger] in_bin(samples, mask, bins, b, k) ==> {
                &&& !hit_of(samples[k])
                &&& key_of(samples[k]) <= key_of(samples[r.unwrap().free_end as int])
                &&& (r.unwrap().free_end < k ==> key_of(samples[k]) < key_of(samples[r.unwrap().free_end as int]))
            },
        r is None ==> forall|k: int| 0 <= k < n ==> !#[trigger] in_bin(samples, mask, bins, b, k),
{
}

} // verus!
