use vstd::prelude::*;

use crate::error::MapError;

verus! {

/// The error a frame of `width` by `height` pixels gets, if any, checked in
/// this order: depth shape, mask shape, intrinsics, pose. `intrinsics_ok`
/// and `pose_ok` are the results of the real-valued checks of the
/// intrinsics and of the camera-to-world pose.
pub open spec fn frame_error(
    width: nat,
    height: nat,
    depth_len: nat,
    mask_len: Option<usize>,
    intrinsics_ok: bool,
    pose_ok: bool,
) -> Option<MapError> {
    if width * height > usize::MAX || width == 0 || height == 0 || depth_len != width * height {
        Some(MapError::DepthSizeMismatch)
    } else if mask_len matches Some(m) && m != width * height {
        Some(MapError::MaskSizeMismatch)
    } else if !intrinsics_ok {
        Some(MapError::InvalidIntrinsics)
    } else if !pose_ok {
        Some(MapError::InvalidPose)
    } else {
        None
    }
}

/// A frame passes only when its depth holds exactly one sample per pixel
/// and a mask, if present, one entry per pixel; any other depth length is a
/// depth-size error, whatever the rest of the frame.
pub proof fn lemma_frame_sizes_exact(
    width: nat,
    height: nat,
    depth_len: nat,
    mask_len: Option<usize>,
    intrinsics_ok: bool,
    pose_ok: bool,
)
    ensures
        frame_error(width, height, depth_len, mask_len, intrinsics_ok, pose_ok) is None ==> {
            &&& depth_len == width * height
            &&& 0 < width && 0 < height
            &&& (mask_len matches Some(m) ==> m == width * height)
            &&& intrinsics_ok && pose_ok
        },
        depth_len != width * height ==> frame_error(width, height, depth_len, mask_len, intrinsics_ok, pose_ok) == Some(
            MapError::DepthSizeMismatch,
        ),
        depth_len == width * height && 0 < width && 0 < height && width * height <= usize::MAX && (mask_len matches Some(
            m,
        ) && m != width * height) ==> frame_error(width, height, depth_len, mask_len, intrinsics_ok, pose_ok) == Some(
            MapError::MaskSizeMismatch,
        ),
{
}

/// The shape of a frame that passed validation. It can only be had from
/// `validate_frame`.
pub struct ValidFrame {
    width: usize,
    height: usize,
}

impl ValidFrame {
    /// Image width in pixels.
    pub closed spec fn spec_width(self) -> nat {
        self.width as nat
    }

    /// Image height in pixels.
    pub closed spec fn spec_height(self) -> nat {
        self.height as nat
    }

    /// Number of pixels.
    pub open spec fn pixel_count(self) -> nat {
        self.spec_width() * self.spec_height()
    }

    /// What every validated frame satisfies.
    pub closed spec fn wf(self) -> bool {
        &&& 0 < self.width
        &&& 0 < self.height
        &&& self.width * self.height <= usize::MAX
    }

    /// A validated frame is non-empty and its pixel count fits `usize`.
    pub proof fn lemma_wf(self)
        requires
            self.wf(),
        ensures
            0 < self.spec_width(),
            0 < self.spec_height(),
            0 < self.pixel_count() <= usize::MAX,
    {
        assert(0 < self.width * self.height) by (nonlinear_arith)
            requires
                0 < self.width,
                0 < self.height,
        ;
    }

    /// Image width in pixels.
    pub fn width(&self) -> (w: usize)
        ensures
            w == self.spec_width(),
    {
        self.width
    }

    /// Image height in pixels.
    pub fn height(&self) -> (h: usize)
        ensures
            h == self.spec_height(),
    {
        self.height
    }

    /// Number of pixels.
    pub fn pixels(&self) -> (n: usize)
        requires
            self.wf(),
        ensures
            n == self.pixel_count(),
    {
        self.width * self.height
    }

    /// Pixel-center coordinates `(u, v)` of the row-major sample `index`.
    pub fn pixel(&self, index: usize) -> (uv: (usize, usize))
        requires
            self.wf(),
            index < self.pixel_count(),
        ensures
            uv.0 == index as nat % self.spec_width(),
            uv.1 == index as nat / self.spec_width(),
            uv.0 < self.spec_width(),
            uv.1 < self.spec_height(),
            uv.1 * self.spec_width() + uv.0 == index,
    {
        let u = index % self.width;
        let v = index / self.width;
        proof {
            let w = self.width as int;
            let h = self.height as int;
            let i = index as int;
            vstd::arithmetic::div_mod::lemma_fundamental_div_mod(i, w);
            assert(i / w < h) by (nonlinear_arith)
                requires
                    0 <= i < w * h,
                    0 < w,
                    i == w * (i / w) + i % w,
                    0 <= i % w,
            ;
            assert((i / w) * w == w * (i / w)) by (nonlinear_arith);
        }
        (u, v)
    }
}

/// Validate a frame's shape and the outcome of its real-valued checks,
/// before any of it reaches the map.
pub fn validate_frame(
    width: usize,
    height: usize,
    depth_len: usize,
    mask_len: Option<usize>,
    intrinsics_ok: bool,
    pose_ok: bool,
) -> (r: Result<ValidFrame, MapError>)
    ensures
        match r {
            Ok(f) => {
                &&& frame_error(width as nat, height as nat, depth_len as nat, mask_len, intrinsics_ok, pose_ok) is None
                &&& f.wf()
                &&& f.spec_width() == width
                &&& f.spec_height() == height
            },
            Err(e) => frame_error(width as nat, height as nat, depth_len as nat, mask_len, intrinsics_ok, pose_ok)
                == Some(e),
        },
        r is Ok ==> depth_len == width * height && (mask_len matches Some(m) ==> m == width * height),
        depth_len != width * height ==> r matches Err(MapError::DepthSizeMismatch),
{
    let n = match width.checked_mul(height) {
        Some(n) => n,
        None => return Err(MapError::DepthSizeMismatch),
    };
    if width == 0 || height == 0 || depth_len != n {
        return Err(MapError::DepthSizeMismatch);
    }
    match mask_len {
        Some(m) => {
            if m != n {
                return Err(MapError::MaskSizeMismatch);
            }
        },
        None => {},
    }
    if !intrinsics_ok {
        return Err(MapError::InvalidIntrinsics);
    }
    if !pose_ok {
        return Err(MapError::InvalidPose);
    }
    proof {
        lemma_frame_sizes_exact(width as nat, height as nat, depth_len as nat, mask_len, intrinsics_ok, pose_ok);
    }
    Ok(ValidFrame { width, height })
}

} // verus!
