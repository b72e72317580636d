use vstd::prelude::*;

verus! {

/// Input or configuration error. An invalid frame never changes the map.
#[derive(Clone, Copy, Debug, PartialEq, Eq, Structural)]
pub enum MapError {
    /// Grid dimensions, bounds, height band, or evidence values are invalid.
    InvalidConfiguration,
    /// Intrinsics contain invalid focal lengths or non-finite values.
    InvalidIntrinsics,
    /// Depth length does not equal width times height.
    DepthSizeMismatch,
    /// Validity-mask length does not equal width times height.
    MaskSizeMismatch,
    /// Camera pose is non-finite or not a rigid camera-to-world transform.
    InvalidPose,
}

impl MapError {
    /// The variant's name, which is how the error is displayed.
    pub fn as_str(&self) -> (s: &'static str)
        ensures
            s@ == match *self {
                MapError::InvalidConfiguration => "InvalidConfiguration"@,
                MapError::InvalidIntrinsics => "InvalidIntrinsics"@,
                MapError::DepthSizeMismatch => "DepthSizeMismatch"@,
                MapError::MaskSizeMismatch => "MaskSizeMismatch"@,
                MapError::InvalidPose => "InvalidPose"@,
            },
    {
        match self {
            MapError::InvalidConfiguration => "InvalidConfiguration",
            MapError::InvalidIntrinsics => "InvalidIntrinsics",
            MapError::DepthSizeMismatch => "DepthSizeMismatch",
            MapError::MaskSizeMismatch => "MaskSizeMismatch",
            MapError::InvalidPose => "InvalidPose",
        }
    }
}

} // verus!
