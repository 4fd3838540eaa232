use vstd::prelude::*;

verus! {

/// Why the animation subsystem refused to hand out a frame.
///
/// Every variant stands for a defect in content or configuration: none is
/// transient, and none is retried.
#[derive(Clone, Copy, Debug, PartialEq, Eq, Structural)]
pub enum GifError {
    /// The asset root is missing or cannot be read.
    AssetLoadError,
    /// No sequence is stored under the key that was asked for.
    UnknownSequence,
    /// The sequence exists, but has no frame at the index that was asked for.
    FrameIndexOutOfRange,
}

impl GifError {
    /// A short text for logs and panics.
    pub fn message(&self) -> (text: &'static str)
        ensures
            text@ == match *self {
                GifError::AssetLoadError => "asset root is missing or unreadable"@,
                GifError::UnknownSequence => "no sequence is stored under this key"@,
                GifError::FrameIndexOutOfRange => "frame index is out of range"@,
            },
    {
        match self {
            GifError::AssetLoadError => "asset root is missing or unreadable",
            GifError::UnknownSequence => "no sequence is stored under this key",
            GifError::FrameIndexOutOfRange => "frame index is out of range",
        }
    }
}

} // verus!
