//! What the frame tree reads of a pipeline.

use vstd::prelude::*;

use crate::ids::{FrameId, PipelineId};

verus! {

/// A pipeline: a document loaded in a frame, with the frames of its
/// iframes.
#[derive(Debug)]
pub struct Pipeline {
    /// The pipeline id.
    pub id: PipelineId,
    /// The frames of the iframes in this pipeline's document.
    pub children: Vec<FrameId>,
}

} // verus!
