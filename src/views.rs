//! Views built for graph nodes.
use vstd::prelude::*;
use crate::data::PmfxHash;

verus! {

/// A view built for one node of a render graph.
pub struct View {
    /// Name of the graph node, the key the view is stored under.
    pub graph_view_name: String,
    /// Name of the declared view it was built from.
    pub pmfx_view_name: String,
    pub render_targets: Vec<String>,
    pub depth_stencil: Option<String>,
    /// (width, height) of the targets, for viewport and scissor.
    pub size: (u64, u64),
    /// Index of the pass format in `Pmfx::formats`.
    pub format: usize,
    pub camera: String,
    /// The single pipeline used for all draws, when the node names exactly one.
    pub view_pipeline: String,
    /// Content hash of the declared view.
    pub hash: PmfxHash,
}

} // verus!
