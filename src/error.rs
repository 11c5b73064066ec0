//! Errors reported by the engine.
use vstd::prelude::*;

verus! {

/// What kind of declaration a missing name refers to.
#[derive(PartialEq, Eq, Structural, Clone, Copy, Debug)]
pub enum Missing {
    Pipeline,
    View,
    Camera,
    Window,
    RenderGraph,
    Texture,
    Shader,
}

/// Failures of engine operations.
#[derive(Clone, Debug)]
pub enum PmfxError {
    /// Initialisation data does not match the size of the resource it fills.
    DataSize { expected: usize, actual: usize },
    /// A referenced name is absent from the data model.
    NotFound { kind: Missing, name: String },
    /// A multisample resolve was requested on a texture that has no resolve resource.
    ResolveIncompatible { texture: String },
    /// The render targets of one view do not share one sample count.
    SampleCountMismatch { view: String },
    /// The render targets of one view differ in size.
    SizeMismatch { view: String },
}

impl PmfxError {
    /// A readable description of the error.
    pub fn message(&self) -> (r: String)
        ensures
            self matches PmfxError::NotFound { name, .. } ==> r@ == "could not find: "@ + name@,
            self matches PmfxError::ResolveIncompatible { texture } ==> r@ == "texture is not resolvable: "@ + texture@,
            self matches PmfxError::SampleCountMismatch { view } ==> r@ == "render targets have different sample counts in view: "@ + view@,
            self matches PmfxError::SizeMismatch { view } ==> r@ == "render targets have different sizes in view: "@ + view@,
            self is DataSize ==> r@ == "data size does not match the expected size of the resource"@,
    {
        let mut r = String::new();
        match self {
            PmfxError::DataSize { .. } => {
                r.append("data size does not match the expected size of the resource");
            },
            PmfxError::NotFound { name, .. } => {
                r.append("could not find: ");
                r.append(name.as_str());
            },
            PmfxError::ResolveIncompatible { texture } => {
                r.append("texture is not resolvable: ");
                r.append(texture.as_str());
            },
            PmfxError::SizeMismatch { view } => {
                r.append("render targets have different sizes in view: ");
                r.append(view.as_str());
            },
            PmfxError::SampleCountMismatch { view } => {
                r.append("render targets have different sample counts in view: ");
                r.append(view.as_str());
            },
        }
        r
    }
}

} // verus!
