//! The declarative pmfx data model: textures, views, render graphs and pipelines,
//! merged from one or more sources.
use vstd::prelude::*;
use crate::names::NameMap;

verus! {

/// Content hash of a loadable artifact, compared on reload to detect changes.
pub type PmfxHash = u64;

/// The usage mode a GPU resource must be in before it is used that way.
#[derive(PartialEq, Eq, Structural, Clone, Copy, Debug)]
pub enum ResourceState {
    RenderTarget,
    Present,
    UnorderedAccess,
    ShaderResource,
    VertexConstantBuffer,
    IndexBuffer,
    DepthStencil,
    DepthStencilReadOnly,
    ResolveSrc,
    ResolveDst,
    VideoDecodeWrite,
}

/// Ties a texture's size to a window: the window's size scaled by `scale_num / scale_den`.
#[derive(Clone, Debug)]
pub struct TextureSizeRatio {
    /// Window whose size the texture follows.
    pub window: String,
    pub scale_num: u32,
    pub scale_den: u32,
}

impl TextureSizeRatio {
    /// A copy of the ratio.
    pub fn duplicate(&self) -> (r: Self)
        ensures
            r == *self,
    {
        TextureSizeRatio { window: self.window.clone(), scale_num: self.scale_num, scale_den: self.scale_den }
    }
}

/// A texture as declared in a pmfx source.
#[derive(Clone, Debug)]
pub struct TextureInfo {
    /// When present, width and height follow this window instead of the fixed values.
    pub ratio: Option<TextureSizeRatio>,
    pub filepath: Option<String>,
    pub width: u64,
    pub height: u64,
    pub depth: u32,
    pub mip_levels: u32,
    pub array_levels: u32,
    pub samples: u32,
    /// Name of the pixel format.
    pub format: String,
    pub usage: Vec<ResourceState>,
    pub hash: PmfxHash,
}

/// A named view: the textures it renders into and the camera it renders with.
#[derive(Clone, Debug)]
pub struct ViewInfo {
    pub render_target: Vec<String>,
    pub depth_stencil: Vec<String>,
    pub camera: String,
    pub hash: PmfxHash,
}

/// A copy of `v`.
pub fn clone_names(v: &Vec<String>) -> (r: Vec<String>)
    ensures
        r@ == v@,
{
    let mut r: Vec<String> = Vec::new();
    let mut i: usize = 0;
    while i < v.len()
        invariant
            i <= v@.len(),
            r@ == v@.take(i as int),
        decreases v@.len() - i,
    {
        r.push(v[i].clone());
        assert(r@ =~= v@.take(i + 1));
        i += 1;
    }
    assert(v@.take(v@.len() as int) =~= v@);
    r
}

impl ViewInfo {
    /// The two declarations hold the same values.
    pub open spec fn same_as(&self, other: ViewInfo) -> bool {
        &&& self.render_target@ == other.render_target@
        &&& self.depth_stencil@ == other.depth_stencil@
        &&& self.camera@ == other.camera@
        &&& self.hash == other.hash
    }

    /// A copy of the view declaration.
    pub fn duplicate(&self) -> (r: Self)
        ensures
            r.same_as(*self),
    {
        ViewInfo {
            render_target: clone_names(&self.render_target),
            depth_stencil: clone_names(&self.depth_stencil),
            camera: self.camera.clone(),
            hash: self.hash,
        }
    }
}

/// One node of a render graph.
#[derive(Clone, Debug)]
pub struct GraphViewInfo {
    /// The view this node renders.
    pub view: String,
    /// Pipelines to build against the view's pass format.
    pub pipelines: Vec<String>,
    /// Name of the render function to invoke for this node.
    pub function: String,
    /// Nodes that must be scheduled before this one.
    pub depends_on: Vec<String>,
    /// Textures this node samples as shader resources.
    pub reads: Vec<String>,
}

impl GraphViewInfo {
    /// A copy of the node.
    pub fn clone_node(&self) -> (r: Self)
        ensures
            r.view@ == self.view@,
            r.pipelines@ == self.pipelines@,
            r.function@ == self.function@,
            r.depends_on@ == self.depends_on@,
            r.reads@ == self.reads@,
    {
        GraphViewInfo {
            view: self.view.clone(),
            pipelines: clone_names(&self.pipelines),
            function: self.function.clone(),
            depends_on: clone_names(&self.depends_on),
            reads: clone_names(&self.reads),
        }
    }
}

/// One permutation of a pipeline.
#[derive(Clone, Debug)]
pub struct Pipeline {
    pub vs: Option<String>,
    pub ps: Option<String>,
    pub cs: Option<String>,
    /// Named raster state; the device default when absent or not declared.
    pub raster_state: Option<String>,
    /// Named depth-stencil state; the device default when absent or not declared.
    pub depth_stencil_state: Option<String>,
    /// Primitive topology; triangle list when absent.
    pub topology: Option<String>,
    pub hash: PmfxHash,
}

/// A render graph: node name to node.
pub type RenderGraph = NameMap<GraphViewInfo>;

/// A pipeline's permutations: bit mask to permutation.
pub type PipelinePermutations = Vec<(u32, Pipeline)>;

/// The merged declarative document.
pub struct PmfxFile {
    pub shaders: NameMap<PmfxHash>,
    /// Names of the declared raster states.
    pub raster_states: NameMap<()>,
    /// Names of the declared depth-stencil states.
    pub depth_stencil_states: NameMap<()>,
    pub pipelines: NameMap<PipelinePermutations>,
    pub textures: NameMap<TextureInfo>,
    pub views: NameMap<ViewInfo>,
    pub render_graphs: NameMap<RenderGraph>,
    pub dependencies: Vec<String>,
}

impl PmfxFile {
    pub open spec fn wf(&self) -> bool {
        &&& self.shaders.wf()
        &&& self.raster_states.wf()
        &&& self.depth_stencil_states.wf()
        &&& self.pipelines.wf()
        &&& self.textures.wf()
        &&& self.views.wf()
        &&& self.render_graphs.wf()
        &&& forall|k: Seq<char>| #[trigger] self.render_graphs@.contains_key(k) ==> self.render_graphs@[k].wf()
        &&& forall|k: Seq<char>| #[trigger] self.textures@.contains_key(k) ==> (
            self.textures@[k].ratio matches Some(r) ==> r.scale_den > 0)
    }

    /// An empty document.
    pub fn new() -> (r: Self)
        ensures
            r.wf(),
            r.shaders@.is_empty(),
            r.pipelines@.is_empty(),
            r.textures@.is_empty(),
            r.views@.is_empty(),
            r.render_graphs@.is_empty(),
            r.dependencies@.len() == 0,
    {
        PmfxFile {
            shaders: NameMap::new(),
            raster_states: NameMap::new(),
            depth_stencil_states: NameMap::new(),
            pipelines: NameMap::new(),
            textures: NameMap::new(),
            views: NameMap::new(),
            render_graphs: NameMap::new(),
            dependencies: Vec::new(),
        }
    }
}

} // verus!
